//! A tailor-made match engine to be able to auto-apply notes to matching rows.
//! sle = simple logic engine
use vstd::prelude::*;
use crate::bytes::{bytes_equal, ends_with};

verus! {

/// One condition on a row: the field at `value_column_index` equals, or ends with, `value`.
#[derive(Debug, Clone)]
pub struct Statement {
    pub value_column_index: usize,
    pub operation: Operation,
    pub value: String,
}

#[derive(Debug, Clone, Copy, PartialEq, Eq)]
pub enum Operation {
    Equals,
    EndsWith,
}

#[derive(Debug, Clone)]
pub struct Rule {
    /// All statements have to be true for a match
    pub statements: Vec<Statement>,
    /// The value to apply if the rule matches.
    pub value: String,
}

#[derive(Debug, Clone)]
pub struct Engine {
    pub rules: Vec<Rule>,
}

/// The bytes of a string.
pub open spec fn text_bytes(s: String) -> Seq<u8> {
    vstd::utf8::encode_utf8(s@)
}

/// The statement holds for `row`: the row has the field, and it equals (or ends with)
/// the statement's value.
pub open spec fn statement_holds(s: Statement, row: Seq<Seq<u8>>) -> bool {
    let v = text_bytes(s.value);
    &&& s.value_column_index < row.len()
    &&& match s.operation {
        Operation::Equals => row[s.value_column_index as int] == v,
        Operation::EndsWith => {
            let f = row[s.value_column_index as int];
            v.len() <= f.len() && f.skip(f.len() - v.len()) == v
        },
    }
}

/// All statements of the rule hold for `row`.
pub open spec fn rule_holds(r: Rule, row: Seq<Seq<u8>>) -> bool {
    forall|i: int| 0 <= i < r.statements@.len() ==> statement_holds(#[trigger] r.statements@[i], row)
}

/// The position of the first rule that holds for `row`, if any.
pub open spec fn first_rule(rules: Seq<Rule>, row: Seq<Seq<u8>>) -> Option<int>
    decreases rules.len(),
{
    if rules.len() == 0 {
        None
    } else {
        match first_rule(rules.drop_last(), row) {
            Some(i) => Some(i),
            None => if rule_holds(rules.last(), row) {
                Some(rules.len() - 1)
            } else {
                None
            },
        }
    }
}

proof fn lemma_first_rule_extends(rules: Seq<Rule>, n: int, row: Seq<Seq<u8>>)
    requires
        0 <= n <= rules.len(),
        first_rule(rules.take(n), row) is Some,
    ensures
        first_rule(rules, row) == first_rule(rules.take(n), row),
    decreases rules.len(),
{
    if n < rules.len() {
        assert(rules.drop_last().take(n) =~= rules.take(n));
        lemma_first_rule_extends(rules.drop_last(), n, row);
    } else {
        assert(rules.take(n) =~= rules);
    }
}

impl Statement {
    /// `Some(())` if the statement holds for `record`.
    pub fn matches(&self, record: &Vec<Vec<u8>>) -> (r: Option<()>)
        ensures
            r is Some <==> statement_holds(*self, record.deep_view()),
    {
        if self.value_column_index >= record.len() {
            return None;
        }
        let value = record[self.value_column_index].as_slice();
        proof {
            assert(record.deep_view()[self.value_column_index as int] =~= value@);
        }
        let expected = self.value.as_str().as_bytes();
        match self.operation {
            Operation::Equals => {
                if !bytes_equal(value, expected) {
                    return None;
                }
            },
            Operation::EndsWith => {
                if !ends_with(value, expected) {
                    return None;
                }
            },
        }
        Some(())
    }
}

impl Rule {
    /// Whether every statement of the rule holds for `record`.
    pub fn matches(&self, record: &Vec<Vec<u8>>) -> (r: bool)
        ensures
            r == rule_holds(*self, record.deep_view()),
    {
        let mut i: usize = 0;
        while i < self.statements.len()
            invariant
                i <= self.statements@.len(),
                forall|j: int| 0 <= j < i ==> statement_holds(#[trigger] self.statements@[j], record.deep_view()),
            decreases self.statements.len() - i,
        {
            if self.statements[i].matches(record).is_none() {
                return false;
            }
            i = i + 1;
        }
        true
    }
}

impl Engine {
    /// The first rule, in order, whose statements all hold for `record`.
    pub fn matching_rule(&self, record: &Vec<Vec<u8>>) -> (r: Option<&Rule>)
        ensures
            first_rule(self.rules@, record.deep_view()) matches Some(i) ==> r == Some(&self.rules@[i]),
            first_rule(self.rules@, record.deep_view()) is None ==> r is None,
    {
        let ghost row = record.deep_view();
        let mut i: usize = 0;
        while i < self.rules.len()
            invariant
                i <= self.rules@.len(),
                row == record.deep_view(),
                first_rule(self.rules@.take(i as int), row) is None,
            decreases self.rules.len() - i,
        {
            proof { assert(self.rules@.take(i + 1).drop_last() =~= self.rules@.take(i as int)); }
            if self.rules[i].matches(record) {
                proof { lemma_first_rule_extends(self.rules@, i + 1, row); }
                return Some(&self.rules[i]);
            }
            i = i + 1;
        }
        assert(self.rules@.take(i as int) =~= self.rules@);
        None
    }
}

} // verus!
