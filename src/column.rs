//! Resolving a column selector (a position or a header name) against a header row.
use vstd::prelude::*;
use crate::bytes::bytes_equal;
use vstd::string::StringSliceAdditionalSpecFns;

verus! {

pub open spec fn is_digit(b: u8) -> bool {
    0x30 <= b <= 0x39
}

/// The value of a string of ASCII decimal digits.
pub open spec fn digits_value(s: Seq<u8>) -> nat
    decreases s.len(),
{
    if s.len() == 0 {
        0
    } else {
        digits_value(s.drop_last()) * 10 + (s.last() - 0x30) as nat
    }
}

/// `s` without a leading `+`.
pub open spec fn unsigned_part(s: Seq<u8>) -> Seq<u8> {
    if s.len() > 0 && s[0] == 0x2b {
        s.drop_first()
    } else {
        s
    }
}

pub open spec fn all_digits(d: Seq<u8>) -> bool {
    forall|i: int| 0 <= i < d.len() ==> is_digit(d[i])
}

/// The text of a non-negative decimal number as `usize` parsing reads it:
/// an optional `+`, then one or more ASCII digits, with a value that fits `usize`.
pub open spec fn index_text(s: Seq<u8>) -> Option<nat> {
    let d = unsigned_part(s);
    if d.len() > 0 && all_digits(d) && digits_value(d) <= usize::MAX {
        Some(digits_value(d))
    } else {
        None
    }
}

/// The first position of `name` in `header`, if any.
pub open spec fn position_of(header: Seq<Seq<u8>>, name: Seq<u8>) -> Option<int>
    decreases header.len(),
{
    if header.len() == 0 {
        None
    } else {
        match position_of(header.drop_last(), name) {
            Some(p) => Some(p),
            None => if header.last() == name {
                Some(header.len() - 1)
            } else {
                None
            },
        }
    }
}

/// The column that `selector` picks in `header`: a number is a position and must be
/// in range; any other text is a column name.
pub open spec fn column_index(selector: Seq<u8>, header: Seq<Seq<u8>>) -> Option<int> {
    match index_text(selector) {
        Some(n) => if n < header.len() {
            Some(n as int)
        } else {
            None
        },
        None => position_of(header, selector),
    }
}

proof fn lemma_digits_value_grows(s: Seq<u8>, i: int)
    requires
        0 <= i <= s.len(),
        forall|j: int| 0 <= j < s.len() ==> is_digit(s[j]),
    ensures
        digits_value(s.take(i)) <= digits_value(s),
    decreases s.len(),
{
    if i < s.len() {
        lemma_digits_value_grows(s.drop_last(), i);
        assert(s.drop_last().take(i) =~= s.take(i));
    } else {
        assert(s.take(i) =~= s);
    }
}

fn parse_index(s: &[u8]) -> (r: Option<usize>)
    ensures
        r matches Some(n) ==> index_text(s@) == Some(n as nat),
        r is None ==> index_text(s@) is None,
{
    let start: usize = if s.len() > 0 && s[0] == 0x2b {
        1
    } else {
        0
    };
    let ghost d = unsigned_part(s@);
    assert(d =~= s@.skip(start as int));
    if start >= s.len() {
        assert(d.len() == 0);
        return None;
    }
    let mut value: usize = 0;
    let mut i: usize = start;
    while i < s.len()
        invariant
            start <= i <= s@.len(),
            d =~= s@.skip(start as int),
            d == unsigned_part(s@),
            forall|j: int| start <= j < i ==> is_digit(s@[j]),
            value == digits_value(s@.subrange(start as int, i as int)),
        decreases s.len() - i,
    {
        let b = s[i];
        if b < 0x30 || b > 0x39 {
            assert(!is_digit(d[i - start]));
            assert(!all_digits(d));
            return None;
        }
        let ghost prefix = s@.subrange(start as int, i + 1);
        assert(prefix.drop_last() =~= s@.subrange(start as int, i as int));
        match value.checked_mul(10) {
            Some(v) => match v.checked_add((b - 0x30) as usize) {
                Some(w) => {
                    value = w;
                },
                None => {
                    proof { lemma_overflow(s@, start as int, i + 1, d); }
                    return None;
                },
            },
            None => {
                proof { lemma_overflow(s@, start as int, i + 1, d); }
                return None;
            },
        }
        i = i + 1;
    }
    assert(s@.subrange(start as int, i as int) =~= d);
    Some(value)
}

proof fn lemma_overflow(s: Seq<u8>, start: int, end: int, d: Seq<u8>)
    requires
        0 <= start < end <= s.len(),
        d =~= s.skip(start),
        forall|j: int| start <= j < end ==> is_digit(s[j]),
        digits_value(s.subrange(start, end)) > usize::MAX,
    ensures
        !(all_digits(d) && digits_value(d) <= usize::MAX),
{
    if all_digits(d) {
        lemma_digits_value_grows(d, end - start);
        assert(d.take(end - start) =~= s.subrange(start, end));
    }
}

proof fn lemma_position_extends(h: Seq<Seq<u8>>, n: int, name: Seq<u8>)
    requires
        0 <= n <= h.len(),
        position_of(h.take(n), name) is Some,
    ensures
        position_of(h, name) == position_of(h.take(n), name),
    decreases h.len(),
{
    if n < h.len() {
        assert(h.drop_last().take(n) =~= h.take(n));
        lemma_position_extends(h.drop_last(), n, name);
    } else {
        assert(h.take(n) =~= h);
    }
}

/// Where `name` first stands in `header`.
fn find_name(header: &Vec<Vec<u8>>, name: &[u8]) -> (r: Option<usize>)
    ensures
        r matches Some(p) ==> position_of(header.deep_view(), name@) == Some(p as int),
        r is None ==> position_of(header.deep_view(), name@) is None,
{
    let ghost h = header.deep_view();
    let mut i: usize = 0;
    while i < header.len()
        invariant
            i <= h.len(),
            h == header.deep_view(),
            position_of(h.take(i as int), name@) is None,
        decreases header.len() - i,
    {
        proof {
            assert(h.take(i + 1).drop_last() =~= h.take(i as int));
            assert(h[i as int] =~= header@[i as int]@);
        }
        if bytes_equal(header[i].as_slice(), name) {
            proof { lemma_position_extends(h, i + 1, name@); }
            return Some(i);
        }
        i = i + 1;
    }
    assert(h.take(i as int) =~= h);
    None
}

/// Resolve a column selector against a header row.
pub fn header_idx(name_or_index: &str, header: &Vec<Vec<u8>>) -> (r: Option<usize>)
    ensures
        r matches Some(p) ==> column_index(name_or_index.spec_bytes(), header.deep_view()) == Some(
            p as int,
        ),
        r is None ==> column_index(name_or_index.spec_bytes(), header.deep_view()) is None,
{
    let sel = name_or_index.as_bytes();
    match parse_index(sel) {
        Some(n) => if n < header.len() {
            Some(n)
        } else {
            None
        },
        None => find_name(header, sel),
    }
}

} // verus!
