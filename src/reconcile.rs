//! Pairing ledger rows with payment rows by time.
use vstd::prelude::*;

verus! {

/// A payment row in the lookup table: its instant (seconds since the epoch, UTC) and its
/// position among the payment rows.
#[derive(Clone, Copy, Debug, PartialEq, Eq)]
pub struct LookupEntry {
    pub instant: i64,
    pub index: usize,
}

/// The payment row a ledger row was paired with, and how many seconds later it came.
#[derive(Clone, Copy, Debug, PartialEq, Eq)]
pub struct Match {
    pub index: usize,
    pub distance: u64,
}

/// Entries are in non-decreasing order of instant.
pub open spec fn is_time_sorted(s: Seq<LookupEntry>) -> bool {
    forall|i: int, j: int| 0 <= i < j < s.len() ==> s[i].instant <= s[j].instant
}

/// The number of leading entries of a time-sorted table that come strictly before `t`.
pub open spec fn lower_bound(s: Seq<LookupEntry>, t: int) -> int
    decreases s.len(),
{
    if s.len() == 0 {
        0
    } else if s.last().instant < t {
        s.len() as int
    } else {
        lower_bound(s.drop_last(), t)
    }
}

/// The entry chosen for a ledger instant `t`: the earliest entry not before `t`, if it
/// is at most `max` seconds later. Gives its position and the distance in seconds.
pub open spec fn pick(s: Seq<LookupEntry>, t: int, max: int) -> Option<(int, int)> {
    let i = lower_bound(s, t);
    if i < s.len() && s[i].instant - t <= max {
        Some((i, s[i].instant - t))
    } else {
        None
    }
}

/// What is left of the table after pairing each of `ts` in turn; a paired entry leaves.
pub open spec fn remaining(s: Seq<LookupEntry>, ts: Seq<i64>, max: int) -> Seq<LookupEntry>
    decreases ts.len(),
{
    if ts.len() == 0 {
        s
    } else {
        let l = remaining(s, ts.drop_last(), max);
        match pick(l, ts.last() as int, max) {
            Some((i, _)) => l.remove(i),
            None => l,
        }
    }
}

/// The pairing of each of `ts` in turn: the payment index and distance, or nothing.
pub open spec fn decisions(s: Seq<LookupEntry>, ts: Seq<i64>, max: int) -> Seq<Option<(int, int)>>
    decreases ts.len(),
{
    if ts.len() == 0 {
        Seq::empty()
    } else {
        let l = remaining(s, ts.drop_last(), max);
        decisions(s, ts.drop_last(), max).push(
            match pick(l, ts.last() as int, max) {
                Some((i, d)) => Some((l[i].index as int, d)),
                None => None,
            },
        )
    }
}

pub open spec fn match_view(m: Option<Match>) -> Option<(int, int)> {
    match m {
        Some(x) => Some((x.index as int, x.distance as int)),
        None => None,
    }
}

pub proof fn lemma_decisions_len(s: Seq<LookupEntry>, ts: Seq<i64>, max: int)
    ensures
        decisions(s, ts, max).len() == ts.len(),
    decreases ts.len(),
{
    if ts.len() > 0 {
        lemma_decisions_len(s, ts.drop_last(), max);
    }
}

proof fn lemma_lower_bound_unique(s: Seq<LookupEntry>, t: int, i: int)
    requires
        0 <= i <= s.len(),
        forall|j: int| 0 <= j < i ==> s[j].instant < t,
        forall|j: int| i <= j < s.len() ==> s[j].instant >= t,
    ensures
        lower_bound(s, t) == i,
    decreases s.len(),
{
    if s.len() > 0 && i < s.len() {
        lemma_lower_bound_unique(s.drop_last(), t, i);
    }
}

/// The position of the first entry not before `t`.
fn find_lower_bound(s: &Vec<LookupEntry>, t: i64) -> (r: usize)
    requires
        is_time_sorted(s@),
    ensures
        r == lower_bound(s@, t as int),
        r <= s@.len(),
        forall|j: int| r <= j < s@.len() ==> s@[j].instant >= t,
{
    let mut lo: usize = 0;
    let mut hi: usize = s.len();
    while lo < hi
        invariant
            0 <= lo <= hi <= s@.len(),
            is_time_sorted(s@),
            forall|j: int| 0 <= j < lo ==> s@[j].instant < t,
            forall|j: int| hi <= j < s@.len() ==> s@[j].instant >= t,
        decreases hi - lo,
    {
        let mid = lo + (hi - lo) / 2;
        if s[mid].instant < t {
            lo = mid + 1;
        } else {
            hi = mid;
        }
    }
    proof { lemma_lower_bound_unique(s@, t as int, lo as int); }
    lo
}

proof fn lemma_remove_keeps_sorted(s: Seq<LookupEntry>, i: int)
    requires
        is_time_sorted(s),
        0 <= i < s.len(),
    ensures
        is_time_sorted(s.remove(i)),
{
    let r = s.remove(i);
    assert forall|a: int, b: int| 0 <= a < b < r.len() implies r[a].instant <= r[b].instant by {
        let a0 = if a < i { a } else { a + 1 };
        let b0 = if b < i { b } else { b + 1 };
        assert(r[a] == s[a0] && r[b] == s[b0]);
    }
}

/// Pair each ledger instant of `ledger`, in order, with the earliest remaining payment
/// entry of `lut` at or after it and at most `max_distance_seconds` later. A paired entry
/// is taken out of `lut`, so no payment row is paired twice.
pub fn reconcile(ledger: &Vec<i64>, lut: &mut Vec<LookupEntry>, max_distance_seconds: u64) -> (r:
    Vec<Option<Match>>)
    requires
        is_time_sorted(old(lut)@),
    ensures
        r@.len() == ledger@.len(),
        forall|k: int|
            0 <= k < ledger@.len() ==> match_view(#[trigger] r@[k]) == decisions(
                old(lut)@,
                ledger@,
                max_distance_seconds as int,
            )[k],
        final(lut)@ == remaining(old(lut)@, ledger@, max_distance_seconds as int),
        is_time_sorted(final(lut)@),
{
    let ghost s0 = lut@;
    let ghost max = max_distance_seconds as int;
    let mut out: Vec<Option<Match>> = Vec::new();
    let mut k: usize = 0;
    while k < ledger.len()
        invariant
            k <= ledger@.len(),
            max == max_distance_seconds as int,
            is_time_sorted(lut@),
            lut@ == remaining(s0, ledger@.take(k as int), max),
            out@.len() == k,
            forall|j: int|
                0 <= j < k ==> match_view(#[trigger] out@[j]) == decisions(s0, ledger@.take(k as int), max)[j],
        decreases ledger.len() - k,
    {
        let t = ledger[k];
        let ghost prefix = ledger@.take(k as int);
        proof {
            assert(ledger@.take(k + 1).drop_last() =~= prefix);
            assert(ledger@.take(k + 1).last() == t);
        }
        let ghost l = lut@;
        let i = find_lower_bound(lut, t);
        let mut decision: Option<Match> = None;
        if i < lut.len() {
            let d: i128 = lut[i].instant as i128 - t as i128;
            if d <= max_distance_seconds as i128 {
                let e = lut.remove(i);
                proof { lemma_remove_keeps_sorted(remaining(s0, prefix, max), i as int); }
                decision = Some(Match { index: e.index, distance: d as u64 });
            }
        }
        let ghost before = out@;
        out.push(decision);
        proof {
            let nd = match pick(l, t as int, max) {
                Some((pi, pd)) => Some((l[pi].index as int, pd)),
                None => None,
            };
            assert(match_view(decision) == nd);
            assert(decisions(s0, ledger@.take(k + 1), max) == decisions(s0, prefix, max).push(nd));
            lemma_decisions_len(s0, prefix, max);
            assert(out@.len() == k + 1);
            assert(out@[k as int] == decision);
            assert forall|j: int| 0 <= j < k + 1 implies match_view(#[trigger] out@[j]) == decisions(
                s0,
                ledger@.take(k + 1),
                max,
            )[j] by {
                if j < k {
                    assert(out@[j] == before[j]);
                }
            }
        }
        k = k + 1;
    }
    assert(ledger@.take(k as int) =~= ledger@);
    out
}

/// The payment row of a pairing.
pub open spec fn paired_row(o: Option<(int, int)>) -> int {
    match o {
        Some((p, _)) => p,
        None => -1,
    }
}

/// No two entries stand for the same payment row.
pub open spec fn distinct_indices(s: Seq<LookupEntry>) -> bool {
    forall|i: int, j: int| 0 <= i < j < s.len() ==> s[i].index != s[j].index
}

proof fn lemma_lower_bound_range(s: Seq<LookupEntry>, t: int)
    ensures
        0 <= lower_bound(s, t) <= s.len(),
        lower_bound(s, t) < s.len() ==> s[lower_bound(s, t)].instant >= t,
    decreases s.len(),
{
    if s.len() > 0 && s.last().instant >= t {
        lemma_lower_bound_range(s.drop_last(), t);
    }
}

/// The decision for the `k`-th ledger instant, in terms of the table left by those before it.
proof fn lemma_decision_at(s: Seq<LookupEntry>, ts: Seq<i64>, max: int, k: int)
    requires
        0 <= k < ts.len(),
    ensures
        decisions(s, ts, max)[k] == (match pick(remaining(s, ts.take(k), max), ts[k] as int, max) {
            Some((i, d)) => Some((remaining(s, ts.take(k), max)[i].index as int, d)),
            None => None,
        }),
    decreases ts.len(),
{
    if k == ts.len() - 1 {
        assert(ts.drop_last() =~= ts.take(k));
        lemma_decisions_len(s, ts.drop_last(), max);
    } else {
        lemma_decisions_len(s, ts.drop_last(), max);
        lemma_decision_at(s, ts.drop_last(), max, k);
        assert(ts.drop_last().take(k) =~= ts.take(k));
    }
}

proof fn lemma_consumption(s: Seq<LookupEntry>, ts: Seq<i64>, max: int)
    requires
        distinct_indices(s),
    ensures
        distinct_indices(remaining(s, ts, max)),
        forall|a: int, j: int|
            0 <= a < ts.len() && (#[trigger] decisions(s, ts, max)[a]) is Some && 0 <= j < remaining(
                s,
                ts,
                max,
            ).len() ==> (#[trigger] remaining(s, ts, max)[j]).index != paired_row(decisions(s, ts, max)[a]),
        forall|a: int, b: int|
            0 <= a < b < ts.len() && (#[trigger] decisions(s, ts, max)[a]) is Some && (
            #[trigger] decisions(s, ts, max)[b]) is Some ==> paired_row(decisions(s, ts, max)[a])
                != paired_row(decisions(s, ts, max)[b]),
    decreases ts.len(),
{
    if ts.len() > 0 {
        let p = ts.drop_last();
        lemma_consumption(s, p, max);
        lemma_decisions_len(s, p, max);
        let l = remaining(s, p, max);
        let t = ts.last() as int;
        let dp = decisions(s, p, max);
        let dd = decisions(s, ts, max);
        let rr = remaining(s, ts, max);
        lemma_lower_bound_range(l, t);
        match pick(l, t, max) {
            Some((i, d)) => {
                assert(rr == l.remove(i));
                assert forall|x: int, y: int| 0 <= x < y < rr.len() implies rr[x].index
                    != rr[y].index by {
                    let x0 = if x < i { x } else { x + 1 };
                    let y0 = if y < i { y } else { y + 1 };
                    assert(rr[x] == l[x0] && rr[y] == l[y0]);
                }
                assert forall|a: int, j: int|
                    0 <= a < ts.len() && (#[trigger] dd[a]) is Some && 0 <= j < rr.len() implies (
                    #[trigger] rr[j]).index != paired_row(dd[a]) by {
                    let j0 = if j < i { j } else { j + 1 };
                    assert(rr[j] == l[j0]);
                    if a < p.len() {
                        assert(dd[a] == dp[a]);
                    } else {
                        assert(j0 != i);
                    }
                }
                assert forall|a: int, b: int|
                    0 <= a < b < ts.len() && (#[trigger] dd[a]) is Some && (#[trigger] dd[b]) is Some implies paired_row(dd[a])
                        != paired_row(dd[b]) by {
                    assert(dd[a] == dp[a]);
                    if b < p.len() {
                        assert(dd[b] == dp[b]);
                    } else {
                        assert(paired_row(dd[b]) == l[i].index);
                    }
                }
            },
            None => {
                assert(rr == l);
                assert forall|a: int, j: int|
                    0 <= a < ts.len() && (#[trigger] dd[a]) is Some && 0 <= j < rr.len() implies (
                    #[trigger] rr[j]).index != paired_row(dd[a]) by {
                    assert(dd[a] == dp[a] || a == p.len());
                }
                assert forall|a: int, b: int|
                    0 <= a < b < ts.len() && (#[trigger] dd[a]) is Some && (#[trigger] dd[b]) is Some implies paired_row(dd[a])
                        != paired_row(dd[b]) by {
                    assert(dd[a] == dp[a]);
                    assert(dd[b] == dp[b] || b == p.len());
                }
            },
        }
    }
}

/// No payment row is paired with more than one ledger row.
pub proof fn reconcile_pairs_at_most_once(s: Seq<LookupEntry>, ts: Seq<i64>, max: int)
    requires
        distinct_indices(s),
    ensures
        forall|a: int, b: int|
            0 <= a < b < ts.len() && (#[trigger] decisions(s, ts, max)[a]) is Some && (
            #[trigger] decisions(s, ts, max)[b]) is Some ==> paired_row(decisions(s, ts, max)[a])
                != paired_row(decisions(s, ts, max)[b]),
{
    lemma_consumption(s, ts, max);
}

/// A ledger row is paired only with a payment entry that was still in the table, lies
/// at or after the ledger instant (never before it) and at most `max` seconds later; a
/// ledger row for which no remaining entry lies in that window stays unpaired.
pub proof fn reconcile_window(s: Seq<LookupEntry>, ts: Seq<i64>, max: int, k: int)
    requires
        0 <= k < ts.len(),
    ensures
        decisions(s, ts, max)[k] matches Some((p, d)) ==> 0 <= d <= max && exists|j: int|
            0 <= j < remaining(s, ts.take(k), max).len() && (#[trigger] remaining(
                s,
                ts.take(k),
                max,
            )[j]).index == p && remaining(s, ts.take(k), max)[j].instant - ts[k] == d,
        (forall|j: int|
            0 <= j < remaining(s, ts.take(k), max).len() ==> !(0 <= (#[trigger] remaining(
                s,
                ts.take(k),
                max,
            )[j]).instant - ts[k] <= max)) ==> decisions(s, ts, max)[k] is None,
{
    lemma_decision_at(s, ts, max, k);
    let l = remaining(s, ts.take(k), max);
    lemma_lower_bound_range(l, ts[k] as int);
}

/// Reconciling the same inputs twice gives the same pairings.
pub proof fn reconcile_deterministic(
    s: Seq<LookupEntry>,
    ts: Seq<i64>,
    max: int,
    a: Seq<Option<Match>>,
    b: Seq<Option<Match>>,
)
    requires
        a.len() == ts.len(),
        b.len() == ts.len(),
        forall|k: int| 0 <= k < ts.len() ==> match_view(#[trigger] a[k]) == decisions(s, ts, max)[k],
        forall|k: int| 0 <= k < ts.len() ==> match_view(#[trigger] b[k]) == decisions(s, ts, max)[k],
    ensures
        a == b,
{
    assert forall|k: int| 0 <= k < a.len() implies a[k] == b[k] by {
        assert(match_view(a[k]) == match_view(b[k]));
    }
    assert(a =~= b);
}

/// `a` comes before `b` in the lookup table: earlier instant, then earlier payment row.
pub open spec fn entry_before(a: LookupEntry, b: LookupEntry) -> bool {
    a.instant < b.instant || (a.instant == b.instant && a.index < b.index)
}

/// `s` is the lookup table of payment rows with `instants`: one entry per row, ordered
/// by instant and, among equal instants, by row.
pub open spec fn is_lookup_of(s: Seq<LookupEntry>, instants: Seq<i64>) -> bool {
    &&& s.len() == instants.len()
    &&& forall|i: int, j: int| 0 <= i < j < s.len() ==> entry_before(s[i], s[j])
    &&& forall|i: int|
        0 <= i < s.len() ==> (#[trigger] s[i]).index < instants.len() && s[i].instant
            == instants[s[i].index as int]
}

pub proof fn lemma_lookup_properties(s: Seq<LookupEntry>, instants: Seq<i64>)
    requires
        is_lookup_of(s, instants),
    ensures
        is_time_sorted(s),
        distinct_indices(s),
{
    assert forall|i: int, j: int| 0 <= i < j < s.len() implies s[i].instant <= s[j].instant
        && s[i].index != s[j].index by {
        assert(entry_before(s[i], s[j]));
        assert(s[i].instant == instants[s[i].index as int]);
        assert(s[j].instant == instants[s[j].index as int]);
    }
}

/// The lookup table of payment rows with the given instants.
pub fn build_lookup(instants: &Vec<i64>) -> (r: Vec<LookupEntry>)
    ensures
        is_lookup_of(r@, instants@),
{
    let mut lut: Vec<LookupEntry> = Vec::new();
    let mut k: usize = 0;
    while k < instants.len()
        invariant
            k <= instants@.len(),
            lut@.len() == k,
            forall|i: int, j: int| 0 <= i < j < lut@.len() ==> entry_before(lut@[i], lut@[j]),
            forall|i: int|
                0 <= i < lut@.len() ==> (#[trigger] lut@[i]).index < k && lut@[i].instant
                    == instants@[lut@[i].index as int],
        decreases instants.len() - k,
    {
        let t = instants[k];
        let mut p: usize = 0;
        while p < lut.len() && lut[p].instant <= t
            invariant
                p <= lut@.len(),
                forall|j: int| 0 <= j < p ==> lut@[j].instant <= t,
            decreases lut.len() - p,
        {
            p = p + 1;
        }
        let e = LookupEntry { instant: t, index: k };
        let ghost old_lut = lut@;
        lut.insert(p, e);
        proof {
            assert forall|i: int, j: int| 0 <= i < j < lut@.len() implies entry_before(
                lut@[i],
                lut@[j],
            ) by {
                if j == p {
                    assert(lut@[i] == old_lut[i]);
                } else if i == p {
                    assert(lut@[j] == old_lut[j - 1]);
                    if j - 1 > p {
                        assert(entry_before(old_lut[p as int], old_lut[j - 1]));
                    }
                } else {
                    let i0 = if i < p { i } else { i - 1 };
                    let j0 = if j < p { j } else { j - 1 };
                    assert(lut@[i] == old_lut[i0] && lut@[j] == old_lut[j0]);
                }
            }
            assert forall|i: int| 0 <= i < lut@.len() implies (#[trigger] lut@[i]).index < k + 1
                && lut@[i].instant == instants@[lut@[i].index as int] by {
                if i != p {
                    let i0 = if i < p { i } else { i - 1 };
                    assert(lut@[i] == old_lut[i0]);
                }
            }
        }
        k = k + 1;
    }
    lut
}

/// Every entry refers to one of `n` payment rows.
pub open spec fn indices_below(s: Seq<LookupEntry>, n: int) -> bool {
    forall|i: int| 0 <= i < s.len() ==> (#[trigger] s[i]).index < n
}

/// Every pairing refers to a row the table referred to.
pub proof fn lemma_decisions_in_range(s: Seq<LookupEntry>, ts: Seq<i64>, max: int, n: int)
    requires
        indices_below(s, n),
    ensures
        indices_below(remaining(s, ts, max), n),
        forall|k: int|
            0 <= k < ts.len() && (#[trigger] decisions(s, ts, max)[k]) is Some ==> 0 <= paired_row(
                decisions(s, ts, max)[k],
            ) < n,
    decreases ts.len(),
{
    if ts.len() > 0 {
        let p = ts.drop_last();
        lemma_decisions_in_range(s, p, max, n);
        lemma_decisions_len(s, p, max);
        let l = remaining(s, p, max);
        lemma_lower_bound_range(l, ts.last() as int);
        match pick(l, ts.last() as int, max) {
            Some((i, _)) => {
                let r = l.remove(i);
                assert forall|j: int| 0 <= j < r.len() implies (#[trigger] r[j]).index < n by {
                    let j0 = if j < i { j } else { j + 1 };
                    assert(r[j] == l[j0]);
                }
            },
            None => {},
        }
        assert forall|k: int|
            0 <= k < ts.len() && (#[trigger] decisions(s, ts, max)[k]) is Some implies 0
            <= paired_row(decisions(s, ts, max)[k]) < n by {
            if k < p.len() {
                assert(decisions(s, ts, max)[k] == decisions(s, p, max)[k]);
            }
        }
    }
}

/// The number of entries at instant `v`.
pub open spec fn count_at(s: Seq<LookupEntry>, v: int) -> nat
    decreases s.len(),
{
    if s.len() == 0 {
        0
    } else {
        count_at(s.drop_last(), v) + if s.last().instant == v {
            1nat
        } else {
            0nat
        }
    }
}

/// The number of ledger rows that were paired.
pub open spec fn paired_count(d: Seq<Option<(int, int)>>) -> nat
    decreases d.len(),
{
    if d.len() == 0 {
        0
    } else {
        paired_count(d.drop_last()) + if d.last() is Some {
            1nat
        } else {
            0nat
        }
    }
}

proof fn lemma_count_remove(s: Seq<LookupEntry>, i: int, v: int)
    requires
        0 <= i < s.len(),
    ensures
        count_at(s.remove(i), v) + (if s[i].instant == v { 1nat } else { 0nat }) == count_at(s, v),
    decreases s.len(),
{
    if i == s.len() - 1 {
        assert(s.remove(i) =~= s.drop_last());
    } else {
        assert(s.remove(i).drop_last() =~= s.drop_last().remove(i));
        assert(s.remove(i).last() == s.last());
        lemma_count_remove(s.drop_last(), i, v);
    }
}

proof fn lemma_count_positive(s: Seq<LookupEntry>, v: int) -> (j: int)
    requires
        count_at(s, v) > 0,
    ensures
        0 <= j < s.len(),
        s[j].instant == v,
    decreases s.len(),
{
    if s.last().instant == v {
        s.len() - 1
    } else {
        lemma_count_positive(s.drop_last(), v)
    }
}

proof fn lemma_counts_bound_len(a: Seq<LookupEntry>, b: Seq<LookupEntry>)
    requires
        forall|v: int| count_at(a, v) <= count_at(b, v),
    ensures
        a.len() <= b.len(),
    decreases a.len(),
{
    if a.len() > 0 {
        let v = a.last().instant as int;
        assert(count_at(a, v) > 0);
        let j = lemma_count_positive(b, v);
        assert forall|w: int| count_at(a.drop_last(), w) <= count_at(b.remove(j), w) by {
            lemma_count_remove(b, j, w);
        }
        lemma_counts_bound_len(a.drop_last(), b.remove(j));
    }
}

proof fn lemma_lower_bound_sorted(s: Seq<LookupEntry>, t: int)
    requires
        is_time_sorted(s),
    ensures
        forall|j: int| 0 <= j < lower_bound(s, t) ==> s[j].instant < t,
        forall|j: int| lower_bound(s, t) <= j < s.len() ==> s[j].instant >= t,
    decreases s.len(),
{
    lemma_lower_bound_range(s, t);
    if s.len() > 0 {
        if s.last().instant >= t {
            assert(is_time_sorted(s.drop_last()));
            lemma_lower_bound_sorted(s.drop_last(), t);
            assert forall|j: int| 0 <= j < lower_bound(s, t) implies s[j].instant < t by {
                assert(s[j] == s.drop_last()[j]);
            }
            assert forall|j: int| lower_bound(s, t) <= j < s.len() implies s[j].instant >= t by {
                if j < s.len() - 1 {
                    assert(s[j] == s.drop_last()[j]);
                }
            }
        } else {
            assert forall|j: int| 0 <= j < lower_bound(s, t) implies s[j].instant < t by {
                if j < s.len() - 1 {
                    assert(s[j].instant <= s[s.len() - 1].instant);
                }
            }
        }
    }
}

/// Where a sorted table holds an entry at `t`, the pick for `t` is one of them, at
/// distance zero.
proof fn lemma_pick_exact(s: Seq<LookupEntry>, t: int, max: int)
    requires
        is_time_sorted(s),
        count_at(s, t) > 0,
        max >= 0,
    ensures
        pick(s, t, max) matches Some((i, d)) && s[i].instant == t && d == 0,
{
    let j = lemma_count_positive(s, t);
    lemma_lower_bound_sorted(s, t);
    lemma_lower_bound_range(s, t);
    let i = lower_bound(s, t);
    assert(i <= j);
    if i < j {
        assert(s[i].instant <= s[j].instant);
    }
}

proof fn lemma_remaining_sorted(s: Seq<LookupEntry>, ts: Seq<i64>, max: int)
    requires
        is_time_sorted(s),
    ensures
        is_time_sorted(remaining(s, ts, max)),
    decreases ts.len(),
{
    if ts.len() > 0 {
        lemma_remaining_sorted(s, ts.drop_last(), max);
        let l = remaining(s, ts.drop_last(), max);
        lemma_lower_bound_range(l, ts.last() as int);
        if let Some((i, _)) = pick(l, ts.last() as int, max) {
            lemma_remove_keeps_sorted(l, i);
        }
    }
}

proof fn lemma_paired_count(s: Seq<LookupEntry>, ts: Seq<i64>, max: int)
    ensures
        paired_count(decisions(s, ts, max)) + remaining(s, ts, max).len() == s.len(),
    decreases ts.len(),
{
    if ts.len() > 0 {
        let p = ts.drop_last();
        lemma_paired_count(s, p, max);
        let l = remaining(s, p, max);
        lemma_lower_bound_range(l, ts.last() as int);
        assert(decisions(s, ts, max).drop_last() == decisions(s, p, max));
    }
}

proof fn lemma_wider_cutoff_consumes_more(s: Seq<LookupEntry>, ts: Seq<i64>, max: int)
    requires
        is_time_sorted(s),
        max >= 0,
    ensures
        forall|v: int| count_at(remaining(s, ts, max), v) <= count_at(remaining(s, ts, 0), v),
    decreases ts.len(),
{
    if ts.len() > 0 {
        let p = ts.drop_last();
        let t = ts.last() as int;
        lemma_wider_cutoff_consumes_more(s, p, max);
        lemma_remaining_sorted(s, p, max);
        lemma_remaining_sorted(s, p, 0);
        let lm = remaining(s, p, max);
        let l0 = remaining(s, p, 0);
        lemma_lower_bound_range(lm, t);
        lemma_lower_bound_range(l0, t);
        lemma_lower_bound_sorted(l0, t);
        let l0n = remaining(s, ts, 0);
        let lmn = remaining(s, ts, max);
        if count_at(l0, t) > 0 {
            lemma_pick_exact(l0, t, 0);
        } else {
            if let Some((i, _)) = pick(l0, t, 0) {
                assert(l0[i].instant == t);
                assert(count_at(l0, t) > 0) by {
                    lemma_count_remove(l0, i, t);
                }
            }
        }
        if count_at(lm, t) > 0 {
            lemma_pick_exact(lm, t, max);
        }
        assert forall|v: int| count_at(lmn, v) <= count_at(l0n, v) by {
            match pick(l0, t, 0) {
                Some((i, _)) => {
                    lemma_count_remove(l0, i, v);
                },
                None => {},
            }
            match pick(lm, t, max) {
                Some((i, _)) => {
                    lemma_count_remove(lm, i, v);
                },
                None => {},
            }
        }
    }
}

/// With a cutoff of zero no more ledger rows are paired than with any wider cutoff.
pub proof fn reconcile_zero_cutoff_pairs_no_more(s: Seq<LookupEntry>, ts: Seq<i64>, max: int)
    requires
        is_time_sorted(s),
        max >= 0,
    ensures
        paired_count(decisions(s, ts, 0)) <= paired_count(decisions(s, ts, max)),
{
    lemma_wider_cutoff_consumes_more(s, ts, max);
    lemma_counts_bound_len(remaining(s, ts, max), remaining(s, ts, 0));
    lemma_paired_count(s, ts, 0);
    lemma_paired_count(s, ts, max);
}

proof fn lemma_lookup_covers(a: Seq<LookupEntry>, instants: Seq<i64>, k: int)
    requires
        is_lookup_of(a, instants),
        0 <= k < instants.len(),
    ensures
        exists|p: int| 0 <= p < a.len() && (#[trigger] a[p]).index == k,
{
    lemma_lookup_properties(a, instants);
    let n = instants.len() as int;
    let ia = Seq::new(a.len(), |i: int| a[i].index as int);
    assert(ia.no_duplicates()) by {
        assert forall|i: int, j: int| 0 <= i < ia.len() && 0 <= j < ia.len() && i != j implies ia[i]
            != ia[j] by {
            if i < j {
                assert(a[i].index != a[j].index);
            } else {
                assert(a[j].index != a[i].index);
            }
        }
    }
    ia.unique_seq_to_set();
    let range = vstd::set_lib::set_int_range(0, n);
    vstd::set_lib::lemma_int_range(0, n);
    assert(ia.to_set().subset_of(range)) by {
        assert forall|x: int| ia.to_set().contains(x) implies range.contains(x) by {
            assert(ia.contains(x));
            let i = choose|i: int| 0 <= i < ia.len() && ia[i] == x;
            assert(a[i].index < instants.len());
        }
    }
    vstd::set_lib::lemma_subset_equality(ia.to_set(), range);
    assert(range.contains(k));
    assert(ia.to_set().contains(k));
    assert(ia.contains(k));
    let p = choose|p: int| 0 <= p < ia.len() && ia[p] == k;
    assert(a[p].index == k);
}

proof fn lemma_sorted_entries_unique(a: Seq<LookupEntry>, b: Seq<LookupEntry>)
    requires
        forall|i: int, j: int| 0 <= i < j < a.len() ==> entry_before(a[i], a[j]),
        forall|i: int, j: int| 0 <= i < j < b.len() ==> entry_before(b[i], b[j]),
        forall|x: LookupEntry| a.contains(x) <==> b.contains(x),
    ensures
        a == b,
    decreases a.len(),
{
    if a.len() == 0 || b.len() == 0 {
        if b.len() > 0 {
            assert(b.contains(b[0]));
        }
        if a.len() > 0 {
            assert(a.contains(a[0]));
        }
        assert(a =~= b);
    } else {
        let x = a[0];
        let y = b[0];
        if x != y {
            assert(b.contains(y));
            assert(a.contains(y));
            let i = choose|i: int| 0 <= i < a.len() && a[i] == y;
            assert(a.contains(x));
            assert(b.contains(x));
            let j = choose|j: int| 0 <= j < b.len() && b[j] == x;
            assert(entry_before(x, y));
            assert(entry_before(y, x));
        }
        let a1 = a.drop_first();
        let b1 = b.drop_first();
        assert forall|z: LookupEntry| a1.contains(z) <==> b1.contains(z) by {
            if a1.contains(z) {
                let i = choose|i: int| 0 <= i < a1.len() && a1[i] == z;
                assert(a[i + 1] == z);
                assert(entry_before(a[0], a[i + 1]));
                assert(a.contains(z));
                let j = choose|j: int| 0 <= j < b.len() && b[j] == z;
                assert(j != 0);
                assert(b1[j - 1] == z);
            }
            if b1.contains(z) {
                let i = choose|i: int| 0 <= i < b1.len() && b1[i] == z;
                assert(b[i + 1] == z);
                assert(entry_before(b[0], b[i + 1]));
                assert(b.contains(z));
                let j = choose|j: int| 0 <= j < a.len() && a[j] == z;
                assert(j != 0);
                assert(a1[j - 1] == z);
            }
        }
        lemma_sorted_entries_unique(a1, b1);
        assert(a =~= seq![x] + a1);
        assert(b =~= seq![y] + b1);
    }
}

/// The lookup table of a list of instants is unique.
pub proof fn lookup_unique(a: Seq<LookupEntry>, b: Seq<LookupEntry>, instants: Seq<i64>)
    requires
        is_lookup_of(a, instants),
        is_lookup_of(b, instants),
    ensures
        a == b,
{
    assert forall|x: LookupEntry| a.contains(x) implies b.contains(x) by {
        let i = choose|i: int| 0 <= i < a.len() && a[i] == x;
        assert(a[i].index < instants.len());
        lemma_lookup_covers(b, instants, x.index as int);
        let p = choose|p: int| 0 <= p < b.len() && (#[trigger] b[p]).index == x.index;
        assert(b[p] == x);
    }
    assert forall|x: LookupEntry| b.contains(x) implies a.contains(x) by {
        let i = choose|i: int| 0 <= i < b.len() && b[i] == x;
        assert(b[i].index < instants.len());
        lemma_lookup_covers(a, instants, x.index as int);
        let p = choose|p: int| 0 <= p < a.len() && (#[trigger] a[p]).index == x.index;
        assert(a[p] == x);
    }
    lemma_sorted_entries_unique(a, b);
}

} // verus!
