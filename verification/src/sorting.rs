//! Joint, stable, ascending sort of light-curve samples by their time key.
//!
//! `sort_by_time` is the mathematical sort: it inserts each element, taken
//! left to right, after every already-placed element with a time key not
//! above its own, which makes the sort stable by construction.
use vstd::prelude::*;

use crate::lc::Sample;

verus! {

/// Time keys never decrease along the sequence.
pub open spec fn time_sorted(s: Seq<Sample>) -> bool {
    forall|i: int, j: int| 0 <= i <= j < s.len() ==> s[i].t <= s[j].t
}

/// `x` placed after the longest prefix of `s` whose time keys are not above
/// `x.t`, i.e. at the first position whose key exceeds `x.t`.
pub open spec fn insert_by_time(s: Seq<Sample>, x: Sample) -> Seq<Sample>
    decreases s.len(),
{
    if s.len() == 0 {
        seq![x]
    } else if s[0].t <= x.t {
        seq![s[0]] + insert_by_time(s.drop_first(), x)
    } else {
        seq![x] + s
    }
}

/// Stable ascending sort by time key: each element inserted, in input
/// order, into the sorted image of what came before it.
pub open spec fn sort_by_time(s: Seq<Sample>) -> Seq<Sample>
    decreases s.len(),
{
    if s.len() == 0 {
        Seq::<Sample>::empty()
    } else {
        insert_by_time(sort_by_time(s.drop_last()), s.last())
    }
}

/// Inserting keeps every element and adds `x`.
proof fn lemma_insert_by_time_multiset(s: Seq<Sample>, x: Sample)
    ensures
        insert_by_time(s, x).to_multiset() == s.to_multiset().insert(x),
        insert_by_time(s, x).len() == s.len() + 1,
    decreases s.len(),
{
    broadcast use vstd::seq_lib::group_seq_properties;

    if s.len() == 0 {
        assert(insert_by_time(s, x) =~= Seq::empty().push(x));
        assert(s =~= Seq::<Sample>::empty());
    } else if s[0].t <= x.t {
        lemma_insert_by_time_multiset(s.drop_first(), x);
        assert(insert_by_time(s, x) =~= seq![s[0]] + insert_by_time(s.drop_first(), x));
        assert(seq![s[0]] + insert_by_time(s.drop_first(), x) =~= insert_by_time(
            s.drop_first(),
            x,
        ).insert(0, s[0]));
        assert(s =~= s.drop_first().insert(0, s[0]));
        assert(insert_by_time(s, x).to_multiset() == insert_by_time(
            s.drop_first(),
            x,
        ).to_multiset().insert(s[0]));
        assert(s.to_multiset() == s.drop_first().to_multiset().insert(s[0]));
        assert(insert_by_time(s, x).to_multiset() =~= s.to_multiset().insert(x));
    } else {
        assert(insert_by_time(s, x) =~= s.insert(0, x));
    }
}

/// Inserting into a time-sorted sequence keeps it time-sorted.
proof fn lemma_insert_by_time_sorted(s: Seq<Sample>, x: Sample)
    requires
        time_sorted(s),
    ensures
        time_sorted(insert_by_time(s, x)),
    decreases s.len(),
{
    if s.len() == 0 {
    } else if s[0].t <= x.t {
        assert(time_sorted(s.drop_first()));
        lemma_insert_by_time_sorted(s.drop_first(), x);
        lemma_insert_by_time_multiset(s.drop_first(), x);
        let r = seq![s[0]] + insert_by_time(s.drop_first(), x);
        let tail = insert_by_time(s.drop_first(), x);
        assert forall|i: int, j: int| 0 <= i <= j < r.len() implies r[i].t <= r[j].t by {
            if i == 0 && j > 0 {
                // every element of the inserted tail is either x or an
                // element of s past position 0
                lemma_insert_element_origin(s.drop_first(), x, j - 1);
            }
        }
    } else {
    }
}

/// Every element of `insert_by_time(s, x)` is `x` or an element of `s`,
/// and elements of `s` before the insertion point keep their place.
proof fn lemma_insert_element_origin(s: Seq<Sample>, x: Sample, k: int)
    requires
        0 <= k < s.len() + 1,
    ensures
        insert_by_time(s, x)[k] == x || exists|m: int| 0 <= m < s.len() && insert_by_time(s, x)[k] == s[m],
    decreases s.len(),
{
    lemma_insert_by_time_multiset(s, x);
    if s.len() == 0 {
    } else if s[0].t <= x.t {
        if k == 0 {
            assert(insert_by_time(s, x)[0] == s[0]);
        } else {
            lemma_insert_element_origin(s.drop_first(), x, k - 1);
            if insert_by_time(s.drop_first(), x)[k - 1] == x {
            } else {
                let m = choose|m: int|
                    0 <= m < s.drop_first().len() && insert_by_time(s.drop_first(), x)[k - 1]
                        == s.drop_first()[m];
                assert(s.drop_first()[m] == s[m + 1]);
            }
        }
    } else {
        if k == 0 {
        } else {
            assert(insert_by_time(s, x)[k] == s[k - 1]);
        }
    }
}

/// The sort keeps the multiset of samples and the length.
pub proof fn lemma_sort_by_time_multiset(s: Seq<Sample>)
    ensures
        sort_by_time(s).to_multiset() == s.to_multiset(),
        sort_by_time(s).len() == s.len(),
    decreases s.len(),
{
    broadcast use vstd::seq_lib::group_seq_properties;

    if s.len() == 0 {
        assert(sort_by_time(s) =~= s);
    } else {
        lemma_sort_by_time_multiset(s.drop_last());
        lemma_insert_by_time_multiset(sort_by_time(s.drop_last()), s.last());
        assert(s =~= s.drop_last().push(s.last()));
        assert(s.to_multiset() == s.drop_last().to_multiset().insert(s.last()));
    }
}

/// The sort's result is time-sorted.
pub proof fn lemma_sort_by_time_sorted(s: Seq<Sample>)
    ensures
        time_sorted(sort_by_time(s)),
    decreases s.len(),
{
    if s.len() == 0 {
    } else {
        lemma_sort_by_time_sorted(s.drop_last());
        lemma_insert_by_time_sorted(sort_by_time(s.drop_last()), s.last());
    }
}

/// Inserting an element whose key is not below every key of a time-sorted
/// sequence appends it at the end.
proof fn lemma_insert_by_time_at_end(s: Seq<Sample>, x: Sample)
    requires
        forall|i: int| 0 <= i < s.len() ==> s[i].t <= x.t,
    ensures
        insert_by_time(s, x) == s.push(x),
    decreases s.len(),
{
    if s.len() == 0 {
        assert(insert_by_time(s, x) =~= s.push(x));
    } else {
        lemma_insert_by_time_at_end(s.drop_first(), x);
        assert(insert_by_time(s, x) =~= s.push(x));
    }
}

/// Sorting a sequence that is already time-sorted changes nothing.
pub proof fn lemma_sort_by_time_identity(s: Seq<Sample>)
    requires
        time_sorted(s),
    ensures
        sort_by_time(s) == s,
    decreases s.len(),
{
    if s.len() == 0 {
        assert(sort_by_time(s) =~= s);
    } else {
        assert(time_sorted(s.drop_last()));
        lemma_sort_by_time_identity(s.drop_last());
        lemma_insert_by_time_at_end(s.drop_last(), s.last());
        assert(sort_by_time(s) =~= s.drop_last().push(s.last()));
        assert(s.drop_last().push(s.last()) =~= s);
    }
}

/// Inserting at the first position whose key exceeds `x.t` is what
/// `insert_by_time` does, position by position.
proof fn lemma_insert_by_time_at(s: Seq<Sample>, x: Sample, p: int)
    requires
        0 <= p <= s.len(),
        forall|i: int| 0 <= i < p ==> s[i].t <= x.t,
        p < s.len() ==> s[p].t > x.t,
    ensures
        insert_by_time(s, x) == s.take(p) + seq![x] + s.skip(p),
    decreases s.len(),
{
    if s.len() == 0 {
        assert(insert_by_time(s, x) =~= s.take(p) + seq![x] + s.skip(p));
    } else if p == 0 {
        assert(insert_by_time(s, x) =~= s.take(0) + seq![x] + s.skip(0));
    } else {
        lemma_insert_by_time_at(s.drop_first(), x, p - 1);
        assert(s.drop_first().take(p - 1) =~= s.take(p).drop_first());
        assert(s.drop_first().skip(p - 1) =~= s.skip(p));
        assert(seq![s[0]] + (s.take(p).drop_first() + seq![x] + s.skip(p)) =~= s.take(p) + seq![x]
            + s.skip(p));
    }
}

/// Stable ascending insertion sort of samples by their time key.
pub fn sort_samples(v: Vec<Sample>) -> (r: Vec<Sample>)
    ensures
        r@ == sort_by_time(v@),
{
    let n = v.len();
    let mut r: Vec<Sample> = Vec::new();
    let mut k: usize = 0;
    while k < n
        invariant
            n == v@.len(),
            k <= n,
            r@ == sort_by_time(v@.take(k as int)),
            r@.len() == k,
            time_sorted(r@),
        decreases n - k,
    {
        let x = v[k];
        // find the first position whose time key exceeds x.t
        let mut p: usize = 0;
        while p < r.len() && r[p].t <= x.t
            invariant
                p <= r@.len(),
                forall|i: int| 0 <= i < p ==> r@[i].t <= x.t,
            decreases r@.len() - p,
        {
            p += 1;
        }
        let ghost r_old = r@;
        r.insert(p, x);
        proof {
            lemma_insert_by_time_at(r_old, x, p as int);
            assert(r@ =~= r_old.take(p as int) + seq![x] + r_old.skip(p as int));
            assert(r@ == insert_by_time(r_old, x));
            assert(v@.take(k + 1).drop_last() =~= v@.take(k as int));
            assert(v@.take(k + 1).last() == v@[k as int]);
            lemma_insert_by_time_sorted(r_old, x);
            lemma_insert_by_time_multiset(r_old, x);
        }
        k += 1;
    }
    proof {
        assert(v@.take(n as int) =~= v@);
    }
    r
}

} // verus!
