//! Single-pass grouping of an id-contiguous observation stream into
//! per-object `Source` aggregates.
//!
//! The mathematical model splits the stream into maximal runs of equal ids
//! (`runs`); each run becomes one source whose band curves are the run's
//! per-band subsequences, time-sorted unless the caller claims the input is
//! already sorted by time.
use vstd::prelude::*;

use crate::lc::{Observation, Sample, Source, SourceModel};
use crate::sorting::{
    lemma_sort_by_time_multiset, lemma_sort_by_time_sorted, sort_by_time, time_sorted,
};

verus! {

/// Length of the maximal initial run of equal ids.
pub open spec fn run_len(s: Seq<Observation>) -> int
    decreases s.len(),
{
    if s.len() == 0 {
        0
    } else if s.len() == 1 {
        1
    } else if s[1].sid == s[0].sid {
        1 + run_len(s.drop_first())
    } else {
        1
    }
}

/// The initial run is nonempty, no longer than the stream, all of one id,
/// and maximal.
proof fn lemma_run_len_bounds(s: Seq<Observation>)
    requires
        s.len() > 0,
    ensures
        1 <= run_len(s) <= s.len(),
        forall|i: int| 0 <= i < run_len(s) ==> (#[trigger] s[i]).sid == s[0].sid,
        run_len(s) < s.len() ==> s[run_len(s)].sid != s[0].sid,
    decreases s.len(),
{
    if s.len() == 1 {
    } else if s[1].sid == s[0].sid {
        lemma_run_len_bounds(s.drop_first());
        assert forall|i: int| 0 <= i < run_len(s) implies (#[trigger] s[i]).sid == s[0].sid by {
            if i > 0 {
                assert(s.drop_first()[i - 1] == s[i]);
            }
        }
        if run_len(s) < s.len() {
            assert(s.drop_first()[run_len(s) - 1] == s[run_len(s)]);
        }
    } else {
    }
}

/// A nonempty prefix of one id, closed by the end of the stream or by a
/// different id, is exactly the initial run.
pub proof fn lemma_run_len_of_prefix(s: Seq<Observation>, m: int)
    requires
        0 < m <= s.len(),
        forall|i: int| 0 <= i < m ==> (#[trigger] s[i]).sid == s[0].sid,
        m < s.len() ==> s[m].sid != s[0].sid,
    ensures
        run_len(s) == m,
    decreases m,
{
    if m == 1 {
        if s.len() > 1 {
            assert(s[1].sid != s[0].sid);
        }
    } else {
        assert(s[1].sid == s[0].sid);
        assert forall|i: int| 0 <= i < m - 1 implies (#[trigger] s.drop_first()[i]).sid
            == s.drop_first()[0].sid by {
            assert(s.drop_first()[i] == s[i + 1]);
        }
        if m - 1 < s.drop_first().len() {
            assert(s.drop_first()[m - 1] == s[m]);
        }
        lemma_run_len_of_prefix(s.drop_first(), m - 1);
    }
}

#[via_fn]
proof fn runs_decreases_proof(s: Seq<Observation>) {
    if s.len() > 0 {
        lemma_run_len_bounds(s);
    }
}

/// The stream split into its maximal runs of equal ids, in order.
pub open spec fn runs(s: Seq<Observation>) -> Seq<Seq<Observation>>
    decreases s.len(),
        via runs_decreases_proof
{
    if s.len() == 0 {
        Seq::<Seq<Observation>>::empty()
    } else {
        seq![s.take(run_len(s))] + runs(s.skip(run_len(s)))
    }
}

/// The samples of one run that belong to the band at position `b`, in the
/// run's own order.
pub open spec fn run_band_samples(run: Seq<Observation>, b: int) -> Seq<Sample> {
    run.filter(|o: Observation| o.band() == b).map_values(|o: Observation| o.sample())
}

/// The band-`b` curve a run turns into: its band subsequence, time-sorted
/// unless the input was claimed sorted.
pub open spec fn run_lc(run: Seq<Observation>, b: int, sorted: bool) -> Seq<Sample> {
    if sorted {
        run_band_samples(run, b)
    } else {
        sort_by_time(run_band_samples(run, b))
    }
}

/// The source model one run turns into.
pub open spec fn run_model(run: Seq<Observation>, sorted: bool) -> SourceModel {
    SourceModel { sid: run[0].sid, lcs: Seq::new(3, |b: int| run_lc(run, b, sorted)) }
}

/// The full grouping model: one source model per run, in stream order.
pub open spec fn group_model(s: Seq<Observation>, sorted: bool) -> Seq<SourceModel> {
    runs(s).map_values(|r: Seq<Observation>| run_model(r, sorted))
}

/// `src` is exactly the source that `run` turns into.
pub open spec fn source_matches_run(src: Source, run: Seq<Observation>, sorted: bool) -> bool {
    src.wf() && src@ == run_model(run, sorted)
}

/// `srcs` is exactly the grouping of `s`.
pub open spec fn sources_match(srcs: Seq<Source>, s: Seq<Observation>, sorted: bool) -> bool {
    &&& srcs.len() == runs(s).len()
    &&& forall|k: int|
        0 <= k < srcs.len() ==> #[trigger] srcs[k].wf() && srcs[k]@ == group_model(s, sorted)[k]
}

/// Appending one observation extends exactly its own band's subsequence.
pub proof fn lemma_band_samples_push(run: Seq<Observation>, o: Observation, b: int)
    ensures
        run_band_samples(run.push(o), b) == if o.band() == b {
            run_band_samples(run, b).push(o.sample())
        } else {
            run_band_samples(run, b)
        },
{
    reveal(Seq::filter);
    let pred = |x: Observation| x.band() == b;
    assert(run.push(o).drop_last() =~= run);
    assert(run.push(o).last() == o);
    if o.band() == b {
        assert(run.push(o).filter(pred) == run.filter(pred).push(o));
        assert(run.filter(pred).push(o).map_values(|x: Observation| x.sample()) =~= run.filter(
            pred,
        ).map_values(|x: Observation| x.sample()).push(o.sample()));
    }
}

/// The band subsequences of an empty run are empty.
pub proof fn lemma_band_samples_empty(b: int)
    ensures
        run_band_samples(Seq::<Observation>::empty(), b) == Seq::<Sample>::empty(),
{
    reveal(Seq::filter);
    assert(Seq::<Observation>::empty().filter(|o: Observation| o.band() == b) =~= Seq::<
        Observation,
    >::empty());
    assert(run_band_samples(Seq::<Observation>::empty(), b) =~= Seq::<Sample>::empty());
}

/// Stateful stream adapter: feed observations one by one; a completed
/// source comes out whenever the id changes, and `finish` closes the last
/// group. The adapter never reorders ids: same-id rows must be contiguous
/// in the input for one object to come out as one source.
pub struct SourceGrouper {
    sorted: bool,
    current: Option<Source>,
    run: Ghost<Seq<Observation>>,
}

impl SourceGrouper {
    /// The observations of the group now being assembled, in arrival order.
    pub closed spec fn pending_run(&self) -> Seq<Observation> {
        self.run@
    }

    /// Whether the caller claimed the input already time-sorted.
    pub closed spec fn sorted_flag(&self) -> bool {
        self.sorted
    }

    /// The source being assembled is exactly the image of the pending run.
    pub closed spec fn wf(&self) -> bool {
        match self.current {
            None => self.run@.len() == 0,
            Some(src) => {
                &&& src.wf()
                &&& self.run@.len() > 0
                &&& src.sid == self.run@[0].sid
                &&& forall|k: int| 0 <= k < self.run@.len() ==> (#[trigger] self.run@[k]).sid
                    == src.sid
                &&& forall|b: int| 0 <= b < 3 ==> src.lc_seq(b) == run_band_samples(self.run@, b)
            },
        }
    }

    /// A grouper with nothing pending.
    pub fn new(sorted: bool) -> (g: SourceGrouper)
        ensures
            g.wf(),
            g.pending_run().len() == 0,
            g.sorted_flag() == sorted,
    {
        SourceGrouper { sorted, current: None, run: Ghost(Seq::empty()) }
    }

    /// Feeds one observation. Nothing comes out while the id matches the
    /// pending group; on an id change the finished group comes out (its
    /// curves time-sorted unless the input was claimed sorted) and the fed
    /// observation seeds the next group.
    pub fn push(&mut self, obs: &Observation) -> (emitted: Option<Source>)
        requires
            old(self).wf(),
        ensures
            final(self).wf(),
            final(self).sorted_flag() == old(self).sorted_flag(),
            old(self).pending_run().len() == 0 ==> emitted is None && final(self).pending_run()
                =~= seq![*obs],
            old(self).pending_run().len() > 0 && obs.sid == old(self).pending_run()[0].sid
                ==> emitted is None && final(self).pending_run() =~= old(self).pending_run().push(
                *obs,
            ),
            old(self).pending_run().len() > 0 && obs.sid != old(self).pending_run()[0].sid ==> (
            match emitted {
                Some(src) => source_matches_run(
                    src,
                    old(self).pending_run(),
                    old(self).sorted_flag(),
                ),
                None => false,
            }) && final(self).pending_run() =~= seq![*obs],
    {
        let ghost old_run = self.run@;
        let cur = self.current.take();
        match cur {
            None => {
                let mut src = Source::new(obs.sid);
                src.push_observation(obs);
                self.current = Some(src);
                proof {
                    self.run@ = seq![*obs];
                    assert forall|b: int| 0 <= b < 3 implies src.lc_seq(b) == run_band_samples(
                        seq![*obs],
                        b,
                    ) by {
                        lemma_band_samples_empty(b);
                        assert(seq![*obs] =~= Seq::<Observation>::empty().push(*obs));
                        lemma_band_samples_push(Seq::<Observation>::empty(), *obs, b);
                    }
                }
                None
            },
            Some(mut src) => {
                if obs.sid == src.sid {
                    let ghost src_before = src;
                    src.push_observation(obs);
                    self.current = Some(src);
                    proof {
                        self.run@ = old_run.push(*obs);
                        assert forall|b: int| 0 <= b < 3 implies src.lc_seq(b) == run_band_samples(
                            old_run.push(*obs),
                            b,
                        ) by {
                            lemma_band_samples_push(old_run, *obs, b);
                            assert(src_before.lc_seq(b) == run_band_samples(old_run, b));
                        }
                    }
                    None
                } else {
                    let ghost src0 = src;
                    if !self.sorted {
                        src.sort();
                    }
                    let mut next = Source::new(obs.sid);
                    next.push_observation(obs);
                    self.current = Some(next);
                    proof {
                        self.run@ = seq![*obs];
                        assert forall|b: int| 0 <= b < 3 implies next.lc_seq(b)
                            == run_band_samples(seq![*obs], b) by {
                            lemma_band_samples_empty(b);
                            assert(seq![*obs] =~= Seq::<Observation>::empty().push(*obs));
                            lemma_band_samples_push(Seq::<Observation>::empty(), *obs, b);
                        }
                        assert(src0 == old(self).current->0);
                        assert forall|b: int| 0 <= b < 3 implies src@.lcs[b] == run_lc(
                            old_run,
                            b,
                            old(self).sorted_flag(),
                        ) by {
                            assert(src0.lc_seq(b) == run_band_samples(old_run, b));
                        }
                        assert(src@.lcs =~= run_model(old_run, old(self).sorted_flag()).lcs);
                        assert(src@ =~~= run_model(old_run, old(self).sorted_flag()));
                    }
                    Some(src)
                }
            },
        }
    }

    /// Closes and hands out the group being assembled, if any.
    pub fn finish(&mut self) -> (emitted: Option<Source>)
        requires
            old(self).wf(),
        ensures
            final(self).wf(),
            final(self).pending_run().len() == 0,
            final(self).sorted_flag() == old(self).sorted_flag(),
            old(self).pending_run().len() == 0 ==> emitted is None,
            old(self).pending_run().len() > 0 ==> match emitted {
                Some(src) => source_matches_run(
                    src,
                    old(self).pending_run(),
                    old(self).sorted_flag(),
                ),
                None => false,
            },
    {
        let ghost old_run = self.run@;
        let cur = self.current.take();
        proof {
            self.run@ = Seq::empty();
        }
        match cur {
            None => None,
            Some(mut src) => {
                let ghost src0 = src;
                if !self.sorted {
                    src.sort();
                }
                proof {
                    assert(src0 == old(self).current->0);
                    assert forall|b: int| 0 <= b < 3 implies src@.lcs[b] == run_lc(
                        old_run,
                        b,
                        old(self).sorted_flag(),
                    ) by {
                        assert(src0.lc_seq(b) == run_band_samples(old_run, b));
                    }
                    assert(src@.lcs =~= run_model(old_run, old(self).sorted_flag()).lcs);
                    assert(src@ =~~= run_model(old_run, old(self).sorted_flag()));
                }
                Some(src)
            },
        }
    }
}

/// Lazy, finite, non-restartable sequence of sources over a buffered
/// observation stream: each `next` consumes exactly one id run.
pub struct SourceIterator {
    observations: Vec<Observation>,
    index: usize,
    grouper: SourceGrouper,
}

impl SourceIterator {
    /// The observations not yet turned into an emitted source: the pending
    /// group plus the unread tail of the buffer.
    pub closed spec fn pending(&self) -> Seq<Observation> {
        self.grouper.pending_run() + self.observations@.skip(self.index as int)
    }

    /// Whether the caller claimed the input already time-sorted.
    pub closed spec fn sorted_flag(&self) -> bool {
        self.grouper.sorted_flag()
    }

    /// The cursor sits inside the buffer and the pending group is coherent.
    pub closed spec fn wf(&self) -> bool {
        self.grouper.wf() && self.index <= self.observations@.len()
    }

    /// An iterator over the whole of `observations`.
    pub fn new(observations: Vec<Observation>, sorted: bool) -> (it: SourceIterator)
        ensures
            it.wf(),
            it.pending() =~= observations@,
            it.sorted_flag() == sorted,
    {
        SourceIterator { observations, index: 0, grouper: SourceGrouper::new(sorted) }
    }

    /// Produces the source of the next id run, or `None` once the stream is
    /// exhausted.
    #[verifier::loop_isolation(false)]
    pub fn next(&mut self) -> (r: Option<Source>)
        requires
            old(self).wf(),
        ensures
            final(self).wf(),
            final(self).sorted_flag() == old(self).sorted_flag(),
            old(self).pending().len() == 0 ==> r is None && final(self).pending().len() == 0,
            old(self).pending().len() > 0 ==> (match r {
                Some(src) => source_matches_run(
                    src,
                    old(self).pending().take(run_len(old(self).pending())),
                    old(self).sorted_flag(),
                ),
                None => false,
            }) && final(self).pending() =~= old(self).pending().skip(run_len(old(self).pending())),
    {
        let ghost p0 = old(self).pending();
        while self.index < self.observations.len()
            invariant
                self.wf(),
                self.grouper.sorted_flag() == old(self).sorted_flag(),
                self.observations == old(self).observations,
                p0 =~= self.grouper.pending_run() + self.observations@.skip(self.index as int),
                self.grouper.pending_run().len() == p0.len() - (self.observations@.len()
                    - self.index),
                p0.len() > 0 ==> self.grouper.pending_run().len() > 0 || self.index
                    < self.observations@.len(),
            decreases self.observations@.len() - self.index,
        {
            let obs = self.observations[self.index];
            self.index += 1;
            let ghost run_before = self.grouper.pending_run();
            let ghost m = run_before.len() as int;
            let emitted = self.grouper.push(&obs);
            proof {
                assert(p0.skip(m) =~= seq![obs] + self.observations@.skip(self.index as int));
                if run_before.len() > 0 {
                    assert(run_before =~= p0.take(m));
                    assert(p0[0].sid == run_before[0].sid);
                }
            }
            if let Some(src) = emitted {
                proof {
                    // the id changed: the consumed prefix was exactly the
                    // first run of the pending stream
                    assert(run_before.len() > 0);
                    assert(obs.sid != run_before[0].sid);
                    assert(p0[m] == obs);
                    assert forall|i: int| 0 <= i < m implies (#[trigger] p0[i]).sid == p0[0].sid by {
                        assert(p0[i] == run_before[i]);
                    }
                    lemma_run_len_of_prefix(p0, m);
                    assert(p0.take(m) =~= run_before);
                }
                return Some(src);
            }
        }
        // buffer exhausted: close the pending group
        let ghost run_before = self.grouper.pending_run();
        let emitted = self.grouper.finish();
        proof {
            assert(self.observations@.skip(self.index as int) =~= Seq::<Observation>::empty());
            assert(p0 =~= run_before);
            if p0.len() > 0 {
                lemma_run_len_of_prefix(p0, p0.len() as int);
                assert(p0.take(p0.len() as int) =~= p0);
                assert(p0.skip(p0.len() as int) =~= Seq::<Observation>::empty());
            }
        }
        emitted
    }
}

/// Groups a whole observation buffer: the sources of every id run, in
/// stream order.
#[verifier::loop_isolation(false)]
pub fn group_observations(observations: Vec<Observation>, sorted: bool) -> (r: Vec<Source>)
    ensures
        sources_match(r@, observations@, sorted),
{
    let ghost s0 = observations@;
    let mut it = SourceIterator::new(observations, sorted);
    let mut result: Vec<Source> = Vec::new();
    loop
        invariant
            it.wf(),
            it.sorted_flag() == sorted,
            runs(s0).skip(result@.len() as int) =~= runs(it.pending()),
            result@.len() <= runs(s0).len(),
            forall|k: int|
                0 <= k < result@.len() ==> (#[trigger] result@[k]).wf() && result@[k]@ == run_model(
                    runs(s0)[k],
                    sorted,
                ),
        decreases it.pending().len(),
    {
        let ghost pending = it.pending();
        let ghost n = result@.len() as int;
        let r = it.next();
        match r {
            Some(src) => {
                proof {
                    lemma_run_len_bounds(pending);
                    assert(runs(pending) =~= seq![pending.take(run_len(pending))] + runs(
                        pending.skip(run_len(pending)),
                    ));
                    assert(runs(s0).skip(n)[0] == runs(s0)[n]);
                    assert(runs(s0)[n] == pending.take(run_len(pending)));
                    assert(runs(s0).skip(n + 1) =~= runs(s0).skip(n).drop_first());
                    assert(runs(s0).skip(n).drop_first() =~= runs(pending.skip(run_len(pending))));
                }
                result.push(src);
            },
            None => {
                proof {
                    assert(it.pending().len() == 0);
                    assert(runs(it.pending()) =~= Seq::<Seq<Observation>>::empty());
                    assert(runs(s0).skip(n).len() == 0);
                    assert(result@.len() == runs(s0).len());
                    assert forall|k: int| 0 <= k < result@.len() implies (
                    #[trigger] result@[k]).wf() && result@[k]@ == group_model(s0, sorted)[k] by {
                        assert(group_model(s0, sorted)[k] == run_model(runs(s0)[k], sorted));
                    }
                }
                return result;
            },
        }
    }
}


/// Same-id observations sit in one contiguous block of the stream: between
/// two equal ids no other id occurs.
#[verifier::opaque]
pub open spec fn ids_contiguous(s: Seq<Observation>) -> bool {
    forall|i: int, j: int, k: int|
        #![trigger s[i], s[j], s[k]]
        0 <= i < j < k < s.len() && s[i].sid == s[k].sid ==> s[j].sid == s[i].sid
}

/// One run: nonempty and all of one id.
pub open spec fn run_uniform(run: Seq<Observation>) -> bool {
    run.len() > 0 && forall|i: int| 0 <= i < run.len() ==> (#[trigger] run[i]).sid == run[0].sid
}

/// Every run is uniform and neighbouring runs carry different ids.
pub open spec fn runs_wf(rs: Seq<Seq<Observation>>) -> bool {
    &&& forall|k: int| 0 <= k < rs.len() ==> run_uniform(#[trigger] rs[k])
    &&& forall|k1: int, k2: int|
        #![trigger rs[k1], rs[k2]]
        0 <= k1 < rs.len() && k2 == k1 + 1 && k2 < rs.len() ==> rs[k1][0].sid != rs[k2][0].sid
}

/// The observations of `s` whose object is `sid`, in stream order.
pub open spec fn matching(s: Seq<Observation>, sid: u64) -> Seq<Observation> {
    s.filter(|o: Observation| o.sid == sid)
}

/// The run split is structurally sound whatever the stream holds.
#[verifier::rlimit(60)]
pub proof fn lemma_runs_wf(s: Seq<Observation>)
    ensures
        runs_wf(runs(s)),
    decreases s.len(),
{
    if s.len() == 0 {
    } else {
        lemma_run_len_bounds(s);
        let m = run_len(s);
        lemma_runs_wf(s.skip(m));
        let rs = runs(s);
        assert(run_uniform(s.take(m))) by {
            assert forall|i: int| 0 <= i < s.take(m).len() implies (#[trigger] s.take(m)[i]).sid
                == s.take(m)[0].sid by {
                assert(s.take(m)[i] == s[i]);
            }
        }
        assert forall|k: int| 0 <= k < rs.len() implies run_uniform(#[trigger] rs[k]) by {
            if k > 0 {
                assert(rs[k] == runs(s.skip(m))[k - 1]);
            }
        }
        assert forall|k1: int, k2: int|
            #![trigger rs[k1], rs[k2]]
            0 <= k1 < rs.len() && k2 == k1 + 1 && k2 < rs.len() implies rs[k1][0].sid
            != rs[k2][0].sid by {
            if k1 == 0 {
                if s.skip(m).len() == 0 {
                    assert(runs(s.skip(m)) =~= Seq::<Seq<Observation>>::empty());
                }
                lemma_run_len_bounds(s.skip(m));
                assert(rs[1] == runs(s.skip(m))[0]);
                assert(runs(s.skip(m))[0] == s.skip(m).take(run_len(s.skip(m))));
                assert(rs[1][0] == s.skip(m)[0]);
                assert(s.skip(m)[0] == s[m]);
                assert(rs[0][0] == s[0]);
            } else {
                assert(rs[k1] == runs(s.skip(m))[k1 - 1]);
                assert(rs[k2] == runs(s.skip(m))[k2 - 1]);
            }
        }
    }
}

/// Concatenating the runs gives back the stream: no observation is lost,
/// added or moved across runs.
pub proof fn lemma_runs_flatten(s: Seq<Observation>)
    ensures
        runs(s).flatten() == s,
    decreases s.len(),
{
    if s.len() == 0 {
        assert(runs(s).flatten() =~= s);
    } else {
        lemma_run_len_bounds(s);
        let m = run_len(s);
        lemma_runs_flatten(s.skip(m));
        let rs = runs(s);
        assert(rs.first() == s.take(m));
        assert(rs.drop_first() =~= runs(s.skip(m)));
        assert(rs.flatten() == s.take(m) + runs(s.skip(m)).flatten());
        assert(s.take(m) + s.skip(m) =~= s);
    }
}

/// Every observation of every run comes from the stream.
proof fn lemma_runs_elem_contains(s: Seq<Observation>)
    ensures
        forall|k: int, i: int|
            0 <= k < runs(s).len() && 0 <= i < runs(s)[k].len() ==> s.contains(
                #[trigger] runs(s)[k][i],
            ),
    decreases s.len(),
{
    if s.len() == 0 {
    } else {
        lemma_run_len_bounds(s);
        let m = run_len(s);
        lemma_runs_elem_contains(s.skip(m));
        let rs = runs(s);
        assert forall|k: int, i: int|
            0 <= k < rs.len() && 0 <= i < rs[k].len() implies s.contains(
            #[trigger] rs[k][i],
        ) by {
            if k == 0 {
                assert(rs[0][i] == s[i]);
            } else {
                assert(rs[k] == runs(s.skip(m))[k - 1]);
                assert(s.skip(m).contains(rs[k][i]));
                let j = choose|j: int| 0 <= j < s.skip(m).len() && s.skip(m)[j] == rs[k][i];
                assert(s[m + j] == rs[k][i]);
            }
        }
    }
}

/// Filtering keeps a stream whose every id is `sid` whole.
proof fn lemma_matching_all(s: Seq<Observation>, sid: u64)
    requires
        forall|i: int| 0 <= i < s.len() ==> (#[trigger] s[i]).sid == sid,
    ensures
        matching(s, sid) == s,
    decreases s.len(),
{
    reveal(Seq::filter);
    if s.len() == 0 {
        assert(matching(s, sid) =~= s);
    } else {
        lemma_matching_all(s.drop_last(), sid);
        assert(matching(s, sid) =~= s.drop_last().push(s.last()));
        assert(s.drop_last().push(s.last()) =~= s);
    }
}

/// Filtering drops a stream none of whose ids is `sid` whole.
proof fn lemma_matching_none(s: Seq<Observation>, sid: u64)
    requires
        forall|i: int| 0 <= i < s.len() ==> (#[trigger] s[i]).sid != sid,
    ensures
        matching(s, sid) == Seq::<Observation>::empty(),
    decreases s.len(),
{
    reveal(Seq::filter);
    if s.len() == 0 {
        assert(matching(s, sid) =~= Seq::<Observation>::empty());
    } else {
        lemma_matching_none(s.drop_last(), sid);
    }
}

/// Past the initial run of a contiguous stream its id never comes back.
proof fn lemma_head_absent_in_tail(s: Seq<Observation>)
    requires
        ids_contiguous(s),
        s.len() > 0,
    ensures
        forall|j: int| run_len(s) <= j < s.len() ==> (#[trigger] s[j]).sid != s[0].sid,
{
    reveal(ids_contiguous);
    lemma_run_len_bounds(s);
    let m = run_len(s);
    assert forall|j: int| m <= j < s.len() implies (#[trigger] s[j]).sid != s[0].sid by {
        if j == m {
        } else {
            if s[j].sid == s[0].sid {
                assert(s[m].sid == s[0].sid);
            }
        }
    }
}

/// Contiguity survives dropping a prefix.
proof fn lemma_contiguous_skip(s: Seq<Observation>, m: int)
    requires
        ids_contiguous(s),
        0 <= m <= s.len(),
    ensures
        ids_contiguous(s.skip(m)),
{
    reveal(ids_contiguous);
    let t = s.skip(m);
    assert forall|i: int, j: int, k: int|
        #![trigger t[i], t[j], t[k]]
        0 <= i < j < k < t.len() && t[i].sid == t[k].sid implies t[j].sid == t[i].sid by {
        assert(t[i] == s[m + i] && t[j] == s[m + j] && t[k] == s[m + k]);
    }
}

/// With contiguous ids the runs carry pairwise distinct ids.
#[verifier::rlimit(100)]
pub proof fn lemma_runs_distinct(s: Seq<Observation>)
    requires
        ids_contiguous(s),
    ensures
        forall|k1: int, k2: int|
            0 <= k1 < k2 < runs(s).len() ==> (#[trigger] runs(s)[k1])[0].sid != (
            #[trigger] runs(s)[k2])[0].sid,
    decreases s.len(),
{
    if s.len() == 0 {
    } else {
        lemma_run_len_bounds(s);
        let m = run_len(s);
        lemma_contiguous_skip(s, m);
        lemma_head_absent_in_tail(s);
        lemma_runs_distinct(s.skip(m));
        lemma_runs_elem_contains(s.skip(m));
        lemma_runs_wf(s.skip(m));
        let rs = runs(s);
        let tail = s.skip(m);
        assert(rs[0] == s.take(m));
        assert(rs[0][0] == s[0]);
        assert forall|k: int| 1 <= k < rs.len() implies (#[trigger] rs[k])[0].sid != s[0].sid by {
            assert(rs[k] == runs(tail)[k - 1]);
            assert(run_uniform(runs(tail)[k - 1]));
            assert(tail.contains(rs[k][0]));
            let j = choose|j: int| 0 <= j < tail.len() && tail[j] == rs[k][0];
            assert(s[m + j] == rs[k][0]);
        }
        assert forall|k1: int, k2: int|
            0 <= k1 < k2 < rs.len() implies (#[trigger] rs[k1])[0].sid != (
        #[trigger] rs[k2])[0].sid by {
            if k1 > 0 {
                assert(rs[k1] == runs(tail)[k1 - 1]);
                assert(rs[k2] == runs(tail)[k2 - 1]);
            }
        }
    }
}

/// With contiguous ids each run holds precisely the observations of its
/// own id, in stream order.
#[verifier::rlimit(100)]
pub proof fn lemma_runs_matching(s: Seq<Observation>)
    requires
        ids_contiguous(s),
    ensures
        forall|k: int|
            0 <= k < runs(s).len() ==> #[trigger] runs(s)[k] == matching(s, runs(s)[k][0].sid),
    decreases s.len(),
{
    if s.len() == 0 {
    } else {
        lemma_run_len_bounds(s);
        let m = run_len(s);
        lemma_contiguous_skip(s, m);
        lemma_head_absent_in_tail(s);
        lemma_runs_matching(s.skip(m));
        lemma_runs_elem_contains(s.skip(m));
        lemma_runs_wf(s.skip(m));
        let rs = runs(s);
        let tail = s.skip(m);
        assert(rs[0] == s.take(m));
        assert(rs[0][0] == s[0]);
        assert forall|k: int| 0 <= k < rs.len() implies #[trigger] rs[k] == matching(
            s,
            rs[k][0].sid,
        ) by {
            let sid = rs[k][0].sid;
            assert(s.take(m) + tail =~= s);
            Seq::filter_distributes_over_add(s.take(m), tail, |o: Observation| o.sid == sid);
            assert(matching(s, sid) == matching(s.take(m), sid) + matching(tail, sid));
            if k == 0 {
                assert forall|i: int| 0 <= i < s.take(m).len() implies (
                #[trigger] s.take(m)[i]).sid == sid by {
                    assert(s.take(m)[i] == s[i]);
                }
                lemma_matching_all(s.take(m), sid);
                assert forall|i: int| 0 <= i < tail.len() implies (#[trigger] tail[i]).sid
                    != sid by {
                    assert(tail[i] == s[m + i]);
                }
                lemma_matching_none(tail, sid);
                assert(matching(s, sid) =~= s.take(m));
            } else {
                assert(rs[k] == runs(tail)[k - 1]);
                assert(run_uniform(runs(tail)[k - 1]));
                assert(tail.contains(rs[k][0]));
                let j = choose|j: int| 0 <= j < tail.len() && tail[j] == rs[k][0];
                assert(s[m + j] == rs[k][0]);
                assert(sid != s[0].sid);
                assert forall|i: int| 0 <= i < s.take(m).len() implies (
                #[trigger] s.take(m)[i]).sid != sid by {
                    assert(s.take(m)[i] == s[i]);
                }
                lemma_matching_none(s.take(m), sid);
                assert(matching(s, sid) =~= matching(tail, sid));
            }
        }
    }
}

/// With contiguous ids, grouping partitions the stream: the runs
/// concatenate back to the stream, carry pairwise distinct ids, and each
/// run holds precisely the observations of its own id.
#[verifier::rlimit(100)]
pub proof fn lemma_grouping_partition(s: Seq<Observation>)
    requires
        ids_contiguous(s),
    ensures
        runs(s).flatten() == s,
        runs_wf(runs(s)),
        forall|k1: int, k2: int|
            0 <= k1 < k2 < runs(s).len() ==> (#[trigger] runs(s)[k1])[0].sid != (
            #[trigger] runs(s)[k2])[0].sid,
        forall|k: int|
            0 <= k < runs(s).len() ==> #[trigger] runs(s)[k] == matching(s, runs(s)[k][0].sid),
{
    lemma_runs_flatten(s);
    lemma_runs_wf(s);
    lemma_runs_distinct(s);
    lemma_runs_matching(s);
}

/// Total number of samples of one source model, over its three bands.
pub open spec fn model_total_len(m: SourceModel) -> int {
    m.lcs[0].len() + m.lcs[1].len() + m.lcs[2].len() as int
}

/// A run's samples are partitioned among the three bands.
pub proof fn lemma_run_band_partition(run: Seq<Observation>)
    ensures
        run_band_samples(run, 0).len() + run_band_samples(run, 1).len() + run_band_samples(
            run,
            2,
        ).len() == run.len(),
    decreases run.len(),
{
    if run.len() == 0 {
        lemma_band_samples_empty(0);
        lemma_band_samples_empty(1);
        lemma_band_samples_empty(2);
    } else {
        lemma_run_band_partition(run.drop_last());
        assert(run =~= run.drop_last().push(run.last()));
        lemma_band_samples_push(run.drop_last(), run.last(), 0);
        lemma_band_samples_push(run.drop_last(), run.last(), 1);
        lemma_band_samples_push(run.drop_last(), run.last(), 2);
        assert(0 <= run.last().band() < 3);
    }
}

/// Grouping conserves the observation count: one model per run, and each
/// model holds exactly as many samples as its run has observations.
pub proof fn lemma_grouping_counts(s: Seq<Observation>, sorted: bool)
    ensures
        group_model(s, sorted).len() == runs(s).len(),
        forall|k: int|
            0 <= k < runs(s).len() ==> model_total_len(#[trigger] group_model(s, sorted)[k])
                == runs(s)[k].len(),
{
    assert forall|k: int| 0 <= k < runs(s).len() implies model_total_len(
        #[trigger] group_model(s, sorted)[k],
    ) == runs(s)[k].len() by {
        let run = runs(s)[k];
        lemma_run_band_partition(run);
        if !sorted {
            lemma_sort_by_time_multiset(run_band_samples(run, 0));
            lemma_sort_by_time_multiset(run_band_samples(run, 1));
            lemma_sort_by_time_multiset(run_band_samples(run, 2));
        }
    }
}

/// Without the caller's sorted claim, every produced band curve is
/// time-sorted, ascending.
pub proof fn lemma_grouping_sorts(s: Seq<Observation>)
    ensures
        forall|k: int, b: int|
            0 <= k < group_model(s, false).len() && 0 <= b < 3 ==> time_sorted(
                #[trigger] group_model(s, false)[k].lcs[b],
            ),
{
    assert forall|k: int, b: int|
        0 <= k < group_model(s, false).len() && 0 <= b < 3 implies time_sorted(
        #[trigger] group_model(s, false)[k].lcs[b],
    ) by {
        lemma_sort_by_time_sorted(run_band_samples(runs(s)[k], b));
    }
}

/// With the caller's sorted claim, grouping never reorders samples: each
/// band curve is exactly its run's band subsequence, in input order, even
/// where the time keys are non-monotonic.
pub proof fn lemma_grouping_preserves_order(s: Seq<Observation>)
    ensures
        forall|k: int, b: int|
            0 <= k < group_model(s, true).len() && 0 <= b < 3 ==> #[trigger] group_model(
                s,
                true,
            )[k].lcs[b] == run_band_samples(runs(s)[k], b),
{
}

} // verus!
