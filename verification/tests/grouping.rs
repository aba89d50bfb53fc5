use lcdump::group::{group_observations, SourceGrouper, SourceIterator};
use lcdump::lc::{Observation, Passband, Source};

fn obs(sid: u64, t: u32, mag: u32, w: u32, passband: Passband) -> Observation {
    Observation { sid, t, mag, w, passband }
}

#[test]
fn passband_from_lcs_indix_valid() {
    for i in 0..Passband::n_filters() {
        let _passband = Passband::from_lcs_index(i);
    }
}

#[test]
fn grouping_concrete_scenario() {
    // ids [10, 10, 20, 30] with times [5, 1, 3, 2], unsorted flag set
    let observations = vec![
        obs(10, 5, 100, 1, Passband::G),
        obs(10, 1, 101, 1, Passband::G),
        obs(20, 3, 102, 1, Passband::G),
        obs(30, 2, 103, 1, Passband::G),
    ];
    let sources = group_observations(observations, false);
    assert_eq!(sources.len(), 3);
    assert_eq!(sources[0].sid, 10);
    assert_eq!(sources[0].lc_g.t, vec![1, 5]);
    assert_eq!(sources[1].sid, 20);
    assert_eq!(sources[1].lc_g.t, vec![3]);
    assert_eq!(sources[2].sid, 30);
    assert_eq!(sources[2].lc_g.t, vec![2]);
    let total: usize = sources.iter().map(|s| s.len()).sum();
    assert_eq!(total, 4);
}

#[test]
fn grouping_partitions_contiguous_ids() {
    // three distinct ids, each one contiguous run, mixed bands
    let observations = vec![
        obs(1, 4, 10, 5, Passband::G),
        obs(1, 2, 11, 6, Passband::R),
        obs(1, 3, 12, 7, Passband::G),
        obs(2, 9, 13, 8, Passband::I),
        obs(3, 1, 14, 9, Passband::R),
        obs(3, 7, 15, 10, Passband::R),
    ];
    let sources = group_observations(observations, false);
    assert_eq!(sources.len(), 3);
    assert_eq!(sources[0].sid, 1);
    assert_eq!(sources[0].len(), 3);
    assert_eq!(sources[1].sid, 2);
    assert_eq!(sources[1].len(), 1);
    assert_eq!(sources[2].sid, 3);
    assert_eq!(sources[2].len(), 2);
    let total: usize = sources.iter().map(|s| s.len()).sum();
    assert_eq!(total, 6);
    // each source holds precisely its own observations
    assert_eq!(sources[0].lc_g.mag, vec![12, 10]); // times 3 < 4
    assert_eq!(sources[0].lc_r.mag, vec![11]);
    assert_eq!(sources[1].lc_i.t, vec![9]);
    assert_eq!(sources[2].lc_r.t, vec![1, 7]);
}

#[test]
fn grouping_sorts_each_band_when_unsorted() {
    let observations = vec![
        obs(5, 30, 1, 100, Passband::G),
        obs(5, 10, 2, 200, Passband::G),
        obs(5, 20, 3, 300, Passband::R),
        obs(5, 5, 4, 400, Passband::R),
        obs(5, 25, 5, 500, Passband::G),
    ];
    let sources = group_observations(observations, false);
    assert_eq!(sources.len(), 1);
    let s = &sources[0];
    assert_eq!(s.lc_g.t, vec![10, 25, 30]);
    // magnitude and weight words travel with their time
    assert_eq!(s.lc_g.mag, vec![2, 5, 1]);
    assert_eq!(s.lc_g.w, vec![200, 500, 100]);
    assert_eq!(s.lc_r.t, vec![5, 20]);
    assert_eq!(s.lc_r.mag, vec![4, 3]);
    for lc in [&s.lc_g, &s.lc_r, &s.lc_i] {
        for pair in lc.t.windows(2) {
            assert!(pair[0] <= pair[1]);
        }
    }
}

#[test]
fn grouping_sort_is_stable_on_equal_times() {
    let observations = vec![
        obs(7, 3, 1, 0, Passband::G),
        obs(7, 1, 2, 0, Passband::G),
        obs(7, 1, 3, 0, Passband::G),
        obs(7, 1, 4, 0, Passband::G),
    ];
    let sources = group_observations(observations, false);
    assert_eq!(sources[0].lc_g.t, vec![1, 1, 1, 3]);
    // the three equal time keys keep their arrival order
    assert_eq!(sources[0].lc_g.mag, vec![2, 3, 4, 1]);
}

#[test]
fn grouping_never_reorders_when_sorted_claimed() {
    // non-monotonic times, but the caller's sorted claim is trusted
    let observations = vec![
        obs(9, 50, 1, 0, Passband::R),
        obs(9, 10, 2, 0, Passband::R),
        obs(9, 40, 3, 0, Passband::R),
        obs(9, 20, 4, 0, Passband::G),
    ];
    let sources = group_observations(observations, true);
    assert_eq!(sources.len(), 1);
    assert_eq!(sources[0].lc_r.t, vec![50, 10, 40]);
    assert_eq!(sources[0].lc_r.mag, vec![1, 2, 3]);
    assert_eq!(sources[0].lc_g.t, vec![20]);
}

#[test]
fn grouper_emits_on_id_change_only() {
    let mut grouper = SourceGrouper::new(true);
    assert!(grouper.push(&obs(1, 1, 0, 0, Passband::G)).is_none());
    assert!(grouper.push(&obs(1, 2, 0, 0, Passband::G)).is_none());
    let first = grouper.push(&obs(2, 3, 0, 0, Passband::G));
    let first = first.expect("an id change closes the group");
    assert_eq!(first.sid, 1);
    assert_eq!(first.len(), 2);
    let last = grouper.finish().expect("finish closes the last group");
    assert_eq!(last.sid, 2);
    assert_eq!(last.len(), 1);
    assert!(grouper.finish().is_none());
}

#[test]
fn source_iterator_walks_runs() {
    let observations = vec![
        obs(4, 1, 0, 0, Passband::G),
        obs(4, 2, 0, 0, Passband::I),
        obs(6, 3, 0, 0, Passband::R),
    ];
    let mut it = SourceIterator::new(observations, true);
    let a = it.next().expect("first run");
    assert_eq!(a.sid, 4);
    assert_eq!(a.len(), 2);
    let b = it.next().expect("second run");
    assert_eq!(b.sid, 6);
    assert!(it.next().is_none());
    assert!(it.next().is_none());
}

#[test]
fn empty_stream_groups_to_nothing() {
    let sources = group_observations(Vec::new(), false);
    assert!(sources.is_empty());
}

#[test]
fn source_accessors_cover_all_bands() {
    let mut source = Source::new(11);
    source.push_observation(&obs(11, 1, 2, 3, Passband::G));
    source.push_observation(&obs(11, 4, 5, 6, Passband::R));
    source.push_observation(&obs(11, 7, 8, 9, Passband::I));
    assert_eq!(source.len(), 3);
    assert_eq!(source.lc(Passband::G).t, vec![1]);
    assert_eq!(source.lc(Passband::R).mag, vec![5]);
    assert_eq!(source.lc(Passband::I).w, vec![9]);
    let all = source.iter_observations();
    assert_eq!(all.len(), 3);
    assert_eq!(all[0].passband.code(), 1);
    assert_eq!(all[1].passband.code(), 2);
    assert_eq!(all[2].passband.code(), 3);
    assert!(all.iter().all(|o| o.sid == 11));
}

#[test]
fn passband_codes_round_trip() {
    for code in 1u8..=3 {
        let p = Passband::from_code(code);
        assert_eq!(p.code(), code);
        let q = Passband::try_from_code(code).unwrap();
        assert_eq!(q.code(), code);
    }
    assert!(Passband::try_from_code(0).is_none());
    assert!(Passband::try_from_code(4).is_none());
    assert_eq!(Passband::n_filters(), 3);
    for i in 0..3usize {
        assert_eq!(Passband::from_lcs_index(i).lcs_index(), i);
    }
    assert_eq!(Passband::G.label(), 'g');
    assert_eq!(Passband::R.label(), 'r');
    assert_eq!(Passband::I.label(), 'i');
    assert!(Passband::from_label('z').is_none());
}
