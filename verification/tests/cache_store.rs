use lcdump::cache::{
    cache_mode, check_query, decode_observation, encode_observation, read_all, read_sources,
    CacheMode, CacheReader, CacheStore, CACHE_CHUNK, RECORD_BYTES,
};
use lcdump::group::group_observations;
use lcdump::lc::{Observation, Passband};
use lcdump::DumpError;

fn obs(sid: u64, t: u32, mag: u32, w: u32, passband: Passband) -> Observation {
    Observation { sid, t, mag, w, passband }
}

#[test]
fn observation_codec_round_trip() {
    let o = obs(0x1122334455667788, 0xa1b2c3d4, 0x01020304, 0xfeedbeef, Passband::R);
    let bytes = encode_observation(&o);
    assert_eq!(bytes.len(), RECORD_BYTES);
    assert_eq!(&bytes[0..8], &[0x88, 0x77, 0x66, 0x55, 0x44, 0x33, 0x22, 0x11]);
    assert_eq!(&bytes[8..12], &[0xd4, 0xc3, 0xb2, 0xa1]);
    assert_eq!(bytes[20], 2);
    let back = decode_observation(&bytes, 0).expect("valid record decodes");
    assert_eq!(back, o);
}

#[test]
fn observation_decode_rejects_bad_band() {
    let o = obs(1, 2, 3, 4, Passband::G);
    let mut bytes = encode_observation(&o);
    bytes[20] = 9;
    assert_eq!(decode_observation(&bytes, 0), Err(DumpError::MalformedCache));
}

#[test]
fn cache_round_trip_reproduces_sources() {
    // a stream over three ids and two bands, times unsorted
    let observations = vec![
        obs(100, 9, 1, 10, Passband::G),
        obs(100, 3, 2, 11, Passband::R),
        obs(100, 6, 3, 12, Passband::G),
        obs(200, 5, 4, 13, Passband::I),
        obs(300, 2, 5, 14, Passband::R),
        obs(300, 8, 6, 15, Passband::R),
        obs(300, 1, 7, 16, Passband::G),
    ];
    let direct = group_observations(observations, false);

    let mut store = CacheStore::new_for_write();
    for source in &direct {
        store.write_source(source);
    }
    store.finish();
    assert_eq!(store.len(), 7);

    let read_back = read_all(store);
    assert_eq!(read_back.len(), 7);
    let regrouped = group_observations(read_back, false);
    assert_eq!(regrouped.len(), direct.len());
    for (a, b) in direct.iter().zip(regrouped.iter()) {
        assert_eq!(a.sid, b.sid);
        for band in [Passband::G, Passband::R, Passband::I] {
            assert_eq!(a.lc(band).t, b.lc(band).t);
            assert_eq!(a.lc(band).mag, b.lc(band).mag);
            assert_eq!(a.lc(band).w, b.lc(band).w);
        }
    }
}

#[test]
fn cache_grows_in_whole_chunks_and_truncates() {
    let n = CACHE_CHUNK + 1;
    let mut source = lcdump::lc::Source::new(42);
    for k in 0..n {
        source.push_observation(&obs(42, k as u32, 0, 0, Passband::G));
    }
    let mut store = CacheStore::new_for_write();
    assert_eq!(store.capacity(), CACHE_CHUNK);
    assert_eq!(store.len(), 0);
    store.write_source(&source);
    assert_eq!(store.len(), n);
    // one expansion, an exact chunk beyond the initial allocation
    assert_eq!(store.capacity(), 2 * CACHE_CHUNK);
    store.finish();
    assert_eq!(store.capacity(), n);
    assert_eq!(store.len(), n);
    // read-back sees exactly the written records, nothing trailing
    let read_back = read_all(store);
    assert_eq!(read_back.len(), n);
    assert_eq!(read_back[0].t, 0);
    assert_eq!(read_back[n - 1].t, (n - 1) as u32);
}

#[test]
fn cache_write_at_exact_capacity_boundary_fits() {
    let mut source = lcdump::lc::Source::new(1);
    for k in 0..CACHE_CHUNK {
        source.push_observation(&obs(1, k as u32, 0, 0, Passband::I));
    }
    let mut store = CacheStore::new_for_write();
    // a write landing exactly on the allocation fits: no growth yet
    store.write_source(&source);
    assert_eq!(store.len(), CACHE_CHUNK);
    assert_eq!(store.capacity(), CACHE_CHUNK);
    // the next write exceeds it: one whole chunk more, landing exactly on
    // the boundary that holds the new length
    store.write_source(&source);
    assert_eq!(store.len(), 2 * CACHE_CHUNK);
    assert_eq!(store.capacity(), 2 * CACHE_CHUNK);
    store.finish();
    assert_eq!(store.capacity(), 2 * CACHE_CHUNK);
}

#[test]
fn cache_bytes_round_trip() {
    let observations = vec![
        obs(1, 10, 20, 30, Passband::G),
        obs(1, 11, 21, 31, Passband::R),
        obs(2, 12, 22, 32, Passband::I),
    ];
    let sources = group_observations(observations, true);
    let mut store = CacheStore::new_for_write();
    for source in &sources {
        store.write_source(source);
    }
    store.finish();
    let bytes = store.to_bytes();
    assert_eq!(bytes.len(), 3 * RECORD_BYTES);
    let reopened = CacheStore::from_bytes(&bytes).expect("whole valid records reopen");
    assert_eq!(reopened.len(), 3);
    let records = read_all(reopened);
    assert_eq!(records[0], obs(1, 10, 20, 30, Passband::G));
    assert_eq!(records[2], obs(2, 12, 22, 32, Passband::I));
}

#[test]
fn cache_from_bytes_rejects_ragged_length() {
    let bytes = vec![0u8; RECORD_BYTES + 1];
    assert!(matches!(CacheStore::from_bytes(&bytes), Err(DumpError::MalformedCache)));
}

#[test]
fn cache_from_bytes_rejects_bad_band_code() {
    // a single record whose band byte is zero
    let bytes = vec![0u8; RECORD_BYTES];
    assert!(matches!(CacheStore::from_bytes(&bytes), Err(DumpError::MalformedCache)));
}

#[test]
fn cache_reader_buffers_small_store() {
    let mut store = CacheStore::new_for_write();
    let observations = vec![
        obs(3, 1, 0, 0, Passband::G),
        obs(3, 2, 0, 0, Passband::G),
        obs(4, 3, 0, 0, Passband::R),
    ];
    for source in &group_observations(observations, true) {
        store.write_source(source);
    }
    store.finish();
    let mut rd = CacheReader::new(store);
    assert_eq!(rd.next().unwrap().t, 1);
    assert_eq!(rd.next().unwrap().t, 2);
    assert_eq!(rd.next().unwrap().t, 3);
    assert!(rd.next().is_none());
    assert!(rd.next().is_none());
}

#[test]
fn read_sources_regroups_cached_records() {
    let observations = vec![
        obs(8, 2, 5, 6, Passband::G),
        obs(8, 1, 7, 8, Passband::G),
        obs(9, 4, 9, 10, Passband::I),
    ];
    let direct = group_observations(observations, false);
    let mut store = CacheStore::new_for_write();
    for source in &direct {
        store.write_source(source);
    }
    store.finish();
    let sources = read_sources(store);
    assert_eq!(sources.len(), 2);
    assert_eq!(sources[0].sid, 8);
    assert_eq!(sources[0].lc_g.t, vec![1, 2]);
    assert_eq!(sources[0].lc_g.mag, vec![7, 5]);
    assert_eq!(sources[1].sid, 9);
    assert_eq!(sources[1].lc_i.t, vec![4]);
}

#[test]
fn query_guard_accepts_identical_text_only() {
    let stored = b"select * from dr".to_vec();
    let same = b"select * from dr".to_vec();
    let other = b"select * from dr2".to_vec();
    assert!(check_query(&stored, &same).is_ok());
    assert_eq!(check_query(&stored, &other), Err(DumpError::QuerySignatureMismatch));
    // the guard decides before any source is produced or file written:
    // a mismatch yields the error from the comparison alone
    let empty = Vec::new();
    assert_eq!(check_query(&stored, &empty), Err(DumpError::QuerySignatureMismatch));
}

#[test]
fn cache_mode_is_exclusive_per_run() {
    let requested = b"select * from dr".to_vec();
    // no stored query: the run populates a fresh cache
    assert!(matches!(cache_mode(None, &requested), Ok(CacheMode::Populate)));
    // the same stored query: the cache is the run's sole input
    let same = b"select * from dr".to_vec();
    assert!(matches!(cache_mode(Some(&same), &requested), Ok(CacheMode::ReadBack)));
    // a different stored query: fatal before anything is produced
    let other = b"select * from dr2".to_vec();
    assert_eq!(
        cache_mode(Some(&other), &requested),
        Err(DumpError::QuerySignatureMismatch)
    );
}
