use lcdump::dump::{
    decode_sid_file, feature_names, names_payload, scalar_payload, sid_file, sid_payload,
};
use lcdump::group::group_observations;
use lcdump::lc::{Observation, Passband, Source};
use lcdump::DumpError;

fn single_obs_source(sid: u64) -> Source {
    let mut s = Source::new(sid);
    s.push_observation(&Observation { sid, t: 1, mag: 2, w: 3, passband: Passband::G });
    s
}

#[test]
fn sid_payload_is_little_endian() {
    let source = single_obs_source(0x0102030405060708);
    assert_eq!(sid_payload(&source), vec![8, 7, 6, 5, 4, 3, 2, 1]);
}

#[test]
fn sid_file_length_and_decoded_ids() {
    let ids: Vec<u64> = vec![10, 30, 20, 20];
    let sources: Vec<Source> = ids.iter().map(|&sid| single_obs_source(sid)).collect();
    let bytes = sid_file(&sources);
    assert_eq!(bytes.len(), 8 * sources.len());
    let decoded = decode_sid_file(&bytes).expect("whole file decodes");
    assert_eq!(decoded, ids);
    // writer-arrival order may differ from input order: the multiset of
    // decoded ids still equals the multiset of input ids
    let arrival: Vec<Source> = vec![
        single_obs_source(20),
        single_obs_source(10),
        single_obs_source(20),
        single_obs_source(30),
    ];
    let permuted = decode_sid_file(&sid_file(&arrival)).unwrap();
    let mut a = decoded.clone();
    let mut b = permuted.clone();
    a.sort();
    b.sort();
    assert_eq!(a, b);
    assert_ne!(decoded, permuted);
}

#[test]
fn sid_file_of_grouped_stream_matches_input_ids() {
    let observations = vec![
        Observation { sid: 5, t: 1, mag: 0, w: 0, passband: Passband::G },
        Observation { sid: 5, t: 2, mag: 0, w: 0, passband: Passband::R },
        Observation { sid: 6, t: 3, mag: 0, w: 0, passband: Passband::G },
    ];
    let sources = group_observations(observations, true);
    let bytes = sid_file(&sources);
    assert_eq!(bytes.len(), 8 * 2);
    assert_eq!(decode_sid_file(&bytes).unwrap(), vec![5, 6]);
}

#[test]
fn sid_file_decode_rejects_ragged_length() {
    let bytes = vec![0u8; 9];
    assert_eq!(decode_sid_file(&bytes), Err(DumpError::Io));
}

#[test]
fn scalar_payload_is_little_endian() {
    let values: Vec<u32> = vec![1, 0x01020304];
    assert_eq!(scalar_payload(&values), vec![1, 0, 0, 0, 4, 3, 2, 1]);
    assert_eq!(scalar_payload(&Vec::new()).len(), 0);
}

#[test]
fn feature_names_cross_product_order() {
    let magn = vec![String::from("amplitude"), String::from("kurtosis")];
    let flux = vec![String::from("cusum")];
    let passbands = vec![Passband::G, Passband::R];
    let names = feature_names(&magn, &flux, &passbands);
    let expected = vec![
        "amplitude_magn_g",
        "kurtosis_magn_g",
        "cusum_flux_g",
        "amplitude_magn_r",
        "kurtosis_magn_r",
        "cusum_flux_r",
    ];
    assert_eq!(names.len(), expected.len());
    for (got, want) in names.iter().zip(expected.iter()) {
        assert_eq!(got, want);
    }
}

#[test]
fn names_payload_newline_terminated() {
    let names = vec![String::from("x"), String::from("yz")];
    assert_eq!(names_payload(&names), b"x\nyz\n".to_vec());
    assert_eq!(names_payload(&Vec::new()).len(), 0);
}
