use base64::Engine;

use lcdump::config::{
    cache_config_for, get_path, passbands_from_str, query_hash, Config, FeatureVersion,
};
use lcdump::lc::Passband;
use lcdump::DumpError;

#[test]
fn passbands_parse_in_order() {
    let v = passbands_from_str("gr").unwrap();
    assert_eq!(v.len(), 2);
    assert_eq!(v[0].code(), 1);
    assert_eq!(v[1].code(), 2);
    let all = passbands_from_str("gri").unwrap();
    assert_eq!(all.len(), 3);
    assert_eq!(passbands_from_str("gx"), Err(DumpError::UnknownPassband));
}

#[test]
fn feature_version_labels() {
    assert!(matches!(FeatureVersion::from_str("snad4"), Ok(FeatureVersion::Snad4)));
    assert!(matches!(FeatureVersion::from_str("snad6"), Ok(FeatureVersion::Snad6)));
    assert_eq!(FeatureVersion::from_str("snad5"), Err(DumpError::UnknownFeatureVersion));
}

#[test]
fn get_path_joins_with_separator() {
    assert_eq!(get_path("out", "sid", "_a", ".dat"), "out/sid_a.dat");
    assert_eq!(get_path("out/", "sid", "", ".dat"), "out/sid.dat");
    assert_eq!(get_path("", "sid", "", ".dat"), "sid.dat");
}

#[test]
fn query_hash_matches_md5_base64_chain() {
    let query = "select sid, mjd, filter, mag, magerr from dr";
    let hash = query_hash(query);
    assert_eq!(hash.len(), 24);
    // the signature is exactly base64 of the md5 digest of the text
    let direct =
        base64::engine::general_purpose::STANDARD.encode(md5::compute(query.as_bytes()).0);
    assert_eq!(hash, direct);
    // deterministic, and not the input handed back
    assert_eq!(query_hash(query), hash);
    assert_ne!(query_hash("x"), "x");
    assert_eq!(query_hash("x").len(), 24);
}

#[test]
fn cache_config_salts_paths_with_hash_prefix() {
    let query = "select 1";
    let cc = cache_config_for("cachedir", "clickhouse", query);
    let hash = query_hash(query);
    assert_eq!(cc.query_hash, hash);
    let prefix: String = hash.chars().take(8).collect();
    assert_eq!(cc.query_path, format!("cachedir/clickhouse_{}.sql", prefix));
    assert_eq!(cc.data_path, format!("cachedir/clickhouse_{}.dat", prefix));
}

#[test]
fn config_new_assembles_everything() {
    let c = Config::new(
        "clickhouse",
        "select 1",
        "tcp://localhost:9000",
        "out",
        "_run",
        false,
        "gr",
        true,
        true,
        "snad4",
        Some("cache"),
        false,
    )
    .unwrap();
    assert_eq!(c.sql_query, "select 1");
    assert_eq!(c.connection_config, "tcp://localhost:9000");
    assert!(!c.light_curves_are_sorted);
    assert_eq!(c.passbands.len(), 2);
    assert_eq!(c.passbands[0], Passband::G);
    assert_eq!(c.passbands[1], Passband::R);
    assert_eq!(c.sid_path.as_deref(), Some("out/sid_run.dat"));
    assert_eq!(c.interpolation_config.unwrap().path, "out/flux_run.dat");
    let fc = c.feature_config.unwrap();
    assert_eq!(fc.value_path, "out/feature_run.dat");
    assert_eq!(fc.name_path, "out/feature_run.name");
    assert_eq!(fc.json_path, "out/feature_run.json");
    assert_eq!(fc.version, FeatureVersion::Snad4);
    let cc = c.cache_config.unwrap();
    assert_eq!(cc.query_hash, query_hash("select 1"));
}

#[test]
fn config_new_rejects_bad_inputs() {
    let no_sid = Config::new(
        "clickhouse",
        "q",
        "c",
        ".",
        "",
        true,
        "g",
        false,
        false,
        "snad4",
        None,
        true,
    )
    .unwrap();
    assert!(no_sid.sid_path.is_none());
    assert!(no_sid.interpolation_config.is_none());
    assert!(no_sid.feature_config.is_none());
    assert!(no_sid.cache_config.is_none());

    let bad_db = Config::new(
        "postgres",
        "q",
        "c",
        ".",
        "",
        true,
        "g",
        false,
        false,
        "snad4",
        None,
        true,
    );
    assert!(matches!(bad_db, Err(DumpError::UnknownDataBase)));

    let bad_band = Config::new(
        "clickhouse",
        "q",
        "c",
        ".",
        "",
        true,
        "gz",
        false,
        false,
        "snad4",
        None,
        true,
    );
    assert!(matches!(bad_band, Err(DumpError::UnknownPassband)));

    let bad_version = Config::new(
        "clickhouse",
        "q",
        "c",
        ".",
        "",
        true,
        "g",
        false,
        true,
        "snad9",
        None,
        true,
    );
    assert!(matches!(bad_version, Err(DumpError::UnknownFeatureVersion)));
}
