//! Run configuration: database choice, query text, band selection, output
//! paths, and the optional interpolation, feature and cache settings.
//!
//! The cache is keyed by a signature of the query text: an md5 digest,
//! base64-encoded, whose first characters also salt the cache file names.
use vstd::prelude::*;
use vstd::string::StrSliceExecFns;
use vstd::string::StringSliceAdditionalSpecFns;
use vstd::string::StringExecFns;
use vstd::utf8::is_ascii_chars;

use base64::Engine;

use crate::lc::Passband;
use crate::DumpError;

verus! {

/// The supported source databases.
pub enum DataBase {
    /// A ClickHouse server reached over its native TCP protocol.
    ClickHouse,
}

/// Version label of the feature-extractor configuration.
#[derive(Clone, Copy, PartialEq, Eq, Structural, Debug)]
pub enum FeatureVersion {
    /// The fourth extractor generation.
    Snad4,
    /// The sixth extractor generation.
    Snad6,
}

/// The extractor version a label names, if any.
pub open spec fn version_of(s: Seq<char>) -> Option<FeatureVersion> {
    if s == "snad4"@ {
        Some(FeatureVersion::Snad4)
    } else if s == "snad6"@ {
        Some(FeatureVersion::Snad6)
    } else {
        None
    }
}

/// Two string slices hold the same characters.
pub fn str_eq(a: &str, b: &str) -> (r: bool)
    ensures
        r == (a@ == b@),
{
    let sa = String::from_str(a);
    let sb = String::from_str(b);
    sa == sb
}

impl FeatureVersion {
    /// Parses a version label; every label outside the known set is
    /// rejected.
    pub fn from_str(s: &str) -> (r: Result<FeatureVersion, DumpError>)
        ensures
            match r {
                Ok(v) => version_of(s@) == Some(v),
                Err(e) => e == DumpError::UnknownFeatureVersion && version_of(s@) is None,
            },
    {
        if str_eq(s, "snad4") {
            Ok(FeatureVersion::Snad4)
        } else if str_eq(s, "snad6") {
            Ok(FeatureVersion::Snad6)
        } else {
            Err(DumpError::UnknownFeatureVersion)
        }
    }
}

/// Settings of the flux transform: its output file.
pub struct InterpolationConfig {
    /// Path of the resampled-flux value file.
    pub path: String,
}

/// Settings of the feature transform: its output files and extractor
/// version.
pub struct FeatureConfig {
    /// Path of the feature value file.
    pub value_path: String,
    /// Path of the feature name file.
    pub name_path: String,
    /// Path of the extractor-configuration metadata file.
    pub json_path: String,
    /// Which extractor generation to run.
    pub version: FeatureVersion,
}

/// Settings of the observation cache: its signature and its two files.
pub struct CacheConfig {
    /// Base64 of the md5 digest of the query text.
    pub query_hash: String,
    /// Path of the stored query text.
    pub query_path: String,
    /// Path of the stored observation records.
    pub data_path: String,
}

/// Everything one run needs.
pub struct Config {
    /// Which database to query.
    pub database: DataBase,
    /// The query sent to the database.
    pub sql_query: String,
    /// Connection string, in the database's own form.
    pub connection_config: String,
    /// The caller claims every light curve arrives sorted by time.
    pub light_curves_are_sorted: bool,
    /// Bands to process, in output order.
    pub passbands: Vec<Passband>,
    /// Path of the identifier file, if one is wanted.
    pub sid_path: Option<String>,
    /// Flux transform settings, if interpolation is wanted.
    pub interpolation_config: Option<InterpolationConfig>,
    /// Feature transform settings, if extraction is wanted.
    pub feature_config: Option<FeatureConfig>,
    /// Cache settings, if caching is wanted.
    pub cache_config: Option<CacheConfig>,
}

/// `root` joined with `f` by a single path separator; an empty root
/// disappears and a root already ending in the separator gains no second
/// one.
pub open spec fn joined_path(root: Seq<char>, f: Seq<char>) -> Seq<char> {
    if root.len() == 0 {
        f
    } else if root.last() == '/' {
        root + f
    } else {
        root + seq!['/'] + f
    }
}

/// The output path `root/basename{suffix}{ext}`.
pub open spec fn path_spec(root: Seq<char>, basename: Seq<char>, suffix: Seq<char>, ext: Seq<
    char,
>) -> Seq<char> {
    joined_path(root, basename + suffix + ext)
}

/// Builds the output path `root/basename{suffix}{ext}`.
pub fn get_path(root: &str, basename: &str, suffix: &str, ext: &str) -> (r: String)
    ensures
        r@ == path_spec(root@, basename@, suffix@, ext@),
{
    let mut filename = String::from_str(basename);
    filename.append(suffix);
    filename.append(ext);
    let n = root.unicode_len();
    if n == 0 {
        return filename;
    }
    let last = root.get_char(n - 1);
    let mut r = String::from_str(root);
    if last != '/' {
        r.append("/");
        proof {
            reveal_strlit("/");
        }
    }
    r.append(filename.as_str());
    r
}

/// Every character of `s` labels a band.
pub open spec fn labels_valid(s: Seq<char>) -> bool {
    forall|i: int| 0 <= i < s.len() ==> is_label(#[trigger] s[i])
}

/// `c` labels a band.
pub open spec fn is_label(c: char) -> bool {
    c == 'g' || c == 'r' || c == 'i'
}

/// The band a valid label names.
pub open spec fn passband_of_label(c: char) -> Passband {
    if c == 'g' {
        Passband::G
    } else if c == 'r' {
        Passband::R
    } else {
        Passband::I
    }
}

/// Parses a band-selection string, one band per character, keeping the
/// order; any unknown label is rejected.
pub fn passbands_from_str(s: &str) -> (r: Result<Vec<Passband>, DumpError>)
    ensures
        match r {
            Ok(v) => {
                &&& labels_valid(s@)
                &&& v@.len() == s@.len()
                &&& forall|i: int| 0 <= i < s@.len() ==> v@[i] == passband_of_label(#[trigger] s@[i])
            },
            Err(e) => e == DumpError::UnknownPassband && !labels_valid(s@),
        },
{
    let n = s.unicode_len();
    let mut v: Vec<Passband> = Vec::new();
    let mut k: usize = 0;
    while k < n
        invariant
            k <= n,
            n == s@.len(),
            v@.len() == k,
            forall|i: int| 0 <= i < k ==> is_label(#[trigger] s@[i]),
            forall|i: int| 0 <= i < k ==> v@[i] == passband_of_label(#[trigger] s@[i]),
        decreases n - k,
    {
        let c = s.get_char(k);
        match Passband::from_label(c) {
            Some(p) => {
                v.push(p);
            },
            None => {
                return Err(DumpError::UnknownPassband);
            },
        }
        k += 1;
    }
    Ok(v)
}

/// The md5 digest of a byte string: sixteen bytes, a function of the input
/// alone.
pub uninterp spec fn md5_of(data: Seq<u8>) -> Seq<u8>;

/// Relies on md5::compute: the digest of the input bytes, always sixteen
/// bytes long.
#[verifier::external_body]
fn md5_digest(data: &[u8]) -> (r: Vec<u8>)
    ensures
        r@ == md5_of(data@),
        r@.len() == 16,
{
    md5::compute(data).0.to_vec()
}

/// The standard, padded base64 encoding of a byte string: a function of
/// the input alone.
pub uninterp spec fn base64_of(data: Seq<u8>) -> Seq<char>;

/// Relies on base64's STANDARD engine: four output characters for every
/// three input bytes (rounded up by padding), all from its ASCII alphabet.
#[verifier::external_body]
fn base64_standard(data: &[u8]) -> (r: String)
    ensures
        r@ == base64_of(data@),
        r@.len() == 4 * ((data@.len() + 2) / 3),
        is_ascii_chars(r@),
{
    base64::engine::general_purpose::STANDARD.encode(data)
}

/// The cache signature of a query text: base64 of its md5 digest.
pub open spec fn query_hash_spec(query: Seq<u8>) -> Seq<char> {
    base64_of(md5_of(query))
}

/// Computes the cache signature of a query text; always 24 characters.
pub fn query_hash(sql_query: &str) -> (r: String)
    ensures
        r@ == query_hash_spec(sql_query.spec_bytes()),
        r@.len() == 24,
        is_ascii_chars(r@),
{
    let digest = md5_digest(sql_query.as_bytes());
    base64_standard(digest.as_slice())
}

/// The cache settings for a query cached under `dir`: the signature, and
/// the two file paths salted with the signature's first eight characters.
pub fn cache_config_for(dir: &str, database_type: &str, sql_query: &str) -> (r: CacheConfig)
    ensures
        r.query_hash@ == query_hash_spec(sql_query.spec_bytes()),
        r.query_path@ == path_spec(
            dir@,
            database_type@,
            seq!['_'] + query_hash_spec(sql_query.spec_bytes()).take(8),
            ".sql"@,
        ),
        r.data_path@ == path_spec(
            dir@,
            database_type@,
            seq!['_'] + query_hash_spec(sql_query.spec_bytes()).take(8),
            ".dat"@,
        ),
{
    let hash = query_hash(sql_query);
    let prefix = hash.as_str().substring_ascii(0, 8);
    let mut suffix = String::from_str("_");
    suffix.append(prefix);
    proof {
        reveal_strlit("_");
    }
    let query_path = get_path(dir, database_type, suffix.as_str(), ".sql");
    let data_path = get_path(dir, database_type, suffix.as_str(), ".dat");
    CacheConfig { query_hash: hash, query_path, data_path }
}

impl Config {
    /// Builds a run configuration from plain values, rejecting an unknown
    /// database kind, band label or extractor version.
    pub fn new(
        database_type: &str,
        sql_query: &str,
        connection_config: &str,
        output_dir: &str,
        suffix: &str,
        light_curves_are_sorted: bool,
        passbands_str: &str,
        interpolation_enabled: bool,
        features_enabled: bool,
        feature_version: &str,
        cache_dir: Option<&str>,
        no_sid: bool,
    ) -> (r: Result<Config, DumpError>)
        ensures
            r is Ok <==> database_type@ == "clickhouse"@ && labels_valid(passbands_str@) && (
            features_enabled ==> version_of(feature_version@) is Some),
            match r {
                Ok(c) => {
                    &&& c.sql_query@ == sql_query@
                    &&& c.connection_config@ == connection_config@
                    &&& c.light_curves_are_sorted == light_curves_are_sorted
                    &&& c.passbands@.len() == passbands_str@.len()
                    &&& forall|i: int|
                        0 <= i < passbands_str@.len() ==> c.passbands@[i] == passband_of_label(
                            #[trigger] passbands_str@[i],
                        )
                    &&& c.sid_path is Some <==> !no_sid
                    &&& (c.sid_path matches Some(p) ==> p@ == path_spec(
                        output_dir@,
                        "sid"@,
                        suffix@,
                        ".dat"@,
                    ))
                    &&& c.interpolation_config is Some <==> interpolation_enabled
                    &&& (c.interpolation_config matches Some(ic) ==> ic.path@ == path_spec(
                        output_dir@,
                        "flux"@,
                        suffix@,
                        ".dat"@,
                    ))
                    &&& c.feature_config is Some <==> features_enabled
                    &&& (c.feature_config matches Some(fc) ==> {
                        &&& fc.value_path@ == path_spec(output_dir@, "feature"@, suffix@, ".dat"@)
                        &&& fc.name_path@ == path_spec(output_dir@, "feature"@, suffix@, ".name"@)
                        &&& fc.json_path@ == path_spec(output_dir@, "feature"@, suffix@, ".json"@)
                        &&& Some(fc.version) == version_of(feature_version@)
                    })
                    &&& c.cache_config is Some <==> cache_dir is Some
                    &&& (c.cache_config matches Some(cc) ==> cc.query_hash@ == query_hash_spec(
                        sql_query.spec_bytes(),
                    ))
                },
                Err(e) => {
                    ||| e == DumpError::UnknownDataBase && database_type@ != "clickhouse"@
                    ||| e == DumpError::UnknownPassband && !labels_valid(passbands_str@)
                    ||| e == DumpError::UnknownFeatureVersion && features_enabled && version_of(
                        feature_version@,
                    ) is None
                },
            },
    {
        if !str_eq(database_type, "clickhouse") {
            return Err(DumpError::UnknownDataBase);
        }
        let database = DataBase::ClickHouse;
        let passbands = match passbands_from_str(passbands_str) {
            Ok(v) => v,
            Err(e) => {
                return Err(e);
            },
        };
        let sid_path = if !no_sid {
            Some(get_path(output_dir, "sid", suffix, ".dat"))
        } else {
            None
        };
        let interpolation_config = if interpolation_enabled {
            Some(InterpolationConfig { path: get_path(output_dir, "flux", suffix, ".dat") })
        } else {
            None
        };
        let feature_config = if features_enabled {
            let version = match FeatureVersion::from_str(feature_version) {
                Ok(v) => v,
                Err(e) => {
                    return Err(e);
                },
            };
            Some(
                FeatureConfig {
                    value_path: get_path(output_dir, "feature", suffix, ".dat"),
                    name_path: get_path(output_dir, "feature", suffix, ".name"),
                    json_path: get_path(output_dir, "feature", suffix, ".json"),
                    version,
                },
            )
        } else {
            None
        };
        let cache_config = match cache_dir {
            Some(dir) => Some(cache_config_for(dir, database_type, sql_query)),
            None => None,
        };
        Ok(
            Config {
                database,
                sql_query: String::from_str(sql_query),
                connection_config: String::from_str(connection_config),
                light_curves_are_sorted,
                passbands,
                sid_path,
                interpolation_config,
                feature_config,
                cache_config,
            },
        )
    }
}

} // verus!
