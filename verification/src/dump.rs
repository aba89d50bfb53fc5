//! Output products derived from sources: the identifier payload, the
//! fixed-width scalar payloads of the flux and feature transforms, the
//! feature name list, and the flat file images they concatenate into.
//!
//! Transform payloads are little-endian and fixed-width; within one source
//! the payloads of the different transforms are produced together, so the
//! rows of the output files stay aligned source by source whatever order
//! sources are written in.
use vstd::prelude::*;
use vstd::utf8::encode_utf8;

use crate::cache::{u32_le, u64_le};
use crate::lc::{Passband, Source};
use crate::DumpError;

verus! {

/// The identifier-file image of a sequence of ids: eight little-endian
/// bytes per id, back to back, in writer order.
pub open spec fn sids_bytes(sids: Seq<u64>) -> Seq<u8>
    decreases sids.len(),
{
    if sids.len() == 0 {
        Seq::<u8>::empty()
    } else {
        sids_bytes(sids.drop_last()) + u64_le(sids.last())
    }
}

/// The flat image of a sequence of 32-bit scalar words: four little-endian
/// bytes per word, back to back.
pub open spec fn words_bytes(ws: Seq<u32>) -> Seq<u8>
    decreases ws.len(),
{
    if ws.len() == 0 {
        Seq::<u8>::empty()
    } else {
        words_bytes(ws.drop_last()) + u32_le(ws.last())
    }
}

/// Encodes one 64-bit word as its eight little-endian bytes.
pub fn encode_u64_le(x: u64) -> (r: Vec<u8>)
    ensures
        r@ == u64_le(x),
        r@.len() == 8,
{
    let mut r: Vec<u8> = Vec::new();
    r.push((x & 0xff) as u8);
    r.push(((x >> 8) & 0xff) as u8);
    r.push(((x >> 16) & 0xff) as u8);
    r.push(((x >> 24) & 0xff) as u8);
    r.push(((x >> 32) & 0xff) as u8);
    r.push(((x >> 40) & 0xff) as u8);
    r.push(((x >> 48) & 0xff) as u8);
    r.push(((x >> 56) & 0xff) as u8);
    proof {
        let y = x;
        assert(y >> 0 == y) by (bit_vector);
        assert(r@ =~= u64_le(x));
    }
    r
}

/// The identifier transform's payload for one source: its id as eight
/// little-endian bytes. No names, no metadata.
pub fn sid_payload(source: &Source) -> (r: Vec<u8>)
    ensures
        r@ == u64_le(source.sid),
        r@.len() == 8,
{
    encode_u64_le(source.sid)
}

/// The whole identifier file for sources written in the given order:
/// always exactly eight bytes per source.
pub fn sid_file(sources: &Vec<Source>) -> (r: Vec<u8>)
    requires
        sources@.len() * 8 <= usize::MAX,
    ensures
        r@ == sids_bytes(sources@.map_values(|s: Source| s.sid)),
        r@.len() == 8 * sources@.len(),
{
    let ghost sids = sources@.map_values(|s: Source| s.sid);
    let mut r: Vec<u8> = Vec::new();
    let n = sources.len();
    let mut k: usize = 0;
    while k < n
        invariant
            k <= n,
            n == sources@.len(),
            sids == sources@.map_values(|s: Source| s.sid),
            r@ == sids_bytes(sids.take(k as int)),
            r@.len() == 8 * k,
        decreases n - k,
    {
        let mut payload = sid_payload(&sources[k]);
        r.append(&mut payload);
        proof {
            assert(sids.take(k + 1).drop_last() =~= sids.take(k as int));
            assert(sids.take(k + 1).last() == sids[k as int]);
        }
        k += 1;
    }
    proof {
        assert(sids.take(n as int) =~= sids);
    }
    r
}

/// Decodes an identifier file: fails exactly where the length is not a
/// multiple of eight; on success the result is the unique id sequence
/// whose image the bytes are.
pub fn decode_sid_file(bytes: &Vec<u8>) -> (r: Result<Vec<u64>, DumpError>)
    ensures
        match r {
            Ok(v) => sids_bytes(v@) == bytes@ && v@.len() * 8 == bytes@.len(),
            Err(e) => e == DumpError::Io && bytes@.len() % 8 != 0,
        },
{
    if bytes.len() % 8 != 0 {
        return Err(DumpError::Io);
    }
    let total = bytes.len();
    let n = total / 8;
    let mut v: Vec<u64> = Vec::new();
    let mut k: usize = 0;
    while k < n
        invariant
            k <= n,
            n * 8 == bytes@.len(),
            v@.len() == k,
            sids_bytes(v@) == bytes@.take(8 * k as int),
        decreases n - k,
    {
        let off = k * 8;
        let x = (bytes[off] as u64) | (bytes[off + 1] as u64) << 8 | (bytes[off + 2] as u64) << 16
            | (bytes[off + 3] as u64) << 24 | (bytes[off + 4] as u64) << 32 | (bytes[off
            + 5] as u64) << 40 | (bytes[off + 6] as u64) << 48 | (bytes[off + 7] as u64) << 56;
        let ghost v_before = v@;
        v.push(x);
        proof {
            crate::cache::lemma_u64_le_decode(
                bytes@[off as int],
                bytes@[off + 1],
                bytes@[off + 2],
                bytes@[off + 3],
                bytes@[off + 4],
                bytes@[off + 5],
                bytes@[off + 6],
                bytes@[off + 7],
            );
            assert(v@.drop_last() =~= v_before);
            assert(u64_le(x) =~= bytes@.subrange(off as int, off + 8));
            assert(bytes@.take(8 * (k + 1)) =~= bytes@.take(8 * k as int) + bytes@.subrange(
                off as int,
                off + 8,
            ));
        }
        k += 1;
    }
    proof {
        assert(bytes@.take(8 * n as int) =~= bytes@);
    }
    Ok(v)
}

/// Two equal eight-byte images come from one id.
proof fn lemma_u64_le_injective(x: u64, y: u64)
    requires
        u64_le(x) == u64_le(y),
    ensures
        x == y,
{
    assert forall|i: int| 0 <= i < 8 implies u64_le(x)[i] == u64_le(y)[i] by {}
    assert(u64_le(x)[0] == ((x >> (8 * 0)) & 0xff) as u8);
    assert(u64_le(y)[0] == ((y >> (8 * 0)) & 0xff) as u8);
    assert(((x >> 0) & 0xff) as u8 == ((y >> 0) & 0xff) as u8);
    assert(u64_le(x)[1] == ((x >> (8 * 1)) & 0xff) as u8);
    assert(u64_le(y)[1] == ((y >> (8 * 1)) & 0xff) as u8);
    assert(((x >> 8) & 0xff) as u8 == ((y >> 8) & 0xff) as u8);
    assert(u64_le(x)[2] == ((x >> (8 * 2)) & 0xff) as u8);
    assert(u64_le(y)[2] == ((y >> (8 * 2)) & 0xff) as u8);
    assert(((x >> 16) & 0xff) as u8 == ((y >> 16) & 0xff) as u8);
    assert(u64_le(x)[3] == ((x >> (8 * 3)) & 0xff) as u8);
    assert(u64_le(y)[3] == ((y >> (8 * 3)) & 0xff) as u8);
    assert(((x >> 24) & 0xff) as u8 == ((y >> 24) & 0xff) as u8);
    assert(u64_le(x)[4] == ((x >> (8 * 4)) & 0xff) as u8);
    assert(u64_le(y)[4] == ((y >> (8 * 4)) & 0xff) as u8);
    assert(((x >> 32) & 0xff) as u8 == ((y >> 32) & 0xff) as u8);
    assert(u64_le(x)[5] == ((x >> (8 * 5)) & 0xff) as u8);
    assert(u64_le(y)[5] == ((y >> (8 * 5)) & 0xff) as u8);
    assert(((x >> 40) & 0xff) as u8 == ((y >> 40) & 0xff) as u8);
    assert(u64_le(x)[6] == ((x >> (8 * 6)) & 0xff) as u8);
    assert(u64_le(y)[6] == ((y >> (8 * 6)) & 0xff) as u8);
    assert(((x >> 48) & 0xff) as u8 == ((y >> 48) & 0xff) as u8);
    assert(u64_le(x)[7] == ((x >> (8 * 7)) & 0xff) as u8);
    assert(u64_le(y)[7] == ((y >> (8 * 7)) & 0xff) as u8);
    assert(((x >> 56) & 0xff) as u8 == ((y >> 56) & 0xff) as u8);
    assert(x == y) by (bit_vector)
        requires
            ((x >> 0) & 0xff) as u8 == ((y >> 0) & 0xff) as u8,
            ((x >> 8) & 0xff) as u8 == ((y >> 8) & 0xff) as u8,
            ((x >> 16) & 0xff) as u8 == ((y >> 16) & 0xff) as u8,
            ((x >> 24) & 0xff) as u8 == ((y >> 24) & 0xff) as u8,
            ((x >> 32) & 0xff) as u8 == ((y >> 32) & 0xff) as u8,
            ((x >> 40) & 0xff) as u8 == ((y >> 40) & 0xff) as u8,
            ((x >> 48) & 0xff) as u8 == ((y >> 48) & 0xff) as u8,
            ((x >> 56) & 0xff) as u8 == ((y >> 56) & 0xff) as u8,
    ;
}

/// The identifier file pins the written ids down: any id sequence with the
/// same image is the written one, so decoded ids agree with the written
/// ids as a multiset (and even in order).
pub proof fn lemma_sid_file_round_trip(sids: Seq<u64>, decoded: Seq<u64>)
    requires
        sids_bytes(decoded) == sids_bytes(sids),
    ensures
        decoded == sids,
        decoded.to_multiset() == sids.to_multiset(),
    decreases sids.len(),
{
    lemma_sids_bytes_len(sids);
    lemma_sids_bytes_len(decoded);
    if sids.len() == 0 {
        assert(decoded =~= sids);
    } else {
        let a = sids_bytes(decoded.drop_last());
        let b = sids_bytes(sids.drop_last());
        lemma_sids_bytes_len(sids.drop_last());
        lemma_sids_bytes_len(decoded.drop_last());
        assert(a =~= b) by {
            assert forall|i: int| 0 <= i < a.len() implies a[i] == b[i] by {
                assert(a[i] == sids_bytes(decoded)[i]);
                assert(b[i] == sids_bytes(sids)[i]);
            }
        }
        assert(u64_le(decoded.last()) =~= u64_le(sids.last())) by {
            assert forall|i: int| 0 <= i < 8 implies u64_le(decoded.last())[i] == u64_le(
                sids.last(),
            )[i] by {
                assert(u64_le(decoded.last())[i] == sids_bytes(decoded)[a.len() + i]);
                assert(u64_le(sids.last())[i] == sids_bytes(sids)[b.len() + i]);
            }
        }
        lemma_u64_le_injective(decoded.last(), sids.last());
        lemma_sid_file_round_trip(sids.drop_last(), decoded.drop_last());
        assert(decoded.len() == sids.len());
        assert forall|i: int| 0 <= i < decoded.len() implies decoded[i] == sids[i] by {
            if i < decoded.len() - 1 {
                assert(decoded.drop_last()[i] == sids.drop_last()[i]);
            } else {
                assert(decoded.last() == sids.last());
            }
        }
        assert(decoded =~= sids);
    }
}

/// Eight bytes per id.
pub proof fn lemma_sids_bytes_len(sids: Seq<u64>)
    ensures
        sids_bytes(sids).len() == sids.len() * 8,
    decreases sids.len(),
{
    if sids.len() > 0 {
        lemma_sids_bytes_len(sids.drop_last());
    }
}

/// The flux and feature transforms' payload for one source and band
/// order: each scalar word as four little-endian bytes, in the order the
/// evaluation produced them.
pub fn scalar_payload(values: &Vec<u32>) -> (r: Vec<u8>)
    requires
        values@.len() * 4 <= usize::MAX,
    ensures
        r@ == words_bytes(values@),
        r@.len() == 4 * values@.len(),
{
    let mut r: Vec<u8> = Vec::new();
    let n = values.len();
    let mut k: usize = 0;
    while k < n
        invariant
            k <= n,
            n == values@.len(),
            r@ == words_bytes(values@.take(k as int)),
            r@.len() == 4 * k,
        decreases n - k,
    {
        let x = values[k];
        r.push((x & 0xff) as u8);
        r.push(((x >> 8) & 0xff) as u8);
        r.push(((x >> 16) & 0xff) as u8);
        r.push(((x >> 24) & 0xff) as u8);
        proof {
            let y = x;
            assert(y >> 0 == y) by (bit_vector);
            assert(values@.take(k + 1).drop_last() =~= values@.take(k as int));
            assert(r@ =~= words_bytes(values@.take(k as int)) + u32_le(x));
        }
        k += 1;
    }
    proof {
        assert(values@.take(n as int) =~= values@);
    }
    r
}

/// One feature-output name: `{base}_{domain}_{band label}`.
pub open spec fn dump_name(base: Seq<char>, domain: Seq<char>, label: char) -> Seq<char> {
    base + "_"@ + domain + "_"@ + seq![label]
}

/// The names of one band's scalars: every magnitude-domain feature, then
/// every flux-domain feature.
pub open spec fn band_names(magn: Seq<Seq<char>>, flux: Seq<Seq<char>>, label: char) -> Seq<
    Seq<char>,
> {
    magn.map_values(|n: Seq<char>| dump_name(n, "magn"@, label)) + flux.map_values(
        |n: Seq<char>| dump_name(n, "flux"@, label),
    )
}

/// All feature-output names: band-major in the configured band order, then
/// domain-major (magnitude before flux), then the extractor's own order.
pub open spec fn feature_names_spec(
    magn: Seq<Seq<char>>,
    flux: Seq<Seq<char>>,
    passbands: Seq<Passband>,
) -> Seq<Seq<char>>
    decreases passbands.len(),
{
    if passbands.len() == 0 {
        Seq::<Seq<char>>::empty()
    } else {
        feature_names_spec(magn, flux, passbands.drop_last()) + band_names(
            magn,
            flux,
            passbands.last().label_spec(),
        )
    }
}

/// The single-character label of this band as a string slice.
pub fn label_str(p: Passband) -> (s: &'static str)
    ensures
        s@ == seq![p.label_spec()],
{
    proof {
        reveal_strlit("g");
        reveal_strlit("r");
        reveal_strlit("i");
    }
    match p {
        Passband::G => "g",
        Passband::R => "r",
        Passband::I => "i",
    }
}

/// Builds the stable, deterministically ordered name list of the feature
/// transform from the extractors' own name lists and the configured bands.
pub fn feature_names(
    magn_names: &Vec<String>,
    flux_names: &Vec<String>,
    passbands: &Vec<Passband>,
) -> (r: Vec<String>)
    ensures
        r.deep_view() == feature_names_spec(
            magn_names.deep_view(),
            flux_names.deep_view(),
            passbands@,
        ),
{
    let ghost magn = magn_names.deep_view();
    let ghost flux = flux_names.deep_view();
    let mut r: Vec<String> = Vec::new();
    let np = passbands.len();
    let mut p: usize = 0;
    proof {
        reveal_strlit("_");
    }
    while p < np
        invariant
            p <= np,
            np == passbands@.len(),
            magn == magn_names.deep_view(),
            flux == flux_names.deep_view(),
            r.deep_view() == feature_names_spec(magn, flux, passbands@.take(p as int)),
        decreases np - p,
    {
        let label = label_str(passbands[p]);
        let ghost lbl = passbands@[p as int].label_spec();
        let ghost before_band = r.deep_view();
        let nm = magn_names.len();
        let mut j: usize = 0;
        while j < nm
            invariant
                j <= nm,
                nm == magn.len(),
                magn == magn_names.deep_view(),
                label@ == seq![lbl],
                r.deep_view() == before_band + magn.take(j as int).map_values(
                    |n: Seq<char>| dump_name(n, "magn"@, lbl),
                ),
            decreases nm - j,
        {
            let mut nm_s = String::from_str(magn_names[j].as_str());
            nm_s.append("_");
            nm_s.append("magn");
            nm_s.append("_");
            nm_s.append(label);
            proof {
                assert(nm_s@ == dump_name(magn[j as int], "magn"@, lbl));
            }
            let ghost dv = r.deep_view();
            let ghost nm_v = nm_s@;
            r.push(nm_s);
            proof {
                assert(r.deep_view() =~= dv.push(nm_v));
                assert(magn.take(j + 1).map_values(|n: Seq<char>| dump_name(n, "magn"@, lbl)) =~=
                magn.take(j as int).map_values(|n: Seq<char>| dump_name(n, "magn"@, lbl)).push(
                    dump_name(magn[j as int], "magn"@, lbl),
                ));
                assert(r.deep_view() =~= before_band + magn.take(j + 1).map_values(
                    |n: Seq<char>| dump_name(n, "magn"@, lbl),
                ));
            }
            j += 1;
        }
        proof {
            assert(magn.take(nm as int) =~= magn);
        }
        let ghost before_flux = r.deep_view();
        let nf = flux_names.len();
        let mut j: usize = 0;
        while j < nf
            invariant
                j <= nf,
                nf == flux.len(),
                flux == flux_names.deep_view(),
                label@ == seq![lbl],
                r.deep_view() == before_flux + flux.take(j as int).map_values(
                    |n: Seq<char>| dump_name(n, "flux"@, lbl),
                ),
            decreases nf - j,
        {
            let mut nm_s = String::from_str(flux_names[j].as_str());
            nm_s.append("_");
            nm_s.append("flux");
            nm_s.append("_");
            nm_s.append(label);
            proof {
                assert(nm_s@ == dump_name(flux[j as int], "flux"@, lbl));
            }
            let ghost dv = r.deep_view();
            let ghost nm_v = nm_s@;
            r.push(nm_s);
            proof {
                assert(r.deep_view() =~= dv.push(nm_v));
                assert(flux.take(j + 1).map_values(|n: Seq<char>| dump_name(n, "flux"@, lbl)) =~=
                flux.take(j as int).map_values(|n: Seq<char>| dump_name(n, "flux"@, lbl)).push(
                    dump_name(flux[j as int], "flux"@, lbl),
                ));
                assert(r.deep_view() =~= before_flux + flux.take(j + 1).map_values(
                    |n: Seq<char>| dump_name(n, "flux"@, lbl),
                ));
            }
            j += 1;
        }
        proof {
            assert(flux.take(nf as int) =~= flux);
            assert(r.deep_view() =~= before_band + band_names(magn, flux, lbl));
            assert(passbands@.take(p + 1).drop_last() =~= passbands@.take(p as int));
            assert(passbands@.take(p + 1).last() == passbands@[p as int]);
        }
        p += 1;
    }
    proof {
        assert(passbands@.take(np as int) =~= passbands@);
    }
    r
}

/// The name-file image of a name list: each name's UTF-8 bytes followed by
/// one newline, names in list order, written in one pass.
pub open spec fn names_payload_spec(names: Seq<Seq<char>>) -> Seq<u8>
    decreases names.len(),
{
    if names.len() == 0 {
        Seq::<u8>::empty()
    } else {
        names_payload_spec(names.drop_last()) + encode_utf8(names.last()) + seq![10u8]
    }
}

/// Builds the name file's bytes: every name, newline-terminated, in order.
pub fn names_payload(names: &Vec<String>) -> (r: Vec<u8>)
    ensures
        r@ == names_payload_spec(names.deep_view()),
{
    let ghost ns = names.deep_view();
    let mut r: Vec<u8> = Vec::new();
    let n = names.len();
    let mut k: usize = 0;
    while k < n
        invariant
            k <= n,
            n == ns.len(),
            ns == names.deep_view(),
            r@ == names_payload_spec(ns.take(k as int)),
        decreases n - k,
    {
        let bytes = names[k].as_str().as_bytes();
        let mut j: usize = 0;
        let m = bytes.len();
        let ghost before = r@;
        while j < m
            invariant
                j <= m,
                m == bytes@.len(),
                bytes@ == encode_utf8(ns[k as int]),
                k < n,
                r@ == before + bytes@.take(j as int),
            decreases m - j,
        {
            r.push(bytes[j]);
            proof {
                assert(r@ =~= before + bytes@.take(j + 1));
            }
            j += 1;
        }
        r.push(10u8);
        proof {
            assert(bytes@.take(m as int) =~= bytes@);
            assert(ns.take(k + 1).drop_last() =~= ns.take(k as int));
            assert(ns.take(k + 1).last() == ns[k as int]);
            assert(r@ =~= names_payload_spec(ns.take(k as int)) + encode_utf8(ns[k as int])
                + seq![10u8]);
        }
        k += 1;
    }
    proof {
        assert(ns.take(n as int) =~= ns);
    }
    r
}

} // verus!
