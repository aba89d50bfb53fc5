//! Resizable binary cache of `Observation` records with a query-text guard.
//!
//! The store keeps a logical length apart from its allocated capacity;
//! capacity grows in fixed chunks while writing and is truncated to the
//! logical length on release, so nothing past the true end survives. Its
//! on-disk image is a flat array of fixed-width little-endian records.
use vstd::prelude::*;

use crate::lc::{Observation, Passband, Source, SourceModel};
use crate::group::{
    group_model, lemma_run_band_partition, lemma_run_len_of_prefix, lemma_runs_wf,
    run_band_samples, run_model, run_uniform, runs,
};
use crate::sorting::{lemma_sort_by_time_identity, lemma_sort_by_time_sorted, time_sorted};
use crate::DumpError;

verus! {

/// Records added to the allocation whenever the store grows.
pub const CACHE_CHUNK: usize = 65536;

/// Bytes of one record on disk: id, time key, magnitude, weight, band code.
pub const RECORD_BYTES: usize = 21;

/// Byte `i` (little-endian) of a 64-bit word.
pub open spec fn u64_le_byte(x: u64, i: int) -> u8 {
    ((x >> (8 * i)) & 0xff) as u8
}

/// The eight little-endian bytes of a 64-bit word.
pub open spec fn u64_le(x: u64) -> Seq<u8> {
    Seq::new(8, |i: int| u64_le_byte(x, i))
}

/// Byte `i` (little-endian) of a 32-bit word.
pub open spec fn u32_le_byte(x: u32, i: int) -> u8 {
    ((x >> (8 * i)) & 0xff) as u8
}

/// The four little-endian bytes of a 32-bit word.
pub open spec fn u32_le(x: u32) -> Seq<u8> {
    Seq::new(4, |i: int| u32_le_byte(x, i))
}

/// The fixed-width on-disk image of one record.
pub open spec fn obs_bytes(o: Observation) -> Seq<u8> {
    u64_le(o.sid) + u32_le(o.t) + u32_le(o.mag) + u32_le(o.w) + seq![o.passband.code_spec()]
}

/// The band-code byte of the `k`-th record of an image is one of the
/// closed set of codes.
pub open spec fn record_code_valid(bs: Seq<u8>, k: int) -> bool {
    1 <= bs[k * (RECORD_BYTES as int) + 20] <= 3
}

/// The bytes are the image of some record sequence: whole fixed-width
/// records, each carrying a known band code.
pub open spec fn cache_bytes_valid(bs: Seq<u8>) -> bool {
    &&& bs.len() as int % (RECORD_BYTES as int) == 0
    &&& forall|k: int|
        0 <= k < bs.len() as int / (RECORD_BYTES as int) ==> #[trigger] record_code_valid(bs, k)
}

/// The on-disk image of a record sequence: records back to back.
pub open spec fn records_bytes(rs: Seq<Observation>) -> Seq<u8>
    decreases rs.len(),
{
    if rs.len() == 0 {
        Seq::<u8>::empty()
    } else {
        records_bytes(rs.drop_last()) + obs_bytes(rs.last())
    }
}

/// Encodes one record into its 21 little-endian bytes.
pub fn encode_observation(o: &Observation) -> (r: Vec<u8>)
    ensures
        r@ == obs_bytes(*o),
        r@.len() == RECORD_BYTES,
{
    let mut r: Vec<u8> = Vec::new();
    let sid = o.sid;
    r.push((sid & 0xff) as u8);
    r.push(((sid >> 8) & 0xff) as u8);
    r.push(((sid >> 16) & 0xff) as u8);
    r.push(((sid >> 24) & 0xff) as u8);
    r.push(((sid >> 32) & 0xff) as u8);
    r.push(((sid >> 40) & 0xff) as u8);
    r.push(((sid >> 48) & 0xff) as u8);
    r.push(((sid >> 56) & 0xff) as u8);
    push_u32_le(&mut r, o.t);
    push_u32_le(&mut r, o.mag);
    push_u32_le(&mut r, o.w);
    r.push(o.passband.code());
    proof {
        let x = o.sid;
        assert(x >> 0 == x) by (bit_vector);
        assert(r@ =~= obs_bytes(*o));
    }
    r
}

/// Appends the four little-endian bytes of a 32-bit word.
fn push_u32_le(r: &mut Vec<u8>, x: u32)
    ensures
        final(r)@ == old(r)@ + u32_le(x),
{
    r.push((x & 0xff) as u8);
    r.push(((x >> 8) & 0xff) as u8);
    r.push(((x >> 16) & 0xff) as u8);
    r.push(((x >> 24) & 0xff) as u8);
    proof {
        assert(x >> 0 == x) by (bit_vector);
        assert(r@ =~= old(r)@ + u32_le(x));
    }
}

/// Reassembling a 64-bit word from its bytes gives back those bytes.
pub proof fn lemma_u64_le_decode(b0: u8, b1: u8, b2: u8, b3: u8, b4: u8, b5: u8, b6: u8, b7: u8)
    ensures
        u64_le(
            (b0 as u64) | (b1 as u64) << 8 | (b2 as u64) << 16 | (b3 as u64) << 24 | (b4 as u64)
                << 32 | (b5 as u64) << 40 | (b6 as u64) << 48 | (b7 as u64) << 56,
        ) =~= seq![b0, b1, b2, b3, b4, b5, b6, b7],
{
    let x = (b0 as u64) | (b1 as u64) << 8 | (b2 as u64) << 16 | (b3 as u64) << 24 | (b4 as u64)
        << 32 | (b5 as u64) << 40 | (b6 as u64) << 48 | (b7 as u64) << 56;
    assert(((x >> 0) & 0xff) as u8 == b0 && ((x >> 8) & 0xff) as u8 == b1 && ((x >> 16) & 0xff) as u8
        == b2 && ((x >> 24) & 0xff) as u8 == b3 && ((x >> 32) & 0xff) as u8 == b4 && ((x >> 40)
        & 0xff) as u8 == b5 && ((x >> 48) & 0xff) as u8 == b6 && ((x >> 56) & 0xff) as u8 == b7)
        by (bit_vector)
        requires
            x == (b0 as u64) | (b1 as u64) << 8 | (b2 as u64) << 16 | (b3 as u64) << 24 | (
            b4 as u64) << 32 | (b5 as u64) << 40 | (b6 as u64) << 48 | (b7 as u64) << 56,
    ;
}

/// Reassembling a 32-bit word from its bytes gives back those bytes.
proof fn lemma_u32_le_decode(b0: u8, b1: u8, b2: u8, b3: u8)
    ensures
        u32_le((b0 as u32) | (b1 as u32) << 8 | (b2 as u32) << 16 | (b3 as u32) << 24) =~= seq![
            b0,
            b1,
            b2,
            b3,
        ],
{
    let x = (b0 as u32) | (b1 as u32) << 8 | (b2 as u32) << 16 | (b3 as u32) << 24;
    assert(((x >> 0) & 0xff) as u8 == b0 && ((x >> 8) & 0xff) as u8 == b1 && ((x >> 16) & 0xff) as u8
        == b2 && ((x >> 24) & 0xff) as u8 == b3) by (bit_vector)
        requires
            x == (b0 as u32) | (b1 as u32) << 8 | (b2 as u32) << 16 | (b3 as u32) << 24,
    ;
}

/// Decodes the record at byte offset `off`, or fails on a band code
/// outside the closed set; on success the record's image is exactly those
/// 21 bytes.
pub fn decode_observation(bytes: &Vec<u8>, off: usize) -> (r: Result<Observation, DumpError>)
    requires
        off + RECORD_BYTES <= bytes@.len(),
    ensures
        match r {
            Ok(o) => obs_bytes(o) == bytes@.subrange(off as int, off + RECORD_BYTES),
            Err(e) => e == DumpError::MalformedCache && !(1 <= bytes@[off + 20] <= 3),
        },
{
    let total = bytes.len();
    let sid = (bytes[off] as u64) | (bytes[off + 1] as u64) << 8 | (bytes[off + 2] as u64) << 16 | (
    bytes[off + 3] as u64) << 24 | (bytes[off + 4] as u64) << 32 | (bytes[off + 5] as u64) << 40 | (
    bytes[off + 6] as u64) << 48 | (bytes[off + 7] as u64) << 56;
    let t = read_u32_le(bytes, off + 8);
    let mag = read_u32_le(bytes, off + 12);
    let w = read_u32_le(bytes, off + 16);
    let code = bytes[off + 20];
    match Passband::try_from_code(code) {
        Some(passband) => {
            let o = Observation { sid, t, mag, w, passband };
            proof {
                lemma_u64_le_decode(
                    bytes@[off as int],
                    bytes@[off + 1],
                    bytes@[off + 2],
                    bytes@[off + 3],
                    bytes@[off + 4],
                    bytes@[off + 5],
                    bytes@[off + 6],
                    bytes@[off + 7],
                );
                assert(obs_bytes(o) =~= bytes@.subrange(off as int, off + RECORD_BYTES));
            }
            Ok(o)
        },
        None => Err(DumpError::MalformedCache),
    }
}

/// Reads a 32-bit little-endian word at byte offset `off`.
fn read_u32_le(bytes: &Vec<u8>, off: usize) -> (x: u32)
    requires
        off + 4 <= bytes@.len(),
    ensures
        u32_le(x) == bytes@.subrange(off as int, off + 4),
{
    let total = bytes.len();
    let x = (bytes[off] as u32) | (bytes[off + 1] as u32) << 8 | (bytes[off + 2] as u32) << 16 | (
    bytes[off + 3] as u32) << 24;
    proof {
        lemma_u32_le_decode(bytes@[off as int], bytes@[off + 1], bytes@[off + 2], bytes@[off + 3]);
        assert(u32_le(x) =~= bytes@.subrange(off as int, off + 4));
    }
    x
}

/// Resizable typed array of observation records. `records` is the
/// allocation; only the first `len` entries are valid data.
pub struct CacheStore {
    records: Vec<Observation>,
    len: usize,
}

impl View for CacheStore {
    type V = Seq<Observation>;

    /// The valid records: allocated padding past the logical length is not
    /// part of the store's contents.
    closed spec fn view(&self) -> Seq<Observation> {
        self.records@.take(self.len as int)
    }
}

impl CacheStore {
    /// The logical length never exceeds the allocation.
    pub closed spec fn wf(&self) -> bool {
        self.len <= self.records@.len()
    }

    /// Allocated record capacity, valid data and padding together.
    pub closed spec fn capacity_spec(&self) -> int {
        self.records@.len() as int
    }

    /// A store ready for writing: one chunk allocated, nothing written.
    pub fn new_for_write() -> (st: CacheStore)
        ensures
            st.wf(),
            st@ == Seq::<Observation>::empty(),
            st.capacity_spec() == CACHE_CHUNK,
    {
        let fill = Observation { sid: 0, t: 0, mag: 0, w: 0, passband: Passband::G };
        let mut records: Vec<Observation> = Vec::new();
        records.resize(CACHE_CHUNK, fill);
        let st = CacheStore { records, len: 0 };
        proof {
            assert(st@ =~= Seq::<Observation>::empty());
        }
        st
    }

    /// Number of valid records.
    pub fn len(&self) -> (n: usize)
        requires
            self.wf(),
        ensures
            n == self@.len(),
    {
        self.len
    }

    /// Allocated record capacity.
    pub fn capacity(&self) -> (n: usize)
        ensures
            n == self.capacity_spec(),
    {
        self.records.len()
    }

    /// Appends every observation of `source`, band-major. When the new
    /// logical length would exceed the allocation, the allocation grows by
    /// whole chunks up to the next chunk boundary that holds the new
    /// length; otherwise — a write that fits, even exactly — it stays as
    /// it was, and it never shrinks.
    pub fn write_source(&mut self, source: &Source)
        requires
            old(self).wf(),
            source.wf(),
            old(self)@.len() + source.total_len() <= usize::MAX - CACHE_CHUNK,
        ensures
            final(self).wf(),
            final(self)@ == old(self)@ + source@.obs_seq(),
            final(self)@.len() == old(self)@.len() + source.total_len(),
            old(self)@.len() + source.total_len() <= old(self).capacity_spec()
                ==> final(self).capacity_spec() == old(self).capacity_spec(),
            old(self)@.len() + source.total_len() > old(self).capacity_spec() ==> {
                &&& final(self).capacity_spec() >= old(self)@.len() + source.total_len()
                &&& final(self).capacity_spec() - CACHE_CHUNK < old(self)@.len()
                    + source.total_len()
                &&& (final(self).capacity_spec() - old(self).capacity_spec()) % (
                CACHE_CHUNK as int) == 0
            },
    {
        let obs = source.iter_observations();
        proof {
            assert(source@.obs_seq().len() == source.total_len()) by {
                assert(source@.band_obs(0).len() == source.lc_g@.len());
                assert(source@.band_obs(1).len() == source.lc_r@.len());
                assert(source@.band_obs(2).len() == source.lc_i@.len());
            }
        }
        let n = obs.len();
        let end = self.len + n;
        let ghost cap0 = self.records@.len() as int;
        while self.records.len() < end
            invariant
                end <= usize::MAX - CACHE_CHUNK,
                self.len == old(self).len,
                self.len <= end,
                self.records@.take(self.len as int) == old(self)@,
                self.len <= self.records@.len(),
                cap0 <= self.records@.len(),
                (self.records@.len() - cap0) % (CACHE_CHUNK as int) == 0,
                cap0 < end || self.records@.len() == cap0,
                self.records@.len() < end + CACHE_CHUNK || self.records@.len() == cap0,
            decreases end + CACHE_CHUNK - self.records@.len(),
        {
            let fill = Observation { sid: 0, t: 0, mag: 0, w: 0, passband: Passband::G };
            let ghost before = self.records@;
            let new_cap = self.records.len() + CACHE_CHUNK;
            self.records.resize(new_cap, fill);
            proof {
                assert(self.records@.subrange(0, before.len() as int) == before);
                assert(self.records@.take(self.len as int) =~= before.take(self.len as int));
            }
        }
        let ghost grown = self.records@.len() as int;
        let mut k: usize = 0;
        while k < n
            invariant
                k <= n,
                n == obs@.len(),
                obs@ == source@.obs_seq(),
                self.len == old(self).len + k,
                end == old(self).len + n,
                end <= self.records@.len(),
                self.records@.len() == grown,
                self.records@.take(self.len as int) == old(self)@ + obs@.take(k as int),
            decreases n - k,
        {
            let ghost before = self.records@;
            let target = self.len;
            self.records[target] = obs[k];
            self.len += 1;
            proof {
                assert(self.records@.take(target as int) =~= before.take(target as int));
                assert(self.records@.take(self.len as int) =~= self.records@.take(
                    target as int,
                ).push(obs@[k as int]));
                assert(old(self)@ + obs@.take(k + 1) =~= (old(self)@ + obs@.take(k as int)).push(
                    obs@[k as int],
                ));
            }
            k += 1;
        }
        proof {
            assert(obs@.take(n as int) =~= obs@);
        }
    }

    /// Releases the writer: the allocation is truncated to exactly the
    /// logical length, leaving no trailing padding records.
    pub fn finish(&mut self)
        requires
            old(self).wf(),
        ensures
            final(self).wf(),
            final(self)@ == old(self)@,
            final(self).capacity_spec() == old(self)@.len(),
    {
        let len = self.len;
        self.records.truncate(len);
        proof {
            assert(self.records@ =~= old(self)@);
            assert(self@ =~= old(self)@);
        }
    }

    /// The store's on-disk image: every valid record, back to back, in
    /// fixed-width little-endian form. Padding past the logical length is
    /// not written.
    pub fn to_bytes(&self) -> (r: Vec<u8>)
        requires
            self.wf(),
            self@.len() * RECORD_BYTES <= usize::MAX,
        ensures
            r@ == records_bytes(self@),
            r@.len() == self@.len() * RECORD_BYTES,
    {
        let mut r: Vec<u8> = Vec::new();
        let n = self.len;
        let mut k: usize = 0;
        proof {
            lemma_records_bytes_len(self@);
        }
        while k < n
            invariant
                k <= n,
                self.wf(),
                n == self@.len(),
                self@.len() * RECORD_BYTES <= usize::MAX,
                r@ == records_bytes(self@.take(k as int)),
                r@.len() == k * RECORD_BYTES,
            decreases n - k,
        {
            let rec = encode_observation(&self.records[k]);
            let ghost r_before = r@;
            let mut rec = rec;
            r.append(&mut rec);
            proof {
                assert(self@.take(k + 1).drop_last() =~= self@.take(k as int));
                assert(self@.take(k + 1).last() == self@[k as int]);
                assert(r@ == records_bytes(self@.take(k + 1)));
                lemma_records_bytes_len(self@.take(k + 1));
                assert((k + 1) * RECORD_BYTES == k * RECORD_BYTES + RECORD_BYTES) by (nonlinear_arith);
                assert(k * RECORD_BYTES <= n * RECORD_BYTES) by (nonlinear_arith)
                    requires
                        0 <= k < n,
                        RECORD_BYTES > 0,
                ;
            }
            k += 1;
        }
        proof {
            assert(self@.take(n as int) =~= self@);
        }
        r
    }

    /// Reads a store back from its on-disk image: succeeds exactly where
    /// the image is whole, valid records, and then holds precisely the
    /// records whose image the bytes are, with no spare allocation.
    pub fn from_bytes(bytes: &Vec<u8>) -> (r: Result<CacheStore, DumpError>)
        ensures
            r is Ok <==> cache_bytes_valid(bytes@),
            match r {
                Ok(st) => {
                    &&& st.wf()
                    &&& records_bytes(st@) == bytes@
                    &&& st@.len() * RECORD_BYTES == bytes@.len()
                    &&& st.capacity_spec() == st@.len()
                },
                Err(e) => e == DumpError::MalformedCache,
            },
    {
        if bytes.len() % RECORD_BYTES != 0 {
            return Err(DumpError::MalformedCache);
        }
        let total = bytes.len();
        let n = total / RECORD_BYTES;
        let mut records: Vec<Observation> = Vec::new();
        let mut k: usize = 0;
        proof {
            assert(n * RECORD_BYTES == bytes@.len());
            assert(n == bytes@.len() as int / (RECORD_BYTES as int)) by (nonlinear_arith)
                requires
                    n * RECORD_BYTES == bytes@.len(),
                    RECORD_BYTES == 21,
            ;
        }
        while k < n
            invariant
                k <= n,
                n * RECORD_BYTES == bytes@.len(),
                n == bytes@.len() as int / (RECORD_BYTES as int),
                records@.len() == k,
                records_bytes(records@) == bytes@.take(k as int * RECORD_BYTES),
                forall|j: int| 0 <= j < k ==> #[trigger] record_code_valid(bytes@, j),
            decreases n - k,
        {
            proof {
                assert((k + 1) * RECORD_BYTES <= n * RECORD_BYTES && k * RECORD_BYTES + RECORD_BYTES
                    == (k + 1) * RECORD_BYTES) by (nonlinear_arith)
                    requires
                        0 <= k < n,
                        RECORD_BYTES > 0,
                ;
            }
            let off = k * RECORD_BYTES;
            match decode_observation(bytes, off) {
                Ok(o) => {
                    let ghost recs_before = records@;
                    records.push(o);
                    proof {
                        assert(records@.drop_last() =~= recs_before);
                        assert(records_bytes(records@) == records_bytes(recs_before) + obs_bytes(
                            o,
                        ));
                        assert(bytes@.take((k + 1) as int * RECORD_BYTES) =~= bytes@.take(
                            k as int * RECORD_BYTES,
                        ) + bytes@.subrange(off as int, off + RECORD_BYTES));
                        assert(record_code_valid(bytes@, k as int)) by {
                            assert(obs_bytes(o)[20] == o.passband.code_spec());
                            assert(bytes@[off + 20] == bytes@.subrange(
                                off as int,
                                off + RECORD_BYTES,
                            )[20]);
                            assert(1 <= o.passband.code_spec() <= 3);
                        }
                    }
                    k += 1;
                },
                Err(e) => {
                    proof {
                        assert(!record_code_valid(bytes@, k as int));
                        assert(!cache_bytes_valid(bytes@));
                    }
                    return Err(e);
                },
            }
        }
        let st = CacheStore { records, len: n };
        proof {
            assert(st@ =~= st.records@);
            assert(bytes@.take(n as int * RECORD_BYTES) =~= bytes@);
            assert(cache_bytes_valid(bytes@));
        }
        Ok(st)
    }
}

/// Each record contributes its fixed width to the image.
pub proof fn lemma_records_bytes_len(rs: Seq<Observation>)
    ensures
        records_bytes(rs).len() == rs.len() * RECORD_BYTES,
    decreases rs.len(),
{
    if rs.len() == 0 {
    } else {
        lemma_records_bytes_len(rs.drop_last());
        assert(obs_bytes(rs.last()).len() == RECORD_BYTES);
        assert((rs.len() - 1) * RECORD_BYTES + RECORD_BYTES == rs.len() * RECORD_BYTES)
            by (nonlinear_arith);
    }
}

/// Forward-only, buffered reader over a finalized store: hands the valid
/// records out in order, loading fixed-size slices internally, and never
/// reads past the logical length even where the allocation is larger.
pub struct CacheReader {
    store: CacheStore,
    pos: usize,
    buffer: Vec<Observation>,
    buffer_index: usize,
}

impl CacheReader {
    /// Records handed out so far.
    pub closed spec fn position(&self) -> int {
        self.pos as int
    }

    /// The records this reader walks.
    pub closed spec fn contents(&self) -> Seq<Observation> {
        self.store@
    }

    /// The buffer mirrors a loaded slice of the store around the cursor.
    pub closed spec fn wf(&self) -> bool {
        &&& self.store.wf()
        &&& self.buffer_index <= self.buffer@.len()
        &&& self.pos <= self.store@.len()
        &&& self.pos >= self.buffer_index
        &&& self.pos - self.buffer_index + self.buffer@.len() <= self.store@.len()
        &&& self.buffer@ == self.store@.subrange(
            self.pos - self.buffer_index,
            self.pos - self.buffer_index + self.buffer@.len(),
        )
    }

    /// A reader at the start of the store.
    pub fn new(store: CacheStore) -> (rd: CacheReader)
        requires
            store.wf(),
        ensures
            rd.wf(),
            rd.contents() == store@,
            rd.position() == 0,
    {
        let rd = CacheReader { store, pos: 0, buffer: Vec::new(), buffer_index: 0 };
        proof {
            assert(rd.buffer@ =~= rd.store@.subrange(0, 0));
        }
        rd
    }

    /// The next record, in store order, or `None` past the logical length.
    pub fn next(&mut self) -> (r: Option<Observation>)
        requires
            old(self).wf(),
        ensures
            final(self).wf(),
            final(self).contents() == old(self).contents(),
            old(self).position() < old(self).contents().len() ==> r == Some(
                old(self).contents()[old(self).position()],
            ) && final(self).position() == old(self).position() + 1,
            old(self).position() >= old(self).contents().len()
                ==> r is None && final(self).position() == old(self).position(),
    {
        let total = self.store.len();
        if self.pos >= total {
            return None;
        }
        if self.buffer_index >= self.buffer.len() {
            // load the next fixed-size slice, clipped to the logical length
            let begin = self.pos;
            let end = if total - begin >= CACHE_CHUNK {
                begin + CACHE_CHUNK
            } else {
                total
            };
            let mut buffer: Vec<Observation> = Vec::new();
            let mut k: usize = begin;
            while k < end
                invariant
                    begin <= k <= end <= self.store@.len(),
                    self.store.wf(),
                    buffer@ == self.store@.subrange(begin as int, k as int),
                decreases end - k,
            {
                buffer.push(self.store.record_at(k));
                proof {
                    assert(buffer@ =~= self.store@.subrange(begin as int, k + 1));
                }
                k += 1;
            }
            self.buffer = buffer;
            self.buffer_index = 0;
        }
        let o = self.buffer[self.buffer_index];
        self.buffer_index += 1;
        self.pos += 1;
        proof {
            assert(o == self.store@[self.pos - 1]);
        }
        Some(o)
    }
}

impl CacheStore {
    /// The valid record at position `k`.
    fn record_at(&self, k: usize) -> (o: Observation)
        requires
            self.wf(),
            k < self@.len(),
        ensures
            o == self@[k as int],
    {
        self.records[k]
    }
}

/// Reads every valid record of a store, in order, through the buffered
/// reader.
pub fn read_all(store: CacheStore) -> (r: Vec<Observation>)
    requires
        store.wf(),
    ensures
        r@ == store@,
{
    let ghost contents = store@;
    let mut rd = CacheReader::new(store);
    let mut r: Vec<Observation> = Vec::new();
    loop
        invariant
            rd.wf(),
            rd.contents() == contents,
            rd.position() == r@.len(),
            r@ == contents.take(rd.position()),
        decreases contents.len() - rd.position(),
    {
        match rd.next() {
            Some(o) => {
                r.push(o);
                proof {
                    assert(r@ =~= contents.take(rd.position()));
                }
            },
            None => {
                proof {
                    assert(contents.take(rd.position()) =~= contents);
                }
                return r;
            },
        }
    }
}

/// Reconstructs the source sequence a finalized store holds: the cached
/// records grouped by id, with the caller's sorted claim, since the cache
/// was written source by source with each band already in curve order.
pub fn read_sources(store: CacheStore) -> (r: Vec<Source>)
    requires
        store.wf(),
    ensures
        crate::group::sources_match(r@, store@, true),
{
    let observations = read_all(store);
    crate::group::group_observations(observations, true)
}

/// What one run does with its cache: read and write are mutually
/// exclusive per run.
#[derive(Clone, Copy, PartialEq, Eq, Structural, Debug)]
pub enum CacheMode {
    /// A valid cache exists for this query: it is the run's sole input.
    ReadBack,
    /// No cache exists yet: read the database and populate a fresh cache.
    Populate,
}

/// Decides the run's cache mode from the stored query text, if a cache
/// exists: an existing cache is read back exactly when its stored query
/// equals the requested one; with none, a fresh cache is populated; a
/// mismatch is fatal before any source is produced or output written.
pub fn cache_mode(stored_query: Option<&Vec<u8>>, requested: &Vec<u8>) -> (r: Result<
    CacheMode,
    DumpError,
>)
    ensures
        match r {
            Ok(CacheMode::ReadBack) => stored_query matches Some(s) && s@ == requested@,
            Ok(CacheMode::Populate) => stored_query is None,
            Err(e) => e == DumpError::QuerySignatureMismatch && (stored_query matches Some(s)
                && s@ != requested@),
        },
{
    match stored_query {
        Some(stored) => match check_query(stored, requested) {
            Ok(()) => Ok(CacheMode::ReadBack),
            Err(e) => Err(e),
        },
        None => Ok(CacheMode::Populate),
    }
}

/// Compares a cache's stored query text against the requested one,
/// byte for byte: `Ok` exactly on equality, else the signature-mismatch
/// error. A cache produced by a different query is never served.
pub fn check_query(stored: &Vec<u8>, requested: &Vec<u8>) -> (r: Result<(), DumpError>)
    ensures
        r is Ok <==> stored@ == requested@,
        r is Err ==> r->Err_0 == DumpError::QuerySignatureMismatch,
{
    if stored.len() != requested.len() {
        proof {
            assert(stored@ != requested@);
        }
        return Err(DumpError::QuerySignatureMismatch);
    }
    let n = stored.len();
    let mut k: usize = 0;
    while k < n
        invariant
            k <= n,
            n == stored@.len() && n == requested@.len(),
            forall|i: int| 0 <= i < k ==> stored@[i] == requested@[i],
        decreases n - k,
    {
        if stored[k] != requested[k] {
            return Err(DumpError::QuerySignatureMismatch);
        }
        k += 1;
    }
    proof {
        assert(stored@ =~= requested@);
    }
    Ok(())
}


/// The observation stream a sequence of sources writes to the cache: each
/// source's observations, band-major, sources in writer order.
pub open spec fn models_obs_seq(ms: Seq<SourceModel>) -> Seq<Observation> {
    ms.map_values(|m: SourceModel| m.obs_seq()).flatten()
}

/// Filtering keeps a stream whose every observation is of band `b` whole.
proof fn lemma_band_filter_all(q: Seq<Observation>, b: int)
    requires
        forall|i: int| 0 <= i < q.len() ==> (#[trigger] q[i]).band() == b,
    ensures
        q.filter(|o: Observation| o.band() == b) == q,
    decreases q.len(),
{
    reveal(Seq::filter);
    if q.len() == 0 {
        assert(q.filter(|o: Observation| o.band() == b) =~= q);
    } else {
        lemma_band_filter_all(q.drop_last(), b);
        assert(q.filter(|o: Observation| o.band() == b) =~= q.drop_last().push(q.last()));
        assert(q.drop_last().push(q.last()) =~= q);
    }
}

/// Filtering drops a stream none of whose observations is of band `b`.
proof fn lemma_band_filter_none(q: Seq<Observation>, b: int)
    requires
        forall|i: int| 0 <= i < q.len() ==> (#[trigger] q[i]).band() != b,
    ensures
        q.filter(|o: Observation| o.band() == b) == Seq::<Observation>::empty(),
    decreases q.len(),
{
    reveal(Seq::filter);
    if q.len() == 0 {
        assert(q.filter(|o: Observation| o.band() == b) =~= Seq::<Observation>::empty());
    } else {
        lemma_band_filter_none(q.drop_last(), b);
    }
}

/// Reading one source's cache image back picks each band out whole: the
/// band subsequence of the written stream is exactly the stored curve.
proof fn lemma_model_band_recovered(m: SourceModel, b: int)
    requires
        0 <= b < 3,
        m.lcs.len() == 3,
    ensures
        run_band_samples(m.obs_seq(), b) == m.lcs[b],
{
    let pred = |o: Observation| o.band() == b;
    let bo0 = m.band_obs(0);
    let bo1 = m.band_obs(1);
    let bo2 = m.band_obs(2);
    Seq::filter_distributes_over_add(bo0 + bo1, bo2, pred);
    Seq::filter_distributes_over_add(bo0, bo1, pred);
    assert forall|bp: int| 0 <= bp < 3 implies (if bp == b {
        m.band_obs(bp).filter(pred) == m.band_obs(bp)
    } else {
        m.band_obs(bp).filter(pred) == Seq::<Observation>::empty()
    }) by {
        assert(crate::lc::band_passband(bp).lcs_index_spec() == bp);
        assert forall|i: int| 0 <= i < m.band_obs(bp).len() implies (
        #[trigger] m.band_obs(bp)[i]).band() == bp by {}
        if bp == b {
            lemma_band_filter_all(m.band_obs(bp), b);
        } else {
            lemma_band_filter_none(m.band_obs(bp), b);
        }
    }
    assert(m.obs_seq().filter(pred) == m.band_obs(b));
    assert(m.band_obs(b).map_values(|o: Observation| o.sample()) =~= m.lcs[b]);
}

/// A flat stream built of nonempty one-id blocks whose neighbouring ids
/// differ splits back into exactly those blocks.
proof fn lemma_blocks_runs(blocks: Seq<Seq<Observation>>)
    requires
        forall|k: int| 0 <= k < blocks.len() ==> run_uniform(#[trigger] blocks[k]),
        forall|k1: int, k2: int|
            #![trigger blocks[k1], blocks[k2]]
            0 <= k1 < blocks.len() && k2 == k1 + 1 && k2 < blocks.len() ==> blocks[k1][0].sid
                != blocks[k2][0].sid,
    ensures
        runs(blocks.flatten()) == blocks,
    decreases blocks.len(),
{
    if blocks.len() == 0 {
        assert(runs(blocks.flatten()) =~= blocks);
    } else {
        let flat = blocks.flatten();
        let rest = blocks.drop_first();
        assert(run_uniform(blocks[0]));
        let m = blocks[0].len() as int;
        assert(flat == blocks[0] + rest.flatten());
        assert forall|i: int| 0 <= i < m implies (#[trigger] flat[i]).sid == flat[0].sid by {
            assert(flat[i] == blocks[0][i]);
        }
        if rest.len() > 0 {
            assert(run_uniform(blocks[1]));
            assert(rest.flatten() == rest[0] + rest.drop_first().flatten());
            assert(rest.flatten()[0] == rest[0][0]);
            assert(flat[m] == rest.flatten()[0]);
            assert(flat[m].sid != flat[0].sid);
        }
        assert(flat.len() == m + rest.flatten().len());
        lemma_run_len_of_prefix(flat, m);
        lemma_blocks_runs(rest);
        assert(flat.take(m) =~= blocks[0]);
        assert(flat.skip(m) =~= rest.flatten());
        assert(runs(flat) == seq![flat.take(m)] + runs(flat.skip(m)));
        assert(runs(flat) =~= blocks);
    }
}

/// Cache round trip: writing the grouped sources of a stream to the store
/// and re-grouping what the store holds (with no sorted claim) gives back
/// exactly the same sources, id by id and curve by curve.
#[verifier::rlimit(100)]
pub proof fn lemma_cache_round_trip(s: Seq<Observation>)
    ensures
        group_model(models_obs_seq(group_model(s, false)), false) == group_model(s, false),
{
    let rs = runs(s);
    let ms = group_model(s, false);
    let blocks = ms.map_values(|m: SourceModel| m.obs_seq());
    lemma_runs_wf(s);
    crate::group::lemma_grouping_counts(s, false);
    assert forall|k: int| 0 <= k < blocks.len() implies run_uniform(#[trigger] blocks[k]) by {
        let m = ms[k];
        assert(m == run_model(rs[k], false));
        lemma_run_band_partition(rs[k]);
        assert(crate::group::model_total_len(m) == rs[k].len());
        assert(blocks[k].len() == m.lcs[0].len() + m.lcs[1].len() + m.lcs[2].len()) by {
            assert(m.band_obs(0).len() == m.lcs[0].len());
            assert(m.band_obs(1).len() == m.lcs[1].len());
            assert(m.band_obs(2).len() == m.lcs[2].len());
        }
        assert(blocks[k].len() > 0);
        assert forall|i: int| 0 <= i < blocks[k].len() implies (#[trigger] blocks[k][i]).sid
            == blocks[k][0].sid by {
            assert(blocks[k] == m.band_obs(0) + m.band_obs(1) + m.band_obs(2));
        }
    }
    assert forall|k1: int, k2: int|
        #![trigger blocks[k1], blocks[k2]]
        0 <= k1 < blocks.len() && k2 == k1 + 1 && k2 < blocks.len() implies blocks[k1][0].sid
        != blocks[k2][0].sid by {
        assert(blocks[k1][0].sid == ms[k1].sid && blocks[k2][0].sid == ms[k2].sid) by {
            assert(blocks[k1] == ms[k1].obs_seq() && blocks[k2] == ms[k2].obs_seq());
        }
        assert(ms[k1].sid == rs[k1][0].sid && ms[k2].sid == rs[k2][0].sid);
    }
    lemma_blocks_runs(blocks);
    let c = models_obs_seq(ms);
    assert(c == blocks.flatten());
    assert(runs(c) == blocks);
    assert forall|k: int| 0 <= k < ms.len() implies #[trigger] group_model(c, false)[k]
        == ms[k] by {
        let m = ms[k];
        assert(m == run_model(rs[k], false));
        assert(m.lcs.len() == 3);
        assert(group_model(c, false)[k] == run_model(blocks[k], false));
        assert(blocks[k] == m.obs_seq());
        assert(blocks[k][0].sid == m.sid);
        assert forall|b: int| 0 <= b < 3 implies crate::group::run_lc(blocks[k], b, false)
            == m.lcs[b] by {
            lemma_model_band_recovered(m, b);
            assert(time_sorted(m.lcs[b])) by {
                lemma_sort_by_time_sorted(run_band_samples(rs[k], b));
            }
            lemma_sort_by_time_identity(m.lcs[b]);
        }
        assert(run_model(blocks[k], false).lcs =~= m.lcs);
        assert(run_model(blocks[k], false) =~~= m);
    }
    assert(group_model(c, false) =~= ms);
}
} // verus!
