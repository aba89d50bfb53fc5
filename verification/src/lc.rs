//! Record model: one measurement (`Observation`), one band's time series
//! (`LightCurve`), and one object's per-band series (`Source`).
use vstd::prelude::*;

use crate::sorting::{sort_by_time, sort_samples};

verus! {

/// Photometric filter band: a closed set of exactly three variants with
/// stable integer codes 1, 2, 3 and single-character labels.
#[derive(Clone, Copy, PartialEq, Eq, Structural, Debug)]
pub enum Passband {
    G,
    R,
    I,
}

impl Passband {
    /// Position of this band inside a `Source`'s light-curve triple.
    pub open spec fn lcs_index_spec(self) -> int {
        match self {
            Passband::G => 0,
            Passband::R => 1,
            Passband::I => 2,
        }
    }

    /// Stable integer code of this band.
    pub open spec fn code_spec(self) -> u8 {
        match self {
            Passband::G => 1,
            Passband::R => 2,
            Passband::I => 3,
        }
    }

    /// Single-character display label of this band.
    pub open spec fn label_spec(self) -> char {
        match self {
            Passband::G => 'g',
            Passband::R => 'r',
            Passband::I => 'i',
        }
    }

    /// How many bands there are.
    pub fn n_filters() -> (n: usize)
        ensures
            n == 3,
    {
        3
    }

    /// Position of this band inside a `Source`'s light-curve triple.
    pub fn lcs_index(self) -> (i: usize)
        ensures
            i == self.lcs_index_spec(),
    {
        match self {
            Passband::G => 0,
            Passband::R => 1,
            Passband::I => 2,
        }
    }

    /// The band sitting at position `i` of the light-curve triple.
    pub fn from_lcs_index(i: usize) -> (p: Passband)
        requires
            i < 3,
        ensures
            p.lcs_index_spec() == i,
    {
        if i == 0 {
            Passband::G
        } else if i == 1 {
            Passband::R
        } else {
            Passband::I
        }
    }

    /// Stable integer code of this band.
    pub fn code(self) -> (c: u8)
        ensures
            c == self.code_spec(),
    {
        match self {
            Passband::G => 1,
            Passband::R => 2,
            Passband::I => 3,
        }
    }

    /// The band with integer code `code`; the caller has already rejected
    /// any other code.
    pub fn from_code(code: u8) -> (p: Passband)
        requires
            1 <= code <= 3,
        ensures
            p.code_spec() == code,
    {
        if code == 1 {
            Passband::G
        } else if code == 2 {
            Passband::R
        } else {
            Passband::I
        }
    }

    /// The band with integer code `code`, or `None` exactly on the codes
    /// outside the closed set.
    pub fn try_from_code(code: u8) -> (r: Option<Passband>)
        ensures
            match r {
                Some(p) => p.code_spec() == code,
                None => !(1 <= code <= 3),
            },
    {
        if 1 <= code && code <= 3 {
            Some(Self::from_code(code))
        } else {
            None
        }
    }

    /// Single-character display label of this band.
    pub fn label(self) -> (c: char)
        ensures
            c == self.label_spec(),
    {
        match self {
            Passband::G => 'g',
            Passband::R => 'r',
            Passband::I => 'i',
        }
    }

    /// The band labelled `c`, or `None` exactly on unknown labels.
    pub fn from_label(c: char) -> (r: Option<Passband>)
        ensures
            match r {
                Some(p) => p.label_spec() == c,
                None => c != 'g' && c != 'r' && c != 'i',
            },
    {
        if c == 'g' {
            Some(Passband::G)
        } else if c == 'r' {
            Some(Passband::R)
        } else if c == 'i' {
            Some(Passband::I)
        } else {
            None
        }
    }
}

/// One point of one light curve: the three 32-bit sample words.
#[derive(Clone, Copy, PartialEq, Eq, Structural, Debug)]
pub struct Sample {
    /// Order-preserving integer time key.
    pub t: u32,
    /// Magnitude, an opaque 32-bit word.
    pub mag: u32,
    /// Weight (inverse squared uncertainty), an opaque 32-bit word.
    pub w: u32,
}

/// One brightness measurement of one object in one band.
///
/// `t` is an order-preserving integer key for the measurement time relative
/// to a fixed epoch; `mag` and `w` carry the magnitude and its weight as
/// opaque 32-bit words, computed once at ingestion.
#[derive(Clone, Copy, PartialEq, Eq, Structural, Debug)]
pub struct Observation {
    /// Identifier of the observed object.
    pub sid: u64,
    /// Order-preserving integer time key.
    pub t: u32,
    /// Magnitude word.
    pub mag: u32,
    /// Weight word.
    pub w: u32,
    /// Band the measurement was taken in.
    pub passband: Passband,
}

impl Observation {
    /// The per-band part of the measurement: everything but id and band.
    pub open spec fn sample(self) -> Sample {
        Sample { t: self.t, mag: self.mag, w: self.w }
    }

    /// Position of this measurement's band in the light-curve triple.
    pub open spec fn band(self) -> int {
        self.passband.lcs_index_spec()
    }
}

/// Three parallel ordered sequences of equal length, all belonging to one
/// band of one source.
#[derive(Clone, Debug)]
pub struct LightCurve {
    /// Time keys.
    pub t: Vec<u32>,
    /// Magnitude words.
    pub mag: Vec<u32>,
    /// Weight words.
    pub w: Vec<u32>,
}

impl View for LightCurve {
    type V = Seq<Sample>;

    open spec fn view(&self) -> Seq<Sample> {
        Seq::new(self.t@.len(), |k: int| Sample { t: self.t@[k], mag: self.mag@[k], w: self.w@[k] })
    }
}

impl LightCurve {
    /// The three parallel sequences always have identical length.
    pub open spec fn wf(&self) -> bool {
        self.t@.len() == self.mag@.len() && self.t@.len() == self.w@.len()
    }

    /// An empty light curve.
    pub fn new() -> (lc: LightCurve)
        ensures
            lc.wf(),
            lc@ == Seq::<Sample>::empty(),
    {
        let lc = LightCurve { t: Vec::new(), mag: Vec::new(), w: Vec::new() };
        proof {
            assert(lc@ =~= Seq::<Sample>::empty());
        }
        lc
    }

    /// Number of points in this curve.
    pub fn len(&self) -> (n: usize)
        requires
            self.wf(),
        ensures
            n == self@.len(),
    {
        self.t.len()
    }

    /// Appends one measurement's sample words; all three sequences grow
    /// together, never partially.
    pub fn push_observation(&mut self, obs: &Observation)
        requires
            old(self).wf(),
        ensures
            final(self).wf(),
            final(self)@ == old(self)@.push(obs.sample()),
    {
        self.t.push(obs.t);
        self.mag.push(obs.mag);
        self.w.push(obs.w);
        proof {
            assert(self@ =~= old(self)@.push(obs.sample()));
        }
    }

    /// Sorts the curve jointly by time key, ascending and stable: magnitude
    /// and weight words are permuted identically with their time.
    pub fn sort(&mut self)
        requires
            old(self).wf(),
        ensures
            final(self).wf(),
            final(self)@ == sort_by_time(old(self)@),
    {
        let n = self.t.len();
        let mut samples: Vec<Sample> = Vec::new();
        let mut k: usize = 0;
        while k < n
            invariant
                n == self.t@.len(),
                self == old(self),
                self.wf(),
                k <= n,
                samples@ == self@.take(k as int),
            decreases n - k,
        {
            samples.push(Sample { t: self.t[k], mag: self.mag[k], w: self.w[k] });
            proof {
                assert(samples@ =~= self@.take(k + 1));
            }
            k += 1;
        }
        proof {
            assert(samples@ =~= self@);
        }
        let sorted = sort_samples(samples);
        let mut t: Vec<u32> = Vec::new();
        let mut mag: Vec<u32> = Vec::new();
        let mut w: Vec<u32> = Vec::new();
        let m = sorted.len();
        let mut k: usize = 0;
        while k < m
            invariant
                m == sorted@.len(),
                k <= m,
                t@.len() == k && mag@.len() == k && w@.len() == k,
                forall|j: int|
                    0 <= j < k ==> t@[j] == sorted@[j].t && mag@[j] == sorted@[j].mag && w@[j]
                        == sorted@[j].w,
            decreases m - k,
        {
            t.push(sorted[k].t);
            mag.push(sorted[k].mag);
            w.push(sorted[k].w);
            k += 1;
        }
        self.t = t;
        self.mag = mag;
        self.w = w;
        proof {
            assert(self@ =~= sorted@);
        }
    }
}

/// Ghost image of a `Source`: its id and the three per-band sample
/// sequences, indexed by band position.
pub ghost struct SourceModel {
    /// Identifier of the object.
    pub sid: u64,
    /// One sample sequence per band, in band-index order; always length 3.
    pub lcs: Seq<Seq<Sample>>,
}

/// One object's measurements: exactly one light curve per band, indexed by
/// the band's position. The id never changes over the object's lifetime.
#[derive(Clone, Debug)]
pub struct Source {
    /// Identifier of the object.
    pub sid: u64,
    /// Light curve of band `G`.
    pub lc_g: LightCurve,
    /// Light curve of band `R`.
    pub lc_r: LightCurve,
    /// Light curve of band `I`.
    pub lc_i: LightCurve,
}

impl View for Source {
    type V = SourceModel;

    open spec fn view(&self) -> SourceModel {
        SourceModel { sid: self.sid, lcs: seq![self.lc_g@, self.lc_r@, self.lc_i@] }
    }
}

impl Source {
    /// All three curves are well formed.
    pub open spec fn wf(&self) -> bool {
        self.lc_g.wf() && self.lc_r.wf() && self.lc_i.wf()
    }

    /// The sample sequence of the band at position `b`.
    pub open spec fn lc_seq(&self, b: int) -> Seq<Sample> {
        self@.lcs[b]
    }

    /// Total number of measurements over all bands.
    pub open spec fn total_len(&self) -> int {
        self.lc_g@.len() + self.lc_r@.len() + self.lc_i@.len() as int
    }

    /// A source with id `sid` and no measurements yet.
    pub fn new(sid: u64) -> (s: Source)
        ensures
            s.wf(),
            s.sid == sid,
            s@.lcs =~= seq![Seq::<Sample>::empty(), Seq::<Sample>::empty(), Seq::<Sample>::empty()],
    {
        Source { sid, lc_g: LightCurve::new(), lc_r: LightCurve::new(), lc_i: LightCurve::new() }
    }

    /// The light curve of `passband`.
    pub fn lc(&self, passband: Passband) -> (lc: &LightCurve)
        ensures
            lc@ == self.lc_seq(passband.lcs_index_spec()),
            lc.wf() == match passband {
                Passband::G => self.lc_g.wf(),
                Passband::R => self.lc_r.wf(),
                Passband::I => self.lc_i.wf(),
            },
    {
        match passband {
            Passband::G => &self.lc_g,
            Passband::R => &self.lc_r,
            Passband::I => &self.lc_i,
        }
    }

    /// Mutable access to the light curve of `passband`: the returned curve
    /// starts as that band's current curve, and whatever the caller leaves
    /// in it becomes that band's curve, the other bands and the id
    /// untouched.
    pub fn lc_mut(&mut self, passband: Passband) -> (lc: &mut LightCurve)
        ensures
            *lc == (match passband {
                Passband::G => old(self).lc_g,
                Passband::R => old(self).lc_r,
                Passband::I => old(self).lc_i,
            }),
            final(self).sid == old(self).sid,
            final(self).lc_g == (if passband is G {
                *final(lc)
            } else {
                old(self).lc_g
            }),
            final(self).lc_r == (if passband is R {
                *final(lc)
            } else {
                old(self).lc_r
            }),
            final(self).lc_i == (if passband is I {
                *final(lc)
            } else {
                old(self).lc_i
            }),
    {
        match passband {
            Passband::G => &mut self.lc_g,
            Passband::R => &mut self.lc_r,
            Passband::I => &mut self.lc_i,
        }
    }

    /// Appends one measurement to the curve of its own band; the other
    /// curves and the id are untouched.
    pub fn push_observation(&mut self, obs: &Observation)
        requires
            old(self).wf(),
        ensures
            final(self).wf(),
            final(self).sid == old(self).sid,
            final(self)@.lcs =~= old(self)@.lcs.update(obs.band(), old(self).lc_seq(obs.band()).push(obs.sample())),
    {
        match obs.passband {
            Passband::G => self.lc_g.push_observation(obs),
            Passband::R => self.lc_r.push_observation(obs),
            Passband::I => self.lc_i.push_observation(obs),
        }
    }

    /// Sorts every band's curve jointly by time key, ascending and stable.
    pub fn sort(&mut self)
        requires
            old(self).wf(),
        ensures
            final(self).wf(),
            final(self).sid == old(self).sid,
            final(self)@.lcs =~= Seq::new(3, |b: int| sort_by_time(old(self).lc_seq(b))),
    {
        self.lc_g.sort();
        self.lc_r.sort();
        self.lc_i.sort();
    }

    /// Total number of measurements over all bands.
    pub fn len(&self) -> (n: usize)
        requires
            self.wf(),
            self.total_len() <= usize::MAX,
        ensures
            n == self.total_len(),
    {
        self.lc_g.len() + self.lc_r.len() + self.lc_i.len()
    }
}


/// The band at position `b` of the light-curve triple.
pub open spec fn band_passband(b: int) -> Passband {
    if b == 0 {
        Passband::G
    } else if b == 1 {
        Passband::R
    } else {
        Passband::I
    }
}

impl SourceModel {
    /// The band-`b` samples turned back into observations of this source.
    pub open spec fn band_obs(self, b: int) -> Seq<Observation> {
        self.lcs[b].map_values(
            |sam: Sample|
                Observation {
                    sid: self.sid,
                    t: sam.t,
                    mag: sam.mag,
                    w: sam.w,
                    passband: band_passband(b),
                },
        )
    }

    /// All observations of this source, band-major: band `G`, then `R`,
    /// then `I`, each band in curve order.
    pub open spec fn obs_seq(self) -> Seq<Observation> {
        self.band_obs(0) + self.band_obs(1) + self.band_obs(2)
    }
}

impl Source {
    /// All measurements of this source as observations, band-major: each
    /// band's curve in order, bands in index order.
    pub fn iter_observations(&self) -> (r: Vec<Observation>)
        requires
            self.wf(),
        ensures
            r@ == self@.obs_seq(),
    {
        let mut r: Vec<Observation> = Vec::new();
        let mut b: usize = 0;
        while b < 3
            invariant
                b <= 3,
                self.wf(),
                r@ == if b == 0 {
                    Seq::<Observation>::empty()
                } else if b == 1 {
                    self@.band_obs(0)
                } else if b == 2 {
                    self@.band_obs(0) + self@.band_obs(1)
                } else {
                    self@.obs_seq()
                },
            decreases 3 - b,
        {
            let passband = Passband::from_lcs_index(b);
            let lc = self.lc(passband);
            let n = lc.len();
            let ghost r_start = r@;
            let mut k: usize = 0;
            while k < n
                invariant
                    k <= n,
                    self.wf(),
                    lc@ == self.lc_seq(b as int),
                    lc.wf(),
                    n == lc@.len(),
                    passband.lcs_index_spec() == b as int,
                    b < 3,
                    r@ == r_start + self@.band_obs(b as int).take(k as int),
                decreases n - k,
            {
                let obs = Observation {
                    sid: self.sid,
                    t: lc.t[k],
                    mag: lc.mag[k],
                    w: lc.w[k],
                    passband,
                };
                r.push(obs);
                proof {
                    assert(passband == band_passband(b as int));
                    assert(obs == self@.band_obs(b as int)[k as int]);
                    assert(r@ =~= r_start + self@.band_obs(b as int).take(k + 1));
                }
                k += 1;
            }
            proof {
                assert(self@.band_obs(b as int).take(n as int) =~= self@.band_obs(b as int));
            }
            b += 1;
        }
        r
    }
}
} // verus!
