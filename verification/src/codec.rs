//! Binary marshalling of frames, geometry, options and results.
//!
//! Everything crosses the boundary as little-endian packed buffers.  Layouts
//! (all integers `u32`, all reals binary64, little-endian):
//!
//! * **frames**: `[n_emp][n_samples]` then `n_emp × n_samples` PCM, row-major
//! * **geometry**: `[sample_rate_hz: real][n_emp: u32]` then `n_emp × 3` ECEF xyz
//! * **opts**: `[grid_extent_m][coarse_res_m][fine_res_m][min_peak_ratio]` (reals)
//!   then `[max_sources: u32]`
//! * **results**: `[n_src: u32]` then per source a fixed record of 21 reals:
//!   `xyz(3) | vel(3) | has_vel(1) | radial(1) | has_radial(1) | cov(9) |
//!   has_cov(1) | confidence(1) | dominant_hz(1)`
//!
//! Reals are held as their IEEE-754 bit patterns (`u64`).
use crate::binary64::{is_finite, spec_is_finite, ONE_BITS, ZERO_BITS};
use vstd::prelude::*;

verus! {

/// Number of real fields per encoded source record.
pub const SOURCE_FIELDS: usize = 21;

/// Upper bound on `max_sources` (also caps enumerated TDOA combinations).
pub const MAX_SOURCES_CAP: usize = 64;

/// Why a buffer could not be decoded.
#[derive(Debug)]
pub enum CodecError {
    /// The buffer ends before the value being read.
    Truncated,
    /// A header describes a payload whose size does not fit in memory.
    BadShape,
    /// A real value is NaN or infinite.
    NonFinite,
}

// ---------------------------------------------------------------------------
// Little-endian words
// ---------------------------------------------------------------------------

/// The little-endian `u32` stored at byte offset `p` of `s`.
pub open spec fn le_u32(s: Seq<u8>, p: int) -> nat {
    (s[p] + s[p + 1] * 0x100 + s[p + 2] * 0x1_0000 + s[p + 3] * 0x100_0000) as nat
}

/// The little-endian `u64` stored at byte offset `p` of `s`.
pub open spec fn le_u64(s: Seq<u8>, p: int) -> nat {
    le_u32(s, p) + le_u32(s, p + 4) * 0x1_0000_0000
}

/// The four little-endian bytes of `v`.
pub open spec fn u32_bytes(v: u32) -> Seq<u8> {
    seq![
        (v % 0x100) as u8,
        ((v / 0x100) % 0x100) as u8,
        ((v / 0x1_0000) % 0x100) as u8,
        ((v / 0x100_0000) % 0x100) as u8,
    ]
}

/// The eight little-endian bytes of `v`.
pub open spec fn u64_bytes(v: u64) -> Seq<u8> {
    u32_bytes((v % 0x1_0000_0000) as u32) + u32_bytes((v / 0x1_0000_0000) as u32)
}

/// Little-endian bytes of a sequence of 64-bit words, in order.
pub open spec fn words_bytes(w: Seq<u64>) -> Seq<u8>
    decreases w.len(),
{
    if w.len() == 0 {
        Seq::empty()
    } else {
        words_bytes(w.drop_last()) + u64_bytes(w.last())
    }
}

/// `count` consecutive little-endian words starting at byte offset `p`.
pub open spec fn words_at(s: Seq<u8>, p: int, count: nat) -> Seq<u64> {
    Seq::new(count, |k: int| le_u64(s, p + 8 * k) as u64)
}

/// Every word of `w` is the bit pattern of a finite real.
pub open spec fn all_finite(w: Seq<u64>) -> bool {
    forall|k: int| 0 <= k < w.len() ==> spec_is_finite(#[trigger] w[k])
}

proof fn lemma_le_u32_bytes(v: u32)
    ensures
        u32_bytes(v).len() == 4,
        le_u32(u32_bytes(v), 0) == v,
{
}

/// Reading back the eight bytes of a word gives the word.
pub proof fn lemma_le_u64_bytes(v: u64)
    ensures
        u64_bytes(v).len() == 8,
        le_u64(u64_bytes(v), 0) == v,
{
    lemma_le_u32_bytes((v % 0x1_0000_0000) as u32);
    lemma_le_u32_bytes((v / 0x1_0000_0000) as u32);
    let s = u64_bytes(v);
    let lo = u32_bytes((v % 0x1_0000_0000) as u32);
    let hi = u32_bytes((v / 0x1_0000_0000) as u32);
    assert(s.subrange(0, 4) =~= lo);
    assert(s.subrange(4, 8) =~= hi);
    assert(le_u32(s, 0) == le_u32(lo, 0));
    assert(le_u32(s, 4) == le_u32(hi, 0));
}

/// Shifting the buffer shifts where words are read.
pub proof fn lemma_le_u64_shift(a: Seq<u8>, b: Seq<u8>, p: int)
    requires
        0 <= p,
        p + 8 <= b.len(),
    ensures
        le_u64(a + b, a.len() + p) == le_u64(b, p),
{
    let s = a + b;
    assert(s[a.len() + p] == b[p]);
    assert(s[a.len() + p + 1] == b[p + 1]);
    assert(s[a.len() + p + 2] == b[p + 2]);
    assert(s[a.len() + p + 3] == b[p + 3]);
    assert(s[a.len() + p + 4] == b[p + 4]);
    assert(s[a.len() + p + 5] == b[p + 5]);
    assert(s[a.len() + p + 6] == b[p + 6]);
    assert(s[a.len() + p + 7] == b[p + 7]);
}

/// Extending the buffer does not change words already in it.
pub proof fn lemma_le_u64_prefix(a: Seq<u8>, b: Seq<u8>, p: int)
    requires
        0 <= p,
        p + 8 <= a.len(),
    ensures
        le_u64(a + b, p) == le_u64(a, p),
{
    let s = a + b;
    assert(s[p] == a[p]);
    assert(s[p + 1] == a[p + 1]);
    assert(s[p + 2] == a[p + 2]);
    assert(s[p + 3] == a[p + 3]);
    assert(s[p + 4] == a[p + 4]);
    assert(s[p + 5] == a[p + 5]);
    assert(s[p + 6] == a[p + 6]);
    assert(s[p + 7] == a[p + 7]);
}

/// The bytes of a word sequence are eight per word, and reading them back
/// word by word gives the sequence.
pub proof fn lemma_words_bytes(w: Seq<u64>)
    ensures
        words_bytes(w).len() == 8 * w.len(),
        forall|k: int| 0 <= k < w.len() ==> le_u64(words_bytes(w), 8 * k) == #[trigger] w[k],
    decreases w.len(),
{
    if w.len() > 0 {
        let init = w.drop_last();
        lemma_words_bytes(init);
        lemma_le_u64_bytes(w.last());
        assert forall|k: int| 0 <= k < w.len() implies le_u64(words_bytes(w), 8 * k)
            == #[trigger] w[k] by {
            if k < w.len() - 1 {
                lemma_le_u64_prefix(words_bytes(init), u64_bytes(w.last()), 8 * k);
                assert(init[k] == w[k]);
            } else {
                lemma_le_u64_shift(words_bytes(init), u64_bytes(w.last()), 0);
            }
        }
    }
}

// ---------------------------------------------------------------------------
// Cursor
// ---------------------------------------------------------------------------

/// Where a cursor stands after a read of `width` bytes from `pos` in a
/// buffer of `len` bytes: just past the value when it fits, unchanged when
/// it does not.
pub open spec fn read_step(len: nat, pos: nat, width: nat) -> nat {
    if pos + width <= len {
        pos + width
    } else {
        pos
    }
}

/// Where a new cursor on a buffer of `len` bytes stands after a series of
/// reads of the given widths.
pub open spec fn position_after(len: nat, widths: Seq<nat>) -> nat
    decreases widths.len(),
{
    if widths.len() == 0 {
        0
    } else {
        read_step(len, position_after(len, widths.drop_last()), widths.last())
    }
}

/// How many reads of width `w` in the series consumed their bytes.
pub open spec fn fitted_reads(len: nat, widths: Seq<nat>, w: nat) -> nat
    decreases widths.len(),
{
    if widths.len() == 0 {
        0
    } else {
        let prev = fitted_reads(len, widths.drop_last(), w);
        if widths.last() == w && position_after(len, widths.drop_last()) + w <= len {
            prev + 1
        } else {
            prev
        }
    }
}

/// Over any series of `u32` (4-byte) and binary64 (8-byte) reads from a new
/// cursor, the position is 4 per consumed `u32` plus 8 per consumed real, and
/// never passes the end of the buffer; so `remaining()` is the buffer length
/// minus those bytes.
pub proof fn lemma_cursor_reads(len: nat, widths: Seq<nat>)
    requires
        forall|t: int| 0 <= t < widths.len() ==> #[trigger] widths[t] == 4 || widths[t] == 8,
    ensures
        position_after(len, widths) <= len,
        position_after(len, widths) == 4 * fitted_reads(len, widths, 4) + 8 * fitted_reads(
            len,
            widths,
            8,
        ),
    decreases widths.len(),
{
    if widths.len() > 0 {
        let init = widths.drop_last();
        assert forall|t: int| 0 <= t < init.len() implies #[trigger] init[t] == 4 || init[t] == 8 by {
            assert(init[t] == widths[t]);
        }
        lemma_cursor_reads(len, init);
        assert(widths[widths.len() - 1] == 4 || widths[widths.len() - 1] == 8);
    }
}

/// A read position in a byte buffer.
pub struct Cursor<'a> {
    buf: &'a [u8],
    pos: usize,
}

impl<'a> Cursor<'a> {
    #[verifier::type_invariant]
    spec fn inv(self) -> bool {
        self.pos <= self.buf@.len()
    }

    /// The bytes being read.
    pub closed spec fn bytes(&self) -> Seq<u8> {
        self.buf@
    }

    /// How many bytes have been consumed.
    pub closed spec fn position(&self) -> nat {
        self.pos as nat
    }

    /// A cursor at the start of `buf`.
    pub fn new(buf: &'a [u8]) -> (c: Self)
        ensures
            c.bytes() == buf@,
            c.position() == 0,
    {
        Cursor { buf, pos: 0 }
    }

    /// Reads a little-endian `u32`, or fails with `Truncated` (consuming
    /// nothing) when fewer than four bytes remain.
    pub fn u32(&mut self) -> (r: Result<u32, CodecError>)
        ensures
            final(self).bytes() == old(self).bytes(),
            final(self).position() == read_step(old(self).bytes().len(), old(self).position(), 4),
            final(self).position() <= final(self).bytes().len(),
            old(self).position() + 4 <= old(self).bytes().len() ==> {
                &&& r is Ok
                &&& r->Ok_0 == le_u32(old(self).bytes(), old(self).position() as int)
                &&& final(self).position() == old(self).position() + 4
            },
            old(self).position() + 4 > old(self).bytes().len() ==> {
                &&& r == Err::<u32, CodecError>(CodecError::Truncated)
                &&& final(self).position() == old(self).position()
            },
    {
        proof {
            use_type_invariant(&*self);
        }
        if self.buf.len() - self.pos < 4 {
            return Err(CodecError::Truncated);
        }
        let p = self.pos;
        let v: u32 = self.buf[p] as u32 + self.buf[p + 1] as u32 * 0x100 + self.buf[p + 2] as u32
            * 0x1_0000 + self.buf[p + 3] as u32 * 0x100_0000;
        self.pos = p + 4;
        Ok(v)
    }

    /// Reads the bit pattern of a little-endian binary64, or fails with
    /// `Truncated` (consuming nothing) when fewer than eight bytes remain.
    pub fn f64_bits(&mut self) -> (r: Result<u64, CodecError>)
        ensures
            final(self).bytes() == old(self).bytes(),
            final(self).position() == read_step(old(self).bytes().len(), old(self).position(), 8),
            final(self).position() <= final(self).bytes().len(),
            old(self).position() + 8 <= old(self).bytes().len() ==> {
                &&& r is Ok
                &&& r->Ok_0 == le_u64(old(self).bytes(), old(self).position() as int)
                &&& final(self).position() == old(self).position() + 8
            },
            old(self).position() + 8 > old(self).bytes().len() ==> {
                &&& r == Err::<u64, CodecError>(CodecError::Truncated)
                &&& final(self).position() == old(self).position()
            },
    {
        proof {
            use_type_invariant(&*self);
        }
        if self.buf.len() - self.pos < 8 {
            return Err(CodecError::Truncated);
        }
        let p = self.pos;
        let lo: u32 = self.buf[p] as u32 + self.buf[p + 1] as u32 * 0x100 + self.buf[p + 2] as u32
            * 0x1_0000 + self.buf[p + 3] as u32 * 0x100_0000;
        let hi: u32 = self.buf[p + 4] as u32 + self.buf[p + 5] as u32 * 0x100 + self.buf[p + 6]
            as u32 * 0x1_0000 + self.buf[p + 7] as u32 * 0x100_0000;
        self.pos = p + 8;
        Ok(lo as u64 + hi as u64 * 0x1_0000_0000)
    }

    /// Like [`Cursor::f64_bits`] but rejects NaN and infinities with `NonFinite`
    /// (the eight bytes are consumed either way).
    pub fn finite_f64(&mut self) -> (r: Result<u64, CodecError>)
        ensures
            final(self).bytes() == old(self).bytes(),
            final(self).position() == read_step(old(self).bytes().len(), old(self).position(), 8),
            final(self).position() <= final(self).bytes().len(),
            old(self).position() + 8 <= old(self).bytes().len() ==> {
                let v = le_u64(old(self).bytes(), old(self).position() as int) as u64;
                &&& final(self).position() == old(self).position() + 8
                &&& spec_is_finite(v) ==> r == Ok::<u64, CodecError>(v)
                &&& !spec_is_finite(v) ==> r == Err::<u64, CodecError>(CodecError::NonFinite)
            },
            old(self).position() + 8 > old(self).bytes().len() ==> {
                &&& r == Err::<u64, CodecError>(CodecError::Truncated)
                &&& final(self).position() == old(self).position()
            },
    {
        match self.f64_bits() {
            Ok(v) => {
                if is_finite(v) {
                    Ok(v)
                } else {
                    Err(CodecError::NonFinite)
                }
            },
            Err(e) => Err(e),
        }
    }

    /// Bytes not yet consumed.
    pub fn remaining(&self) -> (n: usize)
        ensures
            n == self.bytes().len() - self.position(),
            n <= self.bytes().len(),
    {
        proof {
            use_type_invariant(self);
        }
        self.buf.len() - self.pos
    }
}


// ---------------------------------------------------------------------------
// Frames
// ---------------------------------------------------------------------------

/// Decoded PCM frame-set, row-major (`n_emp` rows × `n_samples` cols), each
/// sample held as its binary64 bit pattern.
pub struct Frames {
    pub n_emp: usize,
    pub n_samples: usize,
    pub data: Vec<u64>,
}

impl Frames {
    /// Borrow the samples for emplacement `i`.
    pub fn channel(&self, i: usize) -> (ch: &[u64])
        requires
            (i + 1) * self.n_samples <= self.data.len(),
        ensures
            ch@ == self.data@.subrange(i * self.n_samples, (i + 1) * self.n_samples),
    {
        proof {
            assert((i + 1) * self.n_samples == i * self.n_samples + self.n_samples)
                by (nonlinear_arith);
        }
        let start = i * self.n_samples;
        let end = start + self.n_samples;
        let all = self.data.as_slice();
        &all[start..end]
    }
}

/// What a frames buffer decodes to: `(n_emp, n_samples, samples)` or the
/// error that stops the decoder.
pub open spec fn frames_model(s: Seq<u8>) -> Result<(nat, nat, Seq<u64>), CodecError> {
    if s.len() < 8 {
        Err(CodecError::Truncated)
    } else {
        let n_emp = le_u32(s, 0);
        let n_samples = le_u32(s, 4);
        let count = n_emp * n_samples;
        if count * 8 > usize::MAX {
            Err(CodecError::BadShape)
        } else if count * 8 > s.len() - 8 {
            Err(CodecError::Truncated)
        } else if !all_finite(words_at(s, 8, count)) {
            Err(CodecError::NonFinite)
        } else {
            Ok((n_emp, n_samples, words_at(s, 8, count)))
        }
    }
}

/// `r` is the decoded value or error that `m` describes.
pub open spec fn frames_result_is(
    r: Result<Frames, CodecError>,
    m: Result<(nat, nat, Seq<u64>), CodecError>,
) -> bool {
    match r {
        Ok(f) => m is Ok && f.n_emp == m->Ok_0.0 && f.n_samples == m->Ok_0.1 && f.data@
            == m->Ok_0.2,
        Err(e) => m == Err::<(nat, nat, Seq<u64>), CodecError>(e),
    }
}

/// Decode a frames buffer.  A header whose payload cannot be in the buffer
/// is rejected before any allocation.
pub fn decode_frames(buf: &[u8]) -> (r: Result<Frames, CodecError>)
    ensures
        frames_result_is(r, frames_model(buf@)),
{
    let mut c = Cursor::new(buf);
    let n_emp = match c.u32() {
        Ok(v) => v as usize,
        Err(e) => return Err(e),
    };
    let n_samples = match c.u32() {
        Ok(v) => v as usize,
        Err(e) => return Err(e),
    };
    let count = match n_emp.checked_mul(n_samples) {
        Some(v) => v,
        None => return Err(CodecError::BadShape),
    };
    let payload = match count.checked_mul(8) {
        Some(v) => v,
        None => return Err(CodecError::BadShape),
    };
    if payload > c.remaining() {
        return Err(CodecError::Truncated);
    }
    let ghost s = buf@;
    let mut data: Vec<u64> = Vec::with_capacity(count);
    let mut k: usize = 0;
    while k < count
        invariant
            s == buf@,
            c.bytes() == s,
            k <= count,
            count == le_u32(s, 0) * le_u32(s, 4),
            8 * count <= s.len() - 8,
            count * 8 <= usize::MAX,
            s.len() >= 8,
            c.position() == 8 + 8 * k,
            data@ == words_at(s, 8, k as nat),
            all_finite(data@),
        decreases count - k,
    {
        match c.finite_f64() {
            Ok(v) => {
                data.push(v);
            },
            Err(e) => {
                proof {
                    let w = words_at(s, 8, count as nat);
                    assert(!spec_is_finite(w[k as int]));
                    assert(e == CodecError::NonFinite);
                    assert(!all_finite(w));
                    assert(frames_model(s) == Err::<(nat, nat, Seq<u64>), CodecError>(CodecError::NonFinite));
                }
                return Err(e);
            },
        }
        k = k + 1;
        proof {
            assert(data@ =~= words_at(s, 8, k as nat));
        }
    }
    Ok(Frames { n_emp, n_samples, data })
}

// ---------------------------------------------------------------------------
// Geometry
// ---------------------------------------------------------------------------

/// Array geometry: sample rate plus one ECEF position per emplacement,
/// ordered to match the rows of [`Frames`]; reals as bit patterns.
pub struct Geometry {
    pub sample_rate_hz: u64,
    pub ecef: Vec<[u64; 3]>,
}

/// What a geometry buffer decodes to: `(sample rate, flat xyz coordinates)`
/// or the error that stops the decoder.
pub open spec fn geometry_model(s: Seq<u8>) -> Result<(u64, Seq<u64>), CodecError> {
    if s.len() < 8 {
        Err(CodecError::Truncated)
    } else if !spec_is_finite(le_u64(s, 0) as u64) {
        Err(CodecError::NonFinite)
    } else if s.len() < 12 {
        Err(CodecError::Truncated)
    } else {
        let n_emp = le_u32(s, 8);
        if n_emp * 24 > usize::MAX {
            Err(CodecError::BadShape)
        } else if n_emp * 24 > s.len() - 12 {
            Err(CodecError::Truncated)
        } else if !all_finite(words_at(s, 12, 3 * n_emp)) {
            Err(CodecError::NonFinite)
        } else {
            Ok((le_u64(s, 0) as u64, words_at(s, 12, 3 * n_emp)))
        }
    }
}

/// The positions of `ecef` are the consecutive triples of `coords`.
pub open spec fn positions_are(ecef: Seq<[u64; 3]>, coords: Seq<u64>) -> bool {
    &&& coords.len() == 3 * ecef.len()
    &&& forall|e: int, a: int|
        0 <= e < ecef.len() && 0 <= a < 3 ==> #[trigger] ecef[e][a] == coords[3 * e + a]
}

/// `r` is the decoded value or error that `m` describes.
pub open spec fn geometry_result_is(
    r: Result<Geometry, CodecError>,
    m: Result<(u64, Seq<u64>), CodecError>,
) -> bool {
    match r {
        Ok(g) => m is Ok && g.sample_rate_hz == m->Ok_0.0 && positions_are(g.ecef@, m->Ok_0.1),
        Err(e) => m == Err::<(u64, Seq<u64>), CodecError>(e),
    }
}

/// Decode a geometry buffer.  A header whose payload cannot be in the
/// buffer is rejected before any allocation.
pub fn decode_geometry(buf: &[u8]) -> (r: Result<Geometry, CodecError>)
    ensures
        geometry_result_is(r, geometry_model(buf@)),
{
    let ghost s = buf@;
    let mut c = Cursor::new(buf);
    let sample_rate_hz = match c.finite_f64() {
        Ok(v) => v,
        Err(e) => return Err(e),
    };
    let n_emp = match c.u32() {
        Ok(v) => v as usize,
        Err(e) => return Err(e),
    };
    let payload = match n_emp.checked_mul(24) {
        Some(v) => v,
        None => return Err(CodecError::BadShape),
    };
    if payload > c.remaining() {
        return Err(CodecError::Truncated);
    }
    let ghost coords = words_at(s, 12, 3 * n_emp as nat);
    let mut ecef: Vec<[u64; 3]> = Vec::with_capacity(n_emp);
    let mut e: usize = 0;
    while e < n_emp
        invariant
            s == buf@,
            c.bytes() == s,
            s.len() >= 12,
            spec_is_finite(le_u64(s, 0) as u64),
            sample_rate_hz == le_u64(s, 0) as u64,
            e <= n_emp,
            n_emp == le_u32(s, 8),
            24 * n_emp <= s.len() - 12,
            n_emp * 24 <= usize::MAX,
            coords == words_at(s, 12, 3 * n_emp as nat),
            c.position() == 12 + 24 * e,
            ecef@.len() == e,
            forall|q: int, a: int|
                0 <= q < e && 0 <= a < 3 ==> #[trigger] ecef@[q][a] == coords[3 * q + a],
            forall|q: int| 0 <= q < 3 * e ==> spec_is_finite(#[trigger] coords[q]),
        decreases n_emp - e,
    {
        let x = match c.finite_f64() {
            Ok(v) => v,
            Err(err) => {
                assert(!spec_is_finite(coords[3 * e as int]));
                return Err(err);
            },
        };
        let y = match c.finite_f64() {
            Ok(v) => v,
            Err(err) => {
                assert(!spec_is_finite(coords[3 * e + 1]));
                return Err(err);
            },
        };
        let z = match c.finite_f64() {
            Ok(v) => v,
            Err(err) => {
                assert(!spec_is_finite(coords[3 * e + 2]));
                return Err(err);
            },
        };
        proof {
            assert(coords[3 * e as int] == x);
            assert(coords[3 * e + 1] == y);
            assert(coords[3 * e + 2] == z);
        }
        ecef.push([x, y, z]);
        e = e + 1;
    }
    proof {
        assert forall|q: int| 0 <= q < coords.len() implies spec_is_finite(#[trigger] coords[q]) by {}
        assert(positions_are(ecef@, coords));
    }
    Ok(Geometry { sample_rate_hz, ecef })
}

// ---------------------------------------------------------------------------
// Options
// ---------------------------------------------------------------------------

/// Grid-search tuning (reals as bit patterns), defaults applied by the caller.
pub struct Opts {
    pub grid_extent_m: u64,
    pub coarse_res_m: u64,
    pub fine_res_m: u64,
    pub min_peak_ratio: u64,
    pub max_sources: usize,
}

/// The first error met when reading `count` finite reals from the start of
/// `s`, if any.
pub open spec fn leading_reals_error(s: Seq<u8>, count: nat) -> Option<CodecError>
    decreases count,
{
    if count == 0 {
        None
    } else {
        match leading_reals_error(s, (count - 1) as nat) {
            Some(e) => Some(e),
            None => if s.len() < 8 * count {
                Some(CodecError::Truncated)
            } else if !spec_is_finite(le_u64(s, 8 * (count - 1)) as u64) {
                Some(CodecError::NonFinite)
            } else {
                None
            },
        }
    }
}

/// What an options buffer decodes to: the four reals and the requested
/// source count clamped to [`MAX_SOURCES_CAP`], or the error that stops the
/// decoder.
pub open spec fn opts_model(s: Seq<u8>) -> Result<(Seq<u64>, nat), CodecError> {
    match leading_reals_error(s, 4) {
        Some(e) => Err(e),
        None => if s.len() < 36 {
            Err(CodecError::Truncated)
        } else {
            Ok(
                (
                    words_at(s, 0, 4),
                    if le_u32(s, 32) < MAX_SOURCES_CAP {
                        le_u32(s, 32)
                    } else {
                        MAX_SOURCES_CAP as nat
                    },
                ),
            )
        },
    }
}

/// `r` is the decoded value or error that `m` describes.
pub open spec fn opts_result_is(
    r: Result<Opts, CodecError>,
    m: Result<(Seq<u64>, nat), CodecError>,
) -> bool {
    match r {
        Ok(o) => {
            &&& m is Ok
            &&& o.grid_extent_m == m->Ok_0.0[0]
            &&& o.coarse_res_m == m->Ok_0.0[1]
            &&& o.fine_res_m == m->Ok_0.0[2]
            &&& o.min_peak_ratio == m->Ok_0.0[3]
            &&& o.max_sources == m->Ok_0.1
        },
        Err(e) => m == Err::<(Seq<u64>, nat), CodecError>(e),
    }
}

/// Decode an options buffer, clamping `max_sources` to [`MAX_SOURCES_CAP`].
pub fn decode_opts(buf: &[u8]) -> (r: Result<Opts, CodecError>)
    ensures
        opts_result_is(r, opts_model(buf@)),
{
    proof {
        reveal_with_fuel(leading_reals_error, 5);
    }
    let mut c = Cursor::new(buf);
    let grid_extent_m = match c.finite_f64() {
        Ok(v) => v,
        Err(e) => return Err(e),
    };
    let coarse_res_m = match c.finite_f64() {
        Ok(v) => v,
        Err(e) => return Err(e),
    };
    let fine_res_m = match c.finite_f64() {
        Ok(v) => v,
        Err(e) => return Err(e),
    };
    let min_peak_ratio = match c.finite_f64() {
        Ok(v) => v,
        Err(e) => return Err(e),
    };
    let requested = match c.u32() {
        Ok(v) => v as usize,
        Err(e) => return Err(e),
    };
    let max_sources = if requested < MAX_SOURCES_CAP {
        requested
    } else {
        MAX_SOURCES_CAP
    };
    Ok(Opts { grid_extent_m, coarse_res_m, fine_res_m, min_peak_ratio, max_sources })
}


// ---------------------------------------------------------------------------
// Results
// ---------------------------------------------------------------------------

/// One localized source, pre-encoding (reals as bit patterns).
#[derive(Clone, Copy, Debug)]
pub struct SourceOut {
    pub ecef: [u64; 3],
    pub velocity: Option<[u64; 3]>,
    pub radial_velocity: Option<u64>,
    pub covariance: Option<[u64; 9]>,
    pub confidence: u64,
    pub dominant_hz: u64,
}

/// A presence flag as a real: `1.0` when present, `0.0` when absent.
pub open spec fn flag_bits(present: bool) -> u64 {
    if present {
        ONE_BITS
    } else {
        ZERO_BITS
    }
}

/// `n` zero reals.
pub open spec fn zero_words(n: nat) -> Seq<u64> {
    Seq::new(n, |k: int| ZERO_BITS)
}

/// The 21 reals of one encoded source record, in layout order.  An absent
/// optional field is written as zeros followed by a `0.0` flag.
pub open spec fn record_words(s: SourceOut) -> Seq<u64> {
    s.ecef@ + (match s.velocity {
        Some(v) => v@,
        None => zero_words(3),
    }) + seq![flag_bits(s.velocity is Some)] + seq![
        match s.radial_velocity {
            Some(r) => r,
            None => ZERO_BITS,
        },
        flag_bits(s.radial_velocity is Some),
    ] + (match s.covariance {
        Some(c) => c@,
        None => zero_words(9),
    }) + seq![flag_bits(s.covariance is Some), s.confidence, s.dominant_hz]
}

/// The records of all sources, concatenated.
pub open spec fn records_words(srcs: Seq<SourceOut>) -> Seq<u64>
    decreases srcs.len(),
{
    if srcs.len() == 0 {
        Seq::empty()
    } else {
        records_words(srcs.drop_last()) + record_words(srcs.last())
    }
}

/// The encoded results buffer: the source count (modulo 2³², as the header
/// is a `u32`) followed by every record.
pub open spec fn results_bytes(srcs: Seq<SourceOut>) -> Seq<u8> {
    u32_bytes((srcs.len() % 0x1_0000_0000) as u32) + words_bytes(records_words(srcs))
}

/// Bytes of concatenated words are the concatenated bytes.
pub proof fn lemma_words_bytes_append(a: Seq<u64>, b: Seq<u64>)
    ensures
        words_bytes(a + b) == words_bytes(a) + words_bytes(b),
    decreases b.len(),
{
    if b.len() == 0 {
        assert(a + b =~= a);
        assert(words_bytes(b) =~= Seq::<u8>::empty());
        assert(words_bytes(a) + words_bytes(b) =~= words_bytes(a));
    } else {
        lemma_words_bytes_append(a, b.drop_last());
        assert((a + b).drop_last() =~= a + b.drop_last());
        assert((a + b).last() == b.last());
        assert(words_bytes(a + b) =~= words_bytes(a) + words_bytes(b));
    }
}

proof fn lemma_record_words_len(s: SourceOut)
    ensures
        record_words(s).len() == SOURCE_FIELDS,
{
}

/// Record `m` occupies words `21·m .. 21·m + 21` of the concatenation.
pub proof fn lemma_records_words(srcs: Seq<SourceOut>)
    ensures
        records_words(srcs).len() == SOURCE_FIELDS * srcs.len(),
        forall|m: int, f: int|
            0 <= m < srcs.len() && 0 <= f < SOURCE_FIELDS ==> #[trigger] records_words(srcs)[21
                * m + f] == #[trigger] record_words(srcs[m])[f],
    decreases srcs.len(),
{
    if srcs.len() > 0 {
        let init = srcs.drop_last();
        lemma_records_words(init);
        lemma_record_words_len(srcs.last());
        assert forall|m: int, f: int|
            0 <= m < srcs.len() && 0 <= f < SOURCE_FIELDS implies #[trigger] records_words(
            srcs,
        )[21 * m + f] == #[trigger] record_words(srcs[m])[f] by {
            if m < srcs.len() - 1 {
                assert(init[m] == srcs[m]);
                assert(records_words(init)[21 * m + f] == record_words(init[m])[f]);
            }
        }
    }
}

fn push_u32(out: &mut Vec<u8>, v: u32)
    ensures
        final(out)@ == old(out)@ + u32_bytes(v),
{
    out.push((v % 0x100) as u8);
    out.push(((v / 0x100) % 0x100) as u8);
    out.push(((v / 0x1_0000) % 0x100) as u8);
    out.push(((v / 0x100_0000) % 0x100) as u8);
    assert(final(out)@ =~= old(out)@ + u32_bytes(v));
}

fn push_word(out: &mut Vec<u8>, v: u64)
    ensures
        final(out)@ == old(out)@ + u64_bytes(v),
{
    let ghost start = out@;
    push_u32(out, (v % 0x1_0000_0000) as u32);
    push_u32(out, (v / 0x1_0000_0000) as u32);
    assert(out@ =~= start + u64_bytes(v));
}

fn push_opt3(rec: &mut Vec<u64>, v: Option<[u64; 3]>)
    ensures
        final(rec)@ == old(rec)@ + (match v {
            Some(a) => a@,
            None => zero_words(3),
        }) + seq![flag_bits(v is Some)],
{
    match v {
        Some(a) => {
            rec.push(a[0]);
            rec.push(a[1]);
            rec.push(a[2]);
            rec.push(ONE_BITS);
        },
        None => {
            rec.push(ZERO_BITS);
            rec.push(ZERO_BITS);
            rec.push(ZERO_BITS);
            rec.push(ZERO_BITS);
        },
    }
    assert(final(rec)@ =~= old(rec)@ + (match v {
        Some(a) => a@,
        None => zero_words(3),
    }) + seq![flag_bits(v is Some)]);
}

fn record_of(s: &SourceOut) -> (rec: Vec<u64>)
    ensures
        rec@ == record_words(*s),
{
    let mut rec: Vec<u64> = Vec::with_capacity(SOURCE_FIELDS);
    rec.push(s.ecef[0]);
    rec.push(s.ecef[1]);
    rec.push(s.ecef[2]);
    push_opt3(&mut rec, s.velocity);
    match s.radial_velocity {
        Some(r) => {
            rec.push(r);
            rec.push(ONE_BITS);
        },
        None => {
            rec.push(ZERO_BITS);
            rec.push(ZERO_BITS);
        },
    }
    let ghost before_cov = rec@;
    match s.covariance {
        Some(c) => {
            let mut k: usize = 0;
            while k < 9
                invariant
                    k <= 9,
                    rec@ == before_cov + c@.take(k as int),
                decreases 9 - k,
            {
                rec.push(c[k]);
                k = k + 1;
                assert(rec@ =~= before_cov + c@.take(k as int));
            }
            assert(c@.take(9) =~= c@);
            rec.push(ONE_BITS);
        },
        None => {
            let mut k: usize = 0;
            while k < 9
                invariant
                    k <= 9,
                    rec@ == before_cov + zero_words(k as nat),
                decreases 9 - k,
            {
                rec.push(ZERO_BITS);
                k = k + 1;
                assert(rec@ =~= before_cov + zero_words(k as nat));
            }
            rec.push(ZERO_BITS);
        },
    }
    rec.push(s.confidence);
    rec.push(s.dominant_hz);
    assert(rec@ =~= record_words(*s));
    rec
}

/// Encode the localized sources as a results buffer.
pub fn encode_results(sources: &[SourceOut]) -> (out: Vec<u8>)
    ensures
        out@ == results_bytes(sources@),
{
    let n = sources.len();
    let capacity = match n.checked_mul(SOURCE_FIELDS * 8) {
        Some(b) => match b.checked_add(4) {
            Some(c) => c,
            None => b,
        },
        None => 0,
    };
    let mut out: Vec<u8> = Vec::with_capacity(capacity);
    push_u32(&mut out, (n as u64 % 0x1_0000_0000) as u32);
    let ghost header = out@;
    assert(header == u32_bytes((sources@.len() % 0x1_0000_0000) as u32));
    let mut m: usize = 0;
    while m < n
        invariant
            n == sources@.len(),
            m <= n,
            out@ == header + words_bytes(records_words(sources@.take(m as int))),
        decreases n - m,
    {
        let rec = record_of(&sources[m]);
        let ghost done = out@;
        let mut f: usize = 0;
        while f < rec.len()
            invariant
                f <= rec@.len(),
                out@ == done + words_bytes(rec@.take(f as int)),
            decreases rec@.len() - f,
        {
            push_word(&mut out, rec[f]);
            f = f + 1;
            assert(rec@.take(f as int).drop_last() =~= rec@.take(f - 1));
        }
        proof {
            assert(rec@.take(f as int) =~= rec@);
            let prev = records_words(sources@.take(m as int));
            lemma_words_bytes_append(prev, rec@);
            assert(sources@.take(m + 1).drop_last() =~= sources@.take(m as int));
            assert(sources@.take(m + 1).last() == sources@[m as int]);
        }
        m = m + 1;
    }
    assert(sources@.take(n as int) =~= sources@);
    out
}

/// Layout of an encoded results buffer: `4 + 168·n` bytes, the header reads
/// back the count (modulo 2³²), and real `f` of record `m` reads back from
/// byte offset `4 + 168·m + 8·f` as field `f` of source `m`.
pub proof fn lemma_results_layout(srcs: Seq<SourceOut>)
    ensures
        results_bytes(srcs).len() == 4 + 8 * SOURCE_FIELDS * srcs.len(),
        le_u32(results_bytes(srcs), 0) == srcs.len() % 0x1_0000_0000,
        forall|m: int, f: int|
            0 <= m < srcs.len() && 0 <= f < SOURCE_FIELDS ==> le_u64(
                results_bytes(srcs),
                4 + 168 * m + 8 * f,
            ) == #[trigger] record_words(srcs[m])[f],
{
    let h = u32_bytes((srcs.len() % 0x1_0000_0000) as u32);
    let w = records_words(srcs);
    lemma_le_u32_bytes((srcs.len() % 0x1_0000_0000) as u32);
    lemma_records_words(srcs);
    lemma_words_bytes(w);
    let b = results_bytes(srcs);
    assert(b[0] == h[0] && b[1] == h[1] && b[2] == h[2] && b[3] == h[3]);
    assert forall|m: int, f: int|
        0 <= m < srcs.len() && 0 <= f < SOURCE_FIELDS implies le_u64(
        results_bytes(srcs),
        4 + 168 * m + 8 * f,
    ) == #[trigger] record_words(srcs[m])[f] by {
        let k = 21 * m + f;
        assert(0 <= k < w.len()) by (nonlinear_arith)
            requires
                0 <= m < srcs.len(),
                0 <= f < 21,
                k == 21 * m + f,
                w.len() == 21 * srcs.len(),
        ;
        assert(w[k] == record_words(srcs[m])[f]);
        assert(le_u64(words_bytes(w), 8 * k) == w[k]);
        lemma_le_u64_shift(h, words_bytes(w), 8 * k);
        assert(4 + 168 * m + 8 * f == h.len() + 8 * k);
    }
}


/// Each real of a record, named by the source field it carries.
proof fn lemma_record_fields(s: SourceOut)
    ensures
        record_words(s).len() == 21,
        forall|f: int| 0 <= f < 3 ==> #[trigger] record_words(s)[f] == s.ecef[f],
        forall|f: int|
            0 <= f < 3 ==> #[trigger] record_words(s)[3 + f] == match s.velocity {
                Some(v) => v[f],
                None => 0u64,
            },
        record_words(s)[6] == if s.velocity is Some {
            0x3FF0_0000_0000_0000u64
        } else {
            0u64
        },
        record_words(s)[7] == match s.radial_velocity {
            Some(r) => r,
            None => 0u64,
        },
        record_words(s)[8] == if s.radial_velocity is Some {
            0x3FF0_0000_0000_0000u64
        } else {
            0u64
        },
        forall|f: int|
            0 <= f < 9 ==> #[trigger] record_words(s)[9 + f] == match s.covariance {
                Some(c) => c[f],
                None => 0u64,
            },
        record_words(s)[18] == if s.covariance is Some {
            0x3FF0_0000_0000_0000u64
        } else {
            0u64
        },
        record_words(s)[19] == s.confidence,
        record_words(s)[20] == s.dominant_hz,
{
    let w = record_words(s);
    let vel = match s.velocity {
        Some(v) => v@,
        None => zero_words(3),
    };
    let cov = match s.covariance {
        Some(c) => c@,
        None => zero_words(9),
    };
    let a = s.ecef@ + vel;
    let b = a + seq![flag_bits(s.velocity is Some)];
    let c2 = b + seq![
        match s.radial_velocity {
            Some(r) => r,
            None => ZERO_BITS,
        },
        flag_bits(s.radial_velocity is Some),
    ];
    let d = c2 + cov;
    assert(w == d + seq![flag_bits(s.covariance is Some), s.confidence, s.dominant_hz]);
    assert forall|f: int| 0 <= f < 3 implies #[trigger] w[f] == s.ecef[f] by {
        assert(w[f] == d[f]);
        assert(d[f] == c2[f]);
        assert(c2[f] == b[f]);
        assert(b[f] == a[f]);
    }
    assert forall|f: int| 0 <= f < 3 implies #[trigger] w[3 + f] == match s.velocity {
        Some(v) => v[f],
        None => 0u64,
    } by {
        assert(w[3 + f] == d[3 + f]);
        assert(d[3 + f] == c2[3 + f]);
        assert(c2[3 + f] == b[3 + f]);
        assert(b[3 + f] == a[3 + f]);
        assert(a[3 + f] == vel[f]);
    }
    assert(w[6] == b[6]);
    assert(w[7] == c2[7]);
    assert(w[8] == c2[8]);
    assert forall|f: int| 0 <= f < 9 implies #[trigger] w[9 + f] == match s.covariance {
        Some(c) => c[f],
        None => 0u64,
    } by {
        assert(w[9 + f] == d[9 + f]);
        assert(d[9 + f] == cov[f]);
    }
}

/// Each real of an encoded results buffer, named by the source field it
/// carries: source `m`'s field at word `f` of its record is read back from
/// byte offset `4 + 168·m + 8·f` — position, then velocity and its flag,
/// radial velocity and its flag, the covariance row-major and its flag,
/// confidence, dominant frequency.  Absent fields read back as `0.0` with a
/// `0.0` flag; present ones with a `1.0` flag.
pub proof fn lemma_results_fields(srcs: Seq<SourceOut>, m: int)
    requires
        0 <= m < srcs.len(),
    ensures
        forall|f: int|
            0 <= f < 3 ==> #[trigger] le_u64(results_bytes(srcs), 4 + 168 * m + 8 * f)
                == srcs[m].ecef[f],
        forall|f: int|
            0 <= f < 3 ==> #[trigger] le_u64(results_bytes(srcs), 4 + 168 * m + 8 * (3 + f))
                == match srcs[m].velocity {
                Some(v) => v[f],
                None => 0u64,
            },
        le_u64(results_bytes(srcs), 4 + 168 * m + 48) == if srcs[m].velocity is Some {
            0x3FF0_0000_0000_0000u64
        } else {
            0u64
        },
        le_u64(results_bytes(srcs), 4 + 168 * m + 56) == match srcs[m].radial_velocity {
            Some(r) => r,
            None => 0u64,
        },
        le_u64(results_bytes(srcs), 4 + 168 * m + 64) == if srcs[m].radial_velocity is Some {
            0x3FF0_0000_0000_0000u64
        } else {
            0u64
        },
        forall|f: int|
            0 <= f < 9 ==> #[trigger] le_u64(results_bytes(srcs), 4 + 168 * m + 8 * (9 + f))
                == match srcs[m].covariance {
                Some(c) => c[f],
                None => 0u64,
            },
        le_u64(results_bytes(srcs), 4 + 168 * m + 144) == if srcs[m].covariance is Some {
            0x3FF0_0000_0000_0000u64
        } else {
            0u64
        },
        le_u64(results_bytes(srcs), 4 + 168 * m + 152) == srcs[m].confidence,
        le_u64(results_bytes(srcs), 4 + 168 * m + 160) == srcs[m].dominant_hz,
{
    lemma_results_layout(srcs);
    lemma_record_fields(srcs[m]);
    let w = record_words(srcs[m]);
    assert(le_u64(results_bytes(srcs), 4 + 168 * m + 8 * 6) == w[6]);
    assert(le_u64(results_bytes(srcs), 4 + 168 * m + 8 * 7) == w[7]);
    assert(le_u64(results_bytes(srcs), 4 + 168 * m + 8 * 8) == w[8]);
    assert(le_u64(results_bytes(srcs), 4 + 168 * m + 8 * 18) == w[18]);
    assert(le_u64(results_bytes(srcs), 4 + 168 * m + 8 * 19) == w[19]);
    assert(le_u64(results_bytes(srcs), 4 + 168 * m + 8 * 20) == w[20]);
    assert forall|f: int| 0 <= f < 3 implies #[trigger] le_u64(
        results_bytes(srcs),
        4 + 168 * m + 8 * f,
    ) == srcs[m].ecef[f] by {
        assert(w[f] == srcs[m].ecef[f]);
    }
    assert forall|f: int| 0 <= f < 3 implies #[trigger] le_u64(
        results_bytes(srcs),
        4 + 168 * m + 8 * (3 + f),
    ) == match srcs[m].velocity {
        Some(v) => v[f],
        None => 0u64,
    } by {
        assert(le_u64(results_bytes(srcs), 4 + 168 * m + 8 * (3 + f)) == w[3 + f]);
    }
    assert forall|f: int| 0 <= f < 9 implies #[trigger] le_u64(
        results_bytes(srcs),
        4 + 168 * m + 8 * (9 + f),
    ) == match srcs[m].covariance {
        Some(c) => c[f],
        None => 0u64,
    } by {
        assert(le_u64(results_bytes(srcs), 4 + 168 * m + 8 * (9 + f)) == w[9 + f]);
    }
}

// ---------------------------------------------------------------------------
// What a read gives back of a write
// ---------------------------------------------------------------------------

/// The frames buffer that packs `data` under the header `(n_emp, n_samples)`.
pub open spec fn frames_bytes(n_emp: u32, n_samples: u32, data: Seq<u64>) -> Seq<u8> {
    u32_bytes(n_emp) + u32_bytes(n_samples) + words_bytes(data)
}

/// The geometry buffer for a sample rate and `n_emp` xyz triples.
pub open spec fn geometry_bytes(sample_rate: u64, n_emp: u32, coords: Seq<u64>) -> Seq<u8> {
    u64_bytes(sample_rate) + u32_bytes(n_emp) + words_bytes(coords)
}

/// The options buffer for four reals and a requested source count.
pub open spec fn opts_bytes(reals: Seq<u64>, max_sources: u32) -> Seq<u8> {
    words_bytes(reals) + u32_bytes(max_sources)
}

proof fn lemma_le_u32_shift(a: Seq<u8>, b: Seq<u8>, p: int)
    requires
        0 <= p,
        p + 4 <= b.len(),
    ensures
        le_u32(a + b, a.len() + p) == le_u32(b, p),
{
    let s = a + b;
    assert(s[a.len() + p] == b[p]);
    assert(s[a.len() + p + 1] == b[p + 1]);
    assert(s[a.len() + p + 2] == b[p + 2]);
    assert(s[a.len() + p + 3] == b[p + 3]);
}

proof fn lemma_le_u32_prefix(a: Seq<u8>, b: Seq<u8>, p: int)
    requires
        0 <= p,
        p + 4 <= a.len(),
    ensures
        le_u32(a + b, p) == le_u32(a, p),
{
    let s = a + b;
    assert(s[p] == a[p]);
    assert(s[p + 1] == a[p + 1]);
    assert(s[p + 2] == a[p + 2]);
    assert(s[p + 3] == a[p + 3]);
}

/// Words packed after a header of `h` bytes are read back in order.
proof fn lemma_words_after_header(h: Seq<u8>, w: Seq<u64>)
    ensures
        words_at(h + words_bytes(w), h.len() as int, w.len()) == w,
        (h + words_bytes(w)).len() == h.len() + 8 * w.len(),
{
    lemma_words_bytes(w);
    let s = h + words_bytes(w);
    assert forall|k: int| 0 <= k < w.len() implies #[trigger] words_at(s, h.len() as int, w.len())[k]
        == w[k] by {
        lemma_le_u64_shift(h, words_bytes(w), 8 * k);
    }
    assert(words_at(s, h.len() as int, w.len()) =~= w);
}

/// Decoding a packed frame-set gives back its header and samples, or
/// `NonFinite` when a sample is NaN or infinite.
pub proof fn lemma_frames_roundtrip(n_emp: u32, n_samples: u32, data: Seq<u64>)
    requires
        data.len() == n_emp * n_samples,
        8 * data.len() <= usize::MAX,
    ensures
        frames_model(frames_bytes(n_emp, n_samples, data)) == if all_finite(data) {
            Ok::<(nat, nat, Seq<u64>), CodecError>((n_emp as nat, n_samples as nat, data))
        } else {
            Err(CodecError::NonFinite)
        },
{
    let h = u32_bytes(n_emp) + u32_bytes(n_samples);
    let s = frames_bytes(n_emp, n_samples, data);
    lemma_le_u32_bytes(n_emp);
    lemma_le_u32_bytes(n_samples);
    lemma_le_u32_prefix(u32_bytes(n_emp), u32_bytes(n_samples), 0);
    lemma_le_u32_shift(u32_bytes(n_emp), u32_bytes(n_samples), 0);
    lemma_le_u32_prefix(h, words_bytes(data), 0);
    lemma_le_u32_prefix(h, words_bytes(data), 4);
    lemma_words_after_header(h, data);
    assert(le_u32(s, 0) == n_emp);
    assert(le_u32(s, 4) == n_samples);
}

/// Decoding a packed geometry gives back its sample rate and positions, or
/// `NonFinite` when a coordinate is NaN or infinite.
pub proof fn lemma_geometry_roundtrip(sample_rate: u64, n_emp: u32, coords: Seq<u64>)
    requires
        spec_is_finite(sample_rate),
        coords.len() == 3 * n_emp,
        24 * n_emp <= usize::MAX,
    ensures
        geometry_model(geometry_bytes(sample_rate, n_emp, coords)) == if all_finite(coords) {
            Ok::<(u64, Seq<u64>), CodecError>((sample_rate, coords))
        } else {
            Err(CodecError::NonFinite)
        },
{
    let h = u64_bytes(sample_rate) + u32_bytes(n_emp);
    let s = geometry_bytes(sample_rate, n_emp, coords);
    lemma_le_u64_bytes(sample_rate);
    lemma_le_u32_bytes(n_emp);
    lemma_le_u64_prefix(u64_bytes(sample_rate), u32_bytes(n_emp), 0);
    lemma_le_u32_shift(u64_bytes(sample_rate), u32_bytes(n_emp), 0);
    lemma_le_u64_prefix(h, words_bytes(coords), 0);
    lemma_le_u32_prefix(h, words_bytes(coords), 8);
    lemma_words_after_header(h, coords);
    assert(le_u64(s, 0) == sample_rate);
    assert(le_u32(s, 8) == n_emp);
}

/// Decoding packed options gives back the four reals and the requested
/// source count clamped to [`MAX_SOURCES_CAP`].
pub proof fn lemma_opts_roundtrip(reals: Seq<u64>, max_sources: u32)
    requires
        reals.len() == 4,
        all_finite(reals),
    ensures
        opts_model(opts_bytes(reals, max_sources)) == Ok::<(Seq<u64>, nat), CodecError>(
            (
                reals,
                if max_sources < MAX_SOURCES_CAP {
                    max_sources as nat
                } else {
                    MAX_SOURCES_CAP as nat
                },
            ),
        ),
{
    reveal_with_fuel(leading_reals_error, 5);
    let s = opts_bytes(reals, max_sources);
    lemma_words_bytes(reals);
    lemma_le_u32_bytes(max_sources);
    lemma_le_u32_shift(words_bytes(reals), u32_bytes(max_sources), 0);
    lemma_words_bytes_append(reals, Seq::empty());
    assert forall|k: int| 0 <= k < 4 implies le_u64(s, 8 * k) == #[trigger] reals[k] by {
        lemma_le_u64_prefix(words_bytes(reals), u32_bytes(max_sources), 8 * k);
    }
    assert(le_u64(s, 0) == reals[0]);
    assert(le_u64(s, 8) == reals[1]);
    assert(le_u64(s, 16) == reals[2]);
    assert(le_u64(s, 24) == reals[3]);
    assert(spec_is_finite(reals[0]) && spec_is_finite(reals[1]) && spec_is_finite(reals[2])
        && spec_is_finite(reals[3]));
    assert(words_at(s, 0, 4) =~= reals);
}

} // verus!
