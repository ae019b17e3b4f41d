use vstd::prelude::*;

use crate::color::Color16;
use crate::plane::Plane;

verus! {

/// The longest run of transparent pixels that one run word stands for.
pub const MAX_RUN: u16 = 32768;

/// Why a byte stream is not a container.
#[derive(Debug, Clone, Copy, PartialEq, Eq, Structural)]
pub enum DecodeError {
    /// Shorter than the header, or the data is not a whole number of words.
    Truncated,
    /// The first four bytes are not `IMG `.
    BadMagic,
    /// The payload size field disagrees with the number of data words.
    SizeMismatch,
    /// `width * height` does not fit in 32 bits.
    TooLarge,
    /// The data words do not expand to exactly `width * height` pixels.
    PixelCountMismatch,
}

/// The packed words of a sequence of pixels.
pub open spec fn raw_words(px: Seq<Color16>) -> Seq<u16> {
    Seq::new(px.len(), |i: int| px[i].0)
}

/// The encoder's state after a prefix of the pixels: words emitted, transparent pixels pending.
pub open spec fn rle_state(px: Seq<u16>) -> (Seq<u16>, nat)
    decreases px.len(),
{
    if px.len() == 0 {
        (Seq::empty(), 0)
    } else {
        let (ws, acc) = rle_state(px.drop_last());
        let p = px.last();
        if p == 0 {
            if acc < MAX_RUN {
                (ws, acc + 1)
            } else {
                (ws.push((acc - 1) as u16), 1)
            }
        } else if acc > 0 {
            (ws.push((acc - 1) as u16).push(p), 0)
        } else {
            (ws.push(p), 0)
        }
    }
}

/// The data words of a plane's pixels: each run of zero words becomes one word holding
/// its length minus one, in chunks of at most `MAX_RUN`; other words are copied.
pub open spec fn rle_encode(px: Seq<u16>) -> Seq<u16> {
    let (ws, acc) = rle_state(px);
    if acc > 0 {
        ws.push((acc - 1) as u16)
    } else {
        ws
    }
}

/// `n` transparent pixels.
pub open spec fn zeros(n: nat) -> Seq<u16> {
    Seq::new(n, |i: int| 0u16)
}

/// What one data word stands for: a run of `w + 1` transparent pixels, or itself.
pub open spec fn word_pixels(w: u16) -> Seq<u16> {
    if w < 0x8000 {
        zeros(w as nat + 1)
    } else {
        seq![w]
    }
}

/// The pixels that a sequence of data words stands for.
pub open spec fn expand_words(ws: Seq<u16>) -> Seq<u16>
    decreases ws.len(),
{
    if ws.len() == 0 {
        Seq::empty()
    } else {
        expand_words(ws.drop_last()) + word_pixels(ws.last())
    }
}

/// Every pixel is transparent (zero) or carries the alpha bit.
pub open spec fn encodable(px: Seq<u16>) -> bool {
    forall|i: int| 0 <= i < px.len() ==> px[i] == 0 || px[i] >= 0x8000
}

/// Two run words stand side by side only where the first is a full chunk.
pub open spec fn runs_maximal(ws: Seq<u16>) -> bool {
    forall|i: int|
        0 <= i < ws.len() - 1 && #[trigger] ws[i] < 0x8000 && ws[i + 1] < 0x8000 ==> ws[i] == 0x7fff
}

pub open spec fn le_u16(b: Seq<u8>, off: int) -> int {
    b[off] + b[off + 1] * 256
}

pub open spec fn le_u32(b: Seq<u8>, off: int) -> int {
    b[off] + b[off + 1] * 256 + b[off + 2] * 65536 + b[off + 3] * 16777216
}

/// The data words that follow the 16-byte header.
pub open spec fn data_words(b: Seq<u8>) -> Seq<u16> {
    Seq::new(((b.len() - 16) / 2) as nat, |i: int| le_u16(b, 16 + 2 * i) as u16)
}

pub open spec fn magic_ok(b: Seq<u8>) -> bool {
    b[0] == 0x49 && b[1] == 0x4d && b[2] == 0x47 && b[3] == 0x20
}

/// The first check on the header that a byte stream fails, if any.
pub open spec fn header_error(b: Seq<u8>) -> Option<DecodeError> {
    if b.len() < 16 || (b.len() - 16) % 2 != 0 {
        Some(DecodeError::Truncated)
    } else if !magic_ok(b) {
        Some(DecodeError::BadMagic)
    } else if le_u32(b, 4) != (b.len() - 16) / 2 + 8 {
        Some(DecodeError::SizeMismatch)
    } else if le_u32(b, 8) * le_u32(b, 12) > u32::MAX {
        Some(DecodeError::TooLarge)
    } else {
        None
    }
}

/// The first check that a byte stream fails as a container, if any.
pub open spec fn container_error(b: Seq<u8>) -> Option<DecodeError> {
    if header_error(b) is Some {
        header_error(b)
    } else if expand_words(data_words(b)).len() != le_u32(b, 8) * le_u32(b, 12) {
        Some(DecodeError::PixelCountMismatch)
    } else {
        None
    }
}

/// The bytes of a container of the given size and data words.
pub open spec fn is_container(b: Seq<u8>, width: u32, height: u32, ws: Seq<u16>) -> bool {
    &&& b.len() == 16 + 2 * ws.len()
    &&& magic_ok(b)
    &&& le_u32(b, 4) == ws.len() + 8
    &&& le_u32(b, 8) == width
    &&& le_u32(b, 12) == height
    &&& data_words(b) == ws
}

fn push_u16(out: &mut Vec<u8>, v: u16)
    ensures
        final(out)@.len() == old(out)@.len() + 2,
        forall|k: int| 0 <= k < old(out)@.len() ==> final(out)@[k] == old(out)@[k],
        le_u16(final(out)@, old(out)@.len() as int) == v,
{
    out.push((v % 256) as u8);
    out.push((v / 256) as u8);
}

fn push_u32(out: &mut Vec<u8>, v: u32)
    ensures
        final(out)@.len() == old(out)@.len() + 4,
        forall|k: int| 0 <= k < old(out)@.len() ==> final(out)@[k] == old(out)@[k],
        le_u32(final(out)@, old(out)@.len() as int) == v,
{
    out.push((v % 256) as u8);
    out.push(((v / 256) % 256) as u8);
    out.push(((v / 65536) % 256) as u8);
    out.push((v / 16777216) as u8);
}

fn read_u32(b: &Vec<u8>, off: usize) -> (r: u32)
    requires
        off <= 12,
        off + 4 <= b@.len(),
    ensures
        r == le_u32(b@, off as int),
{
    let b0: u32 = b[off] as u32;
    let b1: u32 = b[off + 1] as u32;
    let b2: u32 = b[off + 2] as u32;
    let b3: u32 = b[off + 3] as u32;
    assert(b0 <= 255 && b1 <= 255 && b2 <= 255 && b3 <= 255);
    b0 + b1 * 256 + b2 * 65536 + b3 * 16777216
}

proof fn lemma_expand_push(ws: Seq<u16>, w: u16)
    ensures
        expand_words(ws.push(w)) == expand_words(ws) + word_pixels(w),
{
    assert(ws.push(w).drop_last() == ws);
}

proof fn lemma_expand_prefix_len(ws: Seq<u16>, i: int)
    requires
        0 <= i <= ws.len(),
    ensures
        expand_words(ws.subrange(0, i)).len() <= expand_words(ws).len(),
    decreases ws.len() - i,
{
    if i < ws.len() {
        lemma_expand_prefix_len(ws, i + 1);
        assert(ws.subrange(0, i + 1).drop_last() == ws.subrange(0, i));
    } else {
        assert(ws.subrange(0, i) == ws);
    }
}

proof fn lemma_raw_push(s: Seq<Color16>, c: Color16)
    ensures
        raw_words(s.push(c)) == raw_words(s).push(c.0),
{
    assert(raw_words(s.push(c)) =~= raw_words(s).push(c.0));
}

proof fn lemma_runs_push(ws: Seq<u16>, w: u16)
    requires
        runs_maximal(ws),
        ws.len() > 0 && ws.last() < 0x8000 && w < 0x8000 ==> ws.last() == 0x7fff,
    ensures
        runs_maximal(ws.push(w)),
{
    let v = ws.push(w);
    assert forall|i: int| 0 <= i < v.len() - 1 && #[trigger] v[i] < 0x8000 && v[i + 1] < 0x8000 implies v[i] == 0x7fff by {
        if i < ws.len() - 1 {
            assert(ws[i] < 0x8000 && ws[i + 1] < 0x8000);
        }
    }
}

proof fn lemma_rle_state(px: Seq<u16>)
    ensures
        rle_state(px).0.len() + rle_state(px).1 <= px.len(),
        rle_state(px).1 <= MAX_RUN,
        encodable(px) ==> ({
            let (ws, acc) = rle_state(px);
            &&& expand_words(ws) + zeros(acc) == px
            &&& runs_maximal(ws)
            &&& (acc > 0 && ws.len() > 0 && ws.last() < 0x8000 ==> ws.last() == 0x7fff)
        }),
    decreases px.len(),
{
    if px.len() > 0 {
        let prev = px.drop_last();
        lemma_rle_state(prev);
        let (ws, acc) = rle_state(prev);
        let p = px.last();
        assert(px == prev.push(p));
        if encodable(px) {
            assert(encodable(prev)) by {
                assert forall|i: int| 0 <= i < prev.len() implies prev[i] == 0 || prev[i] >= 0x8000 by {
                    assert(prev[i] == px[i]);
                }
            }
            assert(p == 0 || p >= 0x8000) by {
                assert(px[px.len() - 1] == p);
            }
            if p == 0 {
                if acc < MAX_RUN {
                    assert(expand_words(ws) + zeros(acc + 1) =~= px);
                } else {
                    let w = (acc - 1) as u16;
                    lemma_expand_push(ws, w);
                    lemma_runs_push(ws, w);
                    assert(expand_words(ws.push(w)) + zeros(1) =~= px);
                }
            } else if acc > 0 {
                let w = (acc - 1) as u16;
                lemma_expand_push(ws, w);
                lemma_runs_push(ws, w);
                lemma_expand_push(ws.push(w), p);
                lemma_runs_push(ws.push(w), p);
                assert(expand_words(ws.push(w).push(p)) + zeros(0) =~= px);
            } else {
                lemma_expand_push(ws, p);
                lemma_runs_push(ws, p);
                assert(expand_words(ws.push(p)) + zeros(0) =~= px);
            }
        }
    }
}

/// The encoded words are never more than the pixels.
proof fn lemma_rle_len(px: Seq<u16>)
    ensures
        rle_encode(px).len() <= px.len(),
{
    lemma_rle_state(px);
}

/// Run-length encoding a plane whose pixels are each transparent (zero) or opaque (alpha bit
/// set), writing the words into a container and decoding it gives the same size and pixels back;
/// two run words stand side by side only where the first is a full chunk.
pub proof fn lemma_codec_round_trip(p: Plane<Color16>, b: Seq<u8>)
    requires
        p.wf(),
        encodable(raw_words(p.cells())),
        is_container(b, p.width, p.height, rle_encode(raw_words(p.cells()))),
    ensures
        expand_words(rle_encode(raw_words(p.cells()))) == raw_words(p.cells()),
        runs_maximal(rle_encode(raw_words(p.cells()))),
        container_error(b) is None,
        le_u32(b, 8) == p.width,
        le_u32(b, 12) == p.height,
        forall|q: Seq<Color16>| #[trigger] raw_words(q) == expand_words(data_words(b)) ==> q == p.cells(),
{
    let px = raw_words(p.cells());
    lemma_rle_state(px);
    let (ws, acc) = rle_state(px);
    if acc > 0 {
        lemma_expand_push(ws, (acc - 1) as u16);
        lemma_runs_push(ws, (acc - 1) as u16);
        assert(word_pixels((acc - 1) as u16) =~= zeros(acc));
    } else {
        assert(expand_words(ws) + zeros(0) =~= expand_words(ws));
    }
    assert forall|q: Seq<Color16>| #[trigger] raw_words(q) == expand_words(data_words(b)) implies q == p.cells() by {
        assert(q.len() == p.cells().len());
        assert forall|i: int| 0 <= i < q.len() implies q[i] == p.cells()[i] by {
            assert(raw_words(q)[i] == px[i]);
        }
        assert(q =~= p.cells());
    }
}

/// The pixels that the data words of a container stand for, when they are exactly `n`.
fn decode_pixels(bytes: &Vec<u8>, nwords: usize, n: u32) -> (r: Option<Vec<Color16>>)
    requires
        16 + 2 * nwords == bytes@.len(),
    ensures
        match r {
            Some(v) => v@.len() == n && raw_words(v@) == expand_words(data_words(bytes@)),
            None => expand_words(data_words(bytes@)).len() != n,
        },
{
    let ghost ws = data_words(bytes@);
    let len = bytes.len();
    let mut out: Vec<Color16> = Vec::new();
    let mut i: usize = 0;
    while i < nwords
        invariant
            16 + 2 * nwords == bytes@.len(),
            len == bytes@.len(),
            ws == data_words(bytes@),
            ws.len() == nwords,
            i <= nwords,
            out@.len() <= n,
            raw_words(out@) == expand_words(ws.subrange(0, i as int)),
        decreases nwords - i,
    {
        proof {
            assert(ws.subrange(0, i + 1) == ws.subrange(0, i as int).push(ws[i as int]));
            lemma_expand_push(ws.subrange(0, i as int), ws[i as int]);
            assert(raw_words(out@).len() == out@.len());
        }
        let lo = bytes[16 + 2 * i] as u16;
        let hi = bytes[17 + 2 * i] as u16;
        let word: u16 = lo + hi * 256;
        assert(word == ws[i as int]);
        let have = out.len() as u32;
        if word < 0x8000 {
            let run: u32 = word as u32 + 1;
            if n - have < run {
                proof {
                    lemma_expand_prefix_len(ws, i + 1);
                }
                return None;
            }
            let ghost before = raw_words(out@);
            let mut k: u32 = 0;
            while k < run
                invariant
                    k <= run,
                    have + run <= n,
                    out@.len() == have + k,
                    raw_words(out@) == before + zeros(k as nat),
                decreases run - k,
            {
                proof {
                    lemma_raw_push(out@, Color16(0));
                    assert(before + zeros(k as nat) + seq![0u16] =~= before + zeros((k + 1) as nat));
                }
                out.push(Color16(0));
                k += 1;
            }
        } else {
            if have == n {
                proof {
                    lemma_expand_prefix_len(ws, i + 1);
                }
                return None;
            }
            proof {
                lemma_raw_push(out@, Color16(word));
            }
            out.push(Color16(word));
        }
        i += 1;
    }
    proof {
        assert(ws.subrange(0, nwords as int) == ws);
    }
    if out.len() as u32 != n {
        return None;
    }
    Some(out)
}

impl Plane<Color16> {
    /// The run-length-compressed data words of this plane, in raster order.
    pub fn encode_words(&self) -> (r: Vec<u16>)
        ensures
            r@ == rle_encode(raw_words(self.cells())),
    {
        let ghost px = raw_words(self.cells());
        let mut data: Vec<u16> = Vec::new();
        let mut accum: u16 = 0;
        let mut i: usize = 0;
        while i < self.data.len()
            invariant
                0 <= i <= self.data@.len(),
                px == raw_words(self.cells()),
                (data@, accum as nat) == rle_state(px.subrange(0, i as int)),
                accum <= MAX_RUN,
            decreases self.data@.len() - i,
        {
            proof {
                assert(px.subrange(0, i + 1).drop_last() == px.subrange(0, i as int));
            }
            let pixel = self.data[i];
            if pixel.is_transparent() {
                if accum < MAX_RUN {
                    accum += 1;
                } else {
                    data.push(accum - 1);
                    accum = 1;
                }
            } else {
                if accum > 0 {
                    data.push(accum - 1);
                    accum = 0;
                }
                data.push(pixel.0);
            }
            i += 1;
        }
        proof {
            assert(px.subrange(0, i as int) == px);
        }
        if accum > 0 {
            data.push(accum - 1);
        }
        data
    }

    /// The container bytes of this plane: magic `IMG `, the payload size (data words plus 8),
    /// width and height as little-endian 32-bit values, then the data words, little-endian.
    pub fn encode(&self) -> (r: Vec<u8>)
        requires
            self.wf(),
            self.width * self.height + 8 <= u32::MAX,
        ensures
            is_container(r@, self.width, self.height, rle_encode(raw_words(self.cells()))),
    {
        let data = self.encode_words();
        proof {
            lemma_rle_len(raw_words(self.cells()));
        }
        let mut out: Vec<u8> = Vec::new();
        out.push(0x49);
        out.push(0x4d);
        out.push(0x47);
        out.push(0x20);
        let size: u32 = data.len() as u32 + 8;
        push_u32(&mut out, size);
        push_u32(&mut out, self.width);
        push_u32(&mut out, self.height);
        let mut j: usize = 0;
        while j < data.len()
            invariant
                j <= data@.len(),
                data@.len() + 8 <= u32::MAX,
                size == data@.len() + 8,
                out@.len() == 16 + 2 * j,
                magic_ok(out@),
                le_u32(out@, 4) == size,
                le_u32(out@, 8) == self.width,
                le_u32(out@, 12) == self.height,
                forall|k: int| 0 <= k < j ==> le_u16(out@, 16 + 2 * k) == data@[k],
            decreases data@.len() - j,
        {
            push_u16(&mut out, data[j]);
            j += 1;
        }
        assert(data_words(out@) =~= data@);
        out
    }

    /// Reads a container back into a plane, or names the first check that the bytes fail.
    pub fn decode(bytes: &Vec<u8>) -> (r: Result<Plane<Color16>, DecodeError>)
        ensures
            match r {
                Ok(p) => {
                    &&& container_error(bytes@) is None
                    &&& p.wf()
                    &&& p.width == le_u32(bytes@, 8)
                    &&& p.height == le_u32(bytes@, 12)
                    &&& raw_words(p.cells()) == expand_words(data_words(bytes@))
                },
                Err(e) => container_error(bytes@) == Some(e),
            },
    {
        let len = bytes.len();
        if len < 16 || (len - 16) % 2 != 0 {
            return Err(DecodeError::Truncated);
        }
        if bytes[0] != 0x49 || bytes[1] != 0x4d || bytes[2] != 0x47 || bytes[3] != 0x20 {
            return Err(DecodeError::BadMagic);
        }
        let size = read_u32(bytes, 4);
        let nwords: usize = (len - 16) / 2;
        if nwords > 0xffff_fff7 || size != nwords as u32 + 8 {
            return Err(DecodeError::SizeMismatch);
        }
        let width = read_u32(bytes, 8);
        let height = read_u32(bytes, 12);
        proof {
            assert((width as u64) * (height as u64) <= 0xffff_ffff * 0xffff_ffff) by (nonlinear_arith)
                requires
                    width <= 0xffff_ffff,
                    height <= 0xffff_ffff,
            ;
        }
        if (width as u64) * (height as u64) > 0xffff_ffff {
            return Err(DecodeError::TooLarge);
        }
        let n: u32 = width * height;
        match decode_pixels(bytes, nwords, n) {
            Some(out) => Ok(Plane { data: out, width, height }),
            None => Err(DecodeError::PixelCountMismatch),
        }
    }
}

} // verus!
