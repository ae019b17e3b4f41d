use vstd::prelude::*;

verus! {

/// A packed 16-bit color: bit 15 is alpha, then three 5-bit channels R, G, B.
#[derive(Debug, Clone, Copy, PartialEq, Eq, Structural)]
pub struct Color16(pub u16);

/// A working color with signed channels that may leave [0, 255] while errors accumulate.
#[derive(Debug, Clone, Copy, PartialEq, Eq, Structural, Hash)]
pub struct Color32 {
    pub r: i32,
    pub g: i32,
    pub b: i32,
    pub a: i32,
}

/// The 8-bit value of a 5-bit channel: round(i * 255 / 31).
pub open spec fn expand5(i: int) -> int {
    (510 * i + 31) / 62
}

/// The 5-bit value of a working channel: its top five bits, after clamping.
pub open spec fn channel5(v: int) -> int {
    if v < 0 {
        0
    } else if v > 255 {
        31
    } else {
        v / 8
    }
}

pub open spec fn alpha1(a: int) -> int {
    if a <= 0 {
        0
    } else {
        1
    }
}

/// The packed word of a working color.
pub open spec fn pack(c: Color32) -> u16 {
    (alpha1(c.a as int) * 32768 + channel5(c.r as int) * 1024 + channel5(c.g as int) * 32
        + channel5(c.b as int)) as u16
}

/// The working color of a packed word.
pub open spec fn unpack(w: u16) -> Color32 {
    Color32 {
        r: expand5((w as int / 1024) % 32) as i32,
        g: expand5((w as int / 32) % 32) as i32,
        b: expand5(w as int % 32) as i32,
        a: if w >= 32768 {
            255
        } else {
            0
        },
    }
}

pub open spec fn clamp8(v: int) -> int {
    if v < 0 {
        0
    } else if v > 255 {
        255
    } else {
        v
    }
}

/// The squared Euclidean distance of two colors over R, G and B.
pub open spec fn dist2(c1: Color32, c2: Color32) -> int {
    (c1.r - c2.r) * (c1.r - c2.r) + (c1.g - c2.g) * (c1.g - c2.g) + (c1.b - c2.b) * (c1.b
        - c2.b)
}

/// A working color taken from an RGBA source pixel: alpha under 128 is fully transparent.
pub open spec fn ingest_rgba(r: u8, g: u8, b: u8, a: u8) -> Color32 {
    if a < 128 {
        Color32 { r: 0, g: 0, b: 0, a: 0 }
    } else {
        Color32 { r: r as i32, g: g as i32, b: b as i32, a: 255 }
    }
}

/// Quantizing an opaque 8-bit color and expanding it back moves each channel by at most
/// one quantization step (255 / 31), and quantizing the expanded color gives the same word.
pub proof fn lemma_opaque_round_trip(r: u8, g: u8, b: u8)
    ensures
        ({
            let c = Color32 { r: r as i32, g: g as i32, b: b as i32, a: 255 };
            let d = unpack(pack(c));
            &&& 961 * ((d.r - c.r) * (d.r - c.r)) <= 255 * 255
            &&& 961 * ((d.g - c.g) * (d.g - c.g)) <= 255 * 255
            &&& 961 * ((d.b - c.b) * (d.b - c.b)) <= 255 * 255
            &&& d.a == 255
            &&& pack(d) == pack(c)
        }),
{
    let c = Color32 { r: r as i32, g: g as i32, b: b as i32, a: 255 };
    lemma_channel_round_trip(r as int);
    lemma_channel_round_trip(g as int);
    lemma_channel_round_trip(b as int);
    lemma_word_fields(1, channel5(r as int), channel5(g as int), channel5(b as int));
    let d = unpack(pack(c));
    assert(d.r == expand5(channel5(r as int)));
    assert(d.g == expand5(channel5(g as int)));
    assert(d.b == expand5(channel5(b as int)));
}

proof fn lemma_word_fields(a: int, kr: int, kg: int, kb: int)
    requires
        0 <= a <= 1,
        0 <= kr < 32,
        0 <= kg < 32,
        0 <= kb < 32,
    ensures
        ({
            let w = a * 32768 + kr * 1024 + kg * 32 + kb;
            &&& 0 <= w < 65536
            &&& (w / 1024) % 32 == kr
            &&& (w / 32) % 32 == kg
            &&& w % 32 == kb
            &&& (w >= 32768) == (a == 1)
        }),
{
}

proof fn lemma_channel_round_trip(v: int)
    requires
        0 <= v <= 255,
    ensures
        0 <= expand5(channel5(v)) <= 255,
        channel5(expand5(channel5(v))) == channel5(v),
        961 * ((expand5(channel5(v)) - v) * (expand5(channel5(v)) - v)) <= 255 * 255,
{
    let k = v / 8;
    let e = (510 * k + 31) / 62;
    assert(8 * k <= e <= 8 * k + 7);
    assert(-7 <= e - v <= 7);
    assert(961 * ((e - v) * (e - v)) <= 255 * 255) by (nonlinear_arith)
        requires
            -7 <= e - v <= 7,
    ;
}

/// A source pixel under the alpha threshold packs to the zero word, and the zero word
/// expands to transparent black.
pub proof fn lemma_transparent_is_zero(r: u8, g: u8, b: u8, a: u8)
    ensures
        a < 128 ==> pack(ingest_rgba(r, g, b, a)) == 0,
        unpack(0) == (Color32 { r: 0, g: 0, b: 0, a: 0 }),
        forall|w: u16| #[trigger] unpack(w).a == 0 <==> w < 0x8000,
{
}

/// Builds the 32-entry table that expands a 5-bit channel to 8 bits.
pub fn get_color_map() -> (r: Vec<i32>)
    ensures
        r@.len() == 32,
        forall|i: int| 0 <= i < 32 ==> r@[i] == expand5(i),
{
    let mut result: Vec<i32> = Vec::new();
    let mut i: u16 = 0;
    while i < 32
        invariant
            i <= 32,
            result@.len() == i,
            forall|k: int| 0 <= k < i ==> result@[k] == expand5(k),
        decreases 32 - i,
    {
        result.push(expand_channel(i));
        i += 1;
    }
    result
}

fn expand_channel(i: u16) -> (r: i32)
    requires
        i < 32,
    ensures
        r == expand5(i as int),
        0 <= r <= 255,
{
    ((510 * i as i32 + 31) / 62) as i32
}

fn reduce_channel(v: i32) -> (r: u16)
    ensures
        r == channel5(v as int),
        r < 32,
{
    if v < 0 {
        0
    } else if v > 255 {
        31
    } else {
        (v / 8) as u16
    }
}

impl Color16 {
    /// The zero word, reserved for transparent pixels.
    pub fn transparent() -> (r: Color16)
        ensures
            r.0 == 0,
    {
        Color16(0)
    }

    /// True exactly for the zero word.
    pub fn is_transparent(&self) -> (r: bool)
        ensures
            r == (self.0 == 0),
    {
        self.0 == 0
    }
}

impl Default for Color16 {
    fn default() -> (r: Self)
        ensures
            r.0 == 0x8000,
    {
        Color16(0x8000)
    }
}

/// Each term of a sum of three squares that fits in an `i32` lies in [-46340, 46340].
proof fn lemma_square_bound(r: int, g: int, b: int)
    requires
        r * r + g * g + b * b <= i32::MAX,
    ensures
        -46340 <= r <= 46340,
        -46340 <= g <= 46340,
        -46340 <= b <= 46340,
        0 <= r * r <= i32::MAX,
        0 <= g * g <= i32::MAX,
        0 <= b * b <= i32::MAX,
{
    assert(0 <= r * r && 0 <= g * g && 0 <= b * b) by (nonlinear_arith);
    assert(-46340 <= r <= 46340) by (nonlinear_arith)
        requires
            r * r <= i32::MAX,
    ;
    assert(-46340 <= g <= 46340) by (nonlinear_arith)
        requires
            g * g <= i32::MAX,
    ;
    assert(-46340 <= b <= 46340) by (nonlinear_arith)
        requires
            b * b <= i32::MAX,
    ;
}

impl Color32 {
    pub fn new(r: i32, g: i32, b: i32, a: i32) -> (res: Color32)
        ensures
            res == (Color32 { r, g, b, a }),
    {
        Color32 { r, g, b, a }
    }

    pub fn distance_squared(color1: Color32, color2: Color32) -> (res: i32)
        requires
            dist2(color1, color2) <= i32::MAX,
        ensures
            res == dist2(color1, color2),
    {
        proof {
            lemma_square_bound(color1.r - color2.r, color1.g - color2.g, color1.b - color2.b);
        }
        let r = color1.r - color2.r;
        let g = color1.g - color2.g;
        let b = color1.b - color2.b;
        r * r + g * g + b * b
    }

    /// Componentwise sum of R, G and B; alpha becomes 255.
    pub fn add(self, rhs: Color32) -> (res: Color32)
        requires
            i32::MIN <= self.r + rhs.r <= i32::MAX,
            i32::MIN <= self.g + rhs.g <= i32::MAX,
            i32::MIN <= self.b + rhs.b <= i32::MAX,
        ensures
            res == (Color32 { r: (self.r + rhs.r) as i32, g: (self.g + rhs.g) as i32, b: (self.b + rhs.b) as i32, a: 255 }),
    {
        Color32 { r: self.r + rhs.r, g: self.g + rhs.g, b: self.b + rhs.b, a: 255 }
    }

    /// Adds R, G and B of `rhs` in place; alpha is kept.
    pub fn add_assign(&mut self, rhs: Color32)
        requires
            i32::MIN <= old(self).r + rhs.r <= i32::MAX,
            i32::MIN <= old(self).g + rhs.g <= i32::MAX,
            i32::MIN <= old(self).b + rhs.b <= i32::MAX,
        ensures
            *final(self) == (Color32 { r: (old(self).r + rhs.r) as i32, g: (old(self).g + rhs.g) as i32, b: (old(self).b + rhs.b) as i32, a: old(self).a }),
    {
        self.r = self.r + rhs.r;
        self.g = self.g + rhs.g;
        self.b = self.b + rhs.b;
    }

    /// Componentwise difference of R, G and B; alpha becomes 255.
    pub fn sub(self, rhs: Color32) -> (res: Color32)
        requires
            i32::MIN <= self.r - rhs.r <= i32::MAX,
            i32::MIN <= self.g - rhs.g <= i32::MAX,
            i32::MIN <= self.b - rhs.b <= i32::MAX,
        ensures
            res == (Color32 { r: (self.r - rhs.r) as i32, g: (self.g - rhs.g) as i32, b: (self.b - rhs.b) as i32, a: 255 }),
    {
        Color32 { r: self.r - rhs.r, g: self.g - rhs.g, b: self.b - rhs.b, a: 255 }
    }

    /// R, G and B scaled by `rhs`; alpha becomes 255.
    pub fn mul(self, rhs: i32) -> (res: Color32)
        requires
            i32::MIN <= self.r * rhs <= i32::MAX,
            i32::MIN <= self.g * rhs <= i32::MAX,
            i32::MIN <= self.b * rhs <= i32::MAX,
        ensures
            res == (Color32 { r: (self.r * rhs) as i32, g: (self.g * rhs) as i32, b: (self.b * rhs) as i32, a: 255 }),
    {
        Color32 { r: self.r * rhs, g: self.g * rhs, b: self.b * rhs, a: 255 }
    }

    /// Ingests an RGB source pixel: always opaque.
    pub fn from_rgb(r: u8, g: u8, b: u8) -> (res: Color32)
        ensures
            res == (Color32 { r: r as i32, g: g as i32, b: b as i32, a: 255 }),
    {
        Color32 { r: r as i32, g: g as i32, b: b as i32, a: 255 }
    }

    /// Ingests an RGBA source pixel with a hard transparency threshold at 128.
    pub fn from_rgba(r: u8, g: u8, b: u8, a: u8) -> (res: Color32)
        ensures
            res == ingest_rgba(r, g, b, a),
    {
        if a < 128 {
            Color32 { r: 0, g: 0, b: 0, a: 0 }
        } else {
            Color32 { r: r as i32, g: g as i32, b: b as i32, a: 255 }
        }
    }
}

impl Default for Color32 {
    fn default() -> (res: Self)
        ensures
            res == (Color32 { r: 0, g: 0, b: 0, a: 255 }),
    {
        Color32 { r: 0, g: 0, b: 0, a: 255 }
    }
}

impl From<Color32> for Color16 {
    fn from(color: Color32) -> (res: Self)
        ensures
            res.0 == pack(color),
    {
        let r = reduce_channel(color.r);
        let g = reduce_channel(color.g);
        let b = reduce_channel(color.b);
        let a: u16 = if color.a <= 0 {
            0
        } else {
            1
        };
        Color16(a * 32768 + r * 1024 + g * 32 + b)
    }
}

impl vstd::std_specs::convert::FromSpecImpl<Color32> for Color16 {
    open spec fn obeys_from_spec() -> bool {
        true
    }

    open spec fn from_spec(color: Color32) -> Color16 {
        Color16(pack(color))
    }
}

impl From<Color16> for Color32 {
    fn from(color: Color16) -> (res: Self)
        ensures
            res == unpack(color.0),
    {
        let r = expand_channel((color.0 / 1024) % 32);
        let g = expand_channel((color.0 / 32) % 32);
        let b = expand_channel(color.0 % 32);
        Color32 {
            r,
            g,
            b,
            a: if color.0 >= 32768 {
                255
            } else {
                0
            },
        }
    }
}

impl vstd::std_specs::convert::FromSpecImpl<Color16> for Color32 {
    open spec fn obeys_from_spec() -> bool {
        true
    }

    open spec fn from_spec(color: Color16) -> Color32 {
        unpack(color.0)
    }
}

} // verus!
