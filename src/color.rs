use vstd::prelude::*;
use vstd::string::StringSliceAdditionalSpecFns;

verus! {

/// An RGB pixel with three 8-bit channels.
#[derive(Clone, Copy, Debug, PartialEq, Eq, Structural)]
pub struct Color {
    pub r: u8,
    pub g: u8,
    pub b: u8,
}

/// A quantization error: one signed delta per channel.
#[derive(Clone, Copy, Debug, PartialEq, Eq, Structural)]
pub struct ColorDiff {
    pub r: i16,
    pub g: i16,
    pub b: i16,
}

/// Why a hexadecimal color string was rejected.
#[derive(Clone, Copy, Debug, PartialEq, Eq, Structural)]
pub enum ParseColorError {
    /// A byte of the string is not a hexadecimal digit.
    InvalidDigit,
    /// The string is made of hexadecimal digits, but not of exactly six.
    InvalidLength,
}

/// Every channel of `d` lies within ±255, as the difference of two colors does.
pub open spec fn small_diff(d: ColorDiff) -> bool {
    -255 <= d.r <= 255 && -255 <= d.g <= 255 && -255 <= d.b <= 255
}

/// `v` clamped into the range of a channel.
pub open spec fn clamp_channel(v: int) -> u8 {
    if v < 0 {
        0
    } else if v > 255 {
        255
    } else {
        v as u8
    }
}

/// A color moved by a diff, each channel saturating at 0 and 255.
pub open spec fn add_diff(c: Color, d: ColorDiff) -> Color {
    Color {
        r: clamp_channel(c.r + d.r),
        g: clamp_channel(c.g + d.g),
        b: clamp_channel(c.b + d.b),
    }
}

/// The exact channel-wise difference `a - b`.
pub open spec fn color_diff(a: Color, b: Color) -> ColorDiff {
    ColorDiff { r: (a.r - b.r) as i16, g: (a.g - b.g) as i16, b: (a.b - b.b) as i16 }
}

/// Integer division rounding toward zero, as Rust's `/` does.
pub open spec fn trunc_div(v: int, d: int) -> int {
    let q = abs(v) / abs(d);
    if (v >= 0) == (d > 0) {
        q
    } else {
        -q
    }
}

pub open spec fn abs(v: int) -> int {
    if v >= 0 {
        v
    } else {
        -v
    }
}

/// `d` scaled by `num / den` fits in a diff, channel by channel.
pub open spec fn scale_fits(d: ColorDiff, num: int, den: int) -> bool {
    &&& i16::MIN <= trunc_div(d.r * num, den) <= i16::MAX
    &&& i16::MIN <= trunc_div(d.g * num, den) <= i16::MAX
    &&& i16::MIN <= trunc_div(d.b * num, den) <= i16::MAX
}

/// Each channel of `d` multiplied by `num`, then divided by `den` rounding toward zero.
pub open spec fn scale_diff(d: ColorDiff, num: int, den: int) -> ColorDiff {
    ColorDiff {
        r: trunc_div(d.r * num, den) as i16,
        g: trunc_div(d.g * num, den) as i16,
        b: trunc_div(d.b * num, den) as i16,
    }
}

/// Squared Euclidean distance between two colors.
pub open spec fn dist(a: Color, b: Color) -> int {
    (a.r - b.r) * (a.r - b.r) + (a.g - b.g) * (a.g - b.g) + (a.b - b.b) * (a.b - b.b)
}

/// Index of the first color among `colors[0..n]` nearest to `c`.
pub open spec fn closest_in(colors: Seq<Color>, c: Color, n: int) -> int
    decreases n,
{
    if n <= 1 {
        0
    } else {
        let k = closest_in(colors, c, n - 1);
        if dist(colors[n - 1], c) < dist(colors[k], c) {
            n - 1
        } else {
            k
        }
    }
}

/// Index of the first palette color nearest to `c`.
pub open spec fn closest_index(colors: Seq<Color>, c: Color) -> int {
    closest_in(colors, c, colors.len() as int)
}

/// The palette color that `c` is quantized to.
pub open spec fn quantize(colors: Seq<Color>, c: Color) -> Color {
    colors[closest_index(colors, c)]
}

/// What is lost when `c` is quantized.
pub open spec fn quant_error(colors: Seq<Color>, c: Color) -> ColorDiff {
    color_diff(c, quantize(colors, c))
}

/// `i` is the lowest index of a color nearest to `c` among `colors[0..n]`.
pub open spec fn is_first_nearest(colors: Seq<Color>, c: Color, n: int, i: int) -> bool {
    &&& 0 <= i < n
    &&& forall|j: int| 0 <= j < n ==> dist(colors[i], c) <= #[trigger] dist(colors[j], c)
    &&& forall|j: int| 0 <= j < i ==> dist(colors[i], c) < #[trigger] dist(colors[j], c)
}

pub proof fn lemma_closest_in(colors: Seq<Color>, c: Color, n: int)
    requires
        1 <= n <= colors.len(),
    ensures
        is_first_nearest(colors, c, n, closest_in(colors, c, n)),
    decreases n,
{
    if n > 1 {
        lemma_closest_in(colors, c, n - 1);
    }
}

/// Of two palette colors equally near to `c`, and nearest, quantization
/// never picks the later one: it picks the earlier one or one before it.
pub proof fn lemma_tie_goes_to_lower_index(colors: Seq<Color>, c: Color, i: int, j: int)
    requires
        0 <= i < j < colors.len(),
        dist(colors[i], c) == dist(colors[j], c),
        forall|k: int| 0 <= k < colors.len() ==> dist(colors[i], c) <= #[trigger] dist(colors[k], c),
    ensures
        closest_index(colors, c) <= i,
        closest_index(colors, c) != j,
{
    lemma_closest_in(colors, c, colors.len() as int);
    let r = closest_index(colors, c);
    if r > i {
        assert(dist(colors[r], c) < dist(colors[i], c));
    }
}

/// Adding a diff saturates each channel: below 0 it stops at 0, above 255 at
/// 255, and in between it is exact.
pub proof fn lemma_saturation(c: Color, d: ColorDiff)
    ensures
        c.r + d.r < 0 ==> add_diff(c, d).r == 0,
        c.r + d.r > 255 ==> add_diff(c, d).r == 255,
        0 <= c.r + d.r <= 255 ==> add_diff(c, d).r == c.r + d.r,
        c.g + d.g < 0 ==> add_diff(c, d).g == 0,
        c.g + d.g > 255 ==> add_diff(c, d).g == 255,
        0 <= c.g + d.g <= 255 ==> add_diff(c, d).g == c.g + d.g,
        c.b + d.b < 0 ==> add_diff(c, d).b == 0,
        c.b + d.b > 255 ==> add_diff(c, d).b == 255,
        0 <= c.b + d.b <= 255 ==> add_diff(c, d).b == c.b + d.b,
{
}

/// A color of the palette is quantized to itself, with no error.
pub proof fn lemma_quantize_member(colors: Seq<Color>, c: Color, j: int)
    requires
        0 <= j < colors.len(),
        colors[j] == c,
    ensures
        quantize(colors, c) == c,
        quant_error(colors, c) == (ColorDiff { r: 0, g: 0, b: 0 }),
{
    lemma_closest_in(colors, c, colors.len() as int);
    let q = quantize(colors, c);
    assert(dist(q, c) <= dist(colors[j], c));
    assert(dist(colors[j], c) == 0);
    let dr = q.r - c.r;
    let dg = q.g - c.g;
    let db = q.b - c.b;
    assert(dr * dr >= 0 && dg * dg >= 0 && db * db >= 0) by (nonlinear_arith);
    assert(dr == 0) by (nonlinear_arith)
        requires
            dr * dr + dg * dg + db * db <= 0,
            dg * dg >= 0,
            db * db >= 0,
    ;
    assert(dg == 0) by (nonlinear_arith)
        requires
            dr * dr + dg * dg + db * db <= 0,
            dr * dr >= 0,
            db * db >= 0,
    ;
    assert(db == 0) by (nonlinear_arith)
        requires
            dr * dr + dg * dg + db * db <= 0,
            dr * dr >= 0,
            dg * dg >= 0,
    ;
}

/// Value of an ASCII hexadecimal digit: `0`-`9` are 48-57, `a`-`f` 97-102, `A`-`F` 65-70.
pub open spec fn hex_digit_value(ch: u8) -> Option<u8> {
    if 48 <= ch <= 57 {
        Some((ch - 48) as u8)
    } else if 97 <= ch <= 102 {
        Some((ch - 87) as u8)
    } else if 65 <= ch <= 70 {
        Some((ch - 55) as u8)
    } else {
        None
    }
}

pub open spec fn is_hex_digit(ch: u8) -> bool {
    hex_digit_value(ch) is Some
}

/// The byte that two hexadecimal digits spell, high digit first.
pub open spec fn hex_pair(hi: u8, lo: u8) -> u8 {
    (hex_digit_value(hi).unwrap() * 16 + hex_digit_value(lo).unwrap()) as u8
}

/// What parsing `bytes` as `RRGGBB` gives.
pub open spec fn parse_hex_color(bytes: Seq<u8>) -> Result<Color, ParseColorError> {
    if exists|i: int| 0 <= i < bytes.len() && !is_hex_digit(#[trigger] bytes[i]) {
        Err(ParseColorError::InvalidDigit)
    } else if bytes.len() != 6 {
        Err(ParseColorError::InvalidLength)
    } else {
        Ok(
            Color {
                r: hex_pair(bytes[0], bytes[1]),
                g: hex_pair(bytes[2], bytes[3]),
                b: hex_pair(bytes[4], bytes[5]),
            },
        )
    }
}

fn hex_value(ch: u8) -> (r: Option<u8>)
    ensures
        r == hex_digit_value(ch),
{
    if 48 <= ch && ch <= 57 {
        Some(ch - 48)
    } else if 97 <= ch && ch <= 102 {
        Some(ch - 87)
    } else if 65 <= ch && ch <= 70 {
        Some(ch - 55)
    } else {
        None
    }
}

fn hex_byte(hi: u8, lo: u8) -> (r: u8)
    requires
        is_hex_digit(hi),
        is_hex_digit(lo),
    ensures
        r == hex_pair(hi, lo),
{
    let h = match hex_value(hi) {
        Some(x) => x,
        None => 0,
    };
    let l = match hex_value(lo) {
        Some(x) => x,
        None => 0,
    };
    h * 16 + l
}

fn channel_add(c: u8, d: i16) -> (r: u8)
    ensures
        r == clamp_channel(c + d),
{
    let v: i32 = c as i32 + d as i32;
    if v < 0 {
        0
    } else if v > 255 {
        255
    } else {
        v as u8
    }
}

fn channel_scale(v: i16, num: i16, den: i16) -> (r: i16)
    requires
        den != 0,
        i16::MIN <= trunc_div(v * num, den as int) <= i16::MAX,
    ensures
        r == trunc_div(v * num, den as int),
{
    assert(-32768 * 32768 <= v * num <= 32768 * 32768) by (nonlinear_arith)
        requires
            -32768 <= v <= 32767,
            -32768 <= num <= 32767,
    ;
    let p: i64 = v as i64 * num as i64;
    let m: i64 = if p >= 0 {
        p
    } else {
        -p
    };
    let n: i64 = if den > 0 {
        den as i64
    } else {
        -(den as i64)
    };
    let q: i64 = m / n;
    if (p >= 0) == (den > 0) {
        q as i16
    } else {
        (-q) as i16
    }
}

impl Color {
    pub fn new(r: u8, g: u8, b: u8) -> (c: Color)
        ensures
            c == (Color { r, g, b }),
    {
        Color { r, g, b }
    }

    /// Parses a color written as six hexadecimal digits, `RRGGBB`, in either case.
    pub fn from_str(s: &str) -> (res: Result<Color, ParseColorError>)
        ensures
            res == parse_hex_color(s.spec_bytes()),
    {
        let bytes = s.as_bytes();
        let mut i: usize = 0;
        while i < bytes.len()
            invariant
                i <= bytes@.len(),
                bytes@ == s.spec_bytes(),
                forall|j: int| 0 <= j < i ==> is_hex_digit(#[trigger] bytes@[j]),
            decreases bytes@.len() - i,
        {
            if hex_value(bytes[i]).is_none() {
                return Err(ParseColorError::InvalidDigit);
            }
            i += 1;
        }
        if bytes.len() != 6 {
            return Err(ParseColorError::InvalidLength);
        }
        assert(is_hex_digit(bytes@[0]) && is_hex_digit(bytes@[1]) && is_hex_digit(bytes@[2]));
        assert(is_hex_digit(bytes@[3]) && is_hex_digit(bytes@[4]) && is_hex_digit(bytes@[5]));
        Ok(
            Color {
                r: hex_byte(bytes[0], bytes[1]),
                g: hex_byte(bytes[2], bytes[3]),
                b: hex_byte(bytes[4], bytes[5]),
            },
        )
    }
    /// Overwrites this color with `other`.
    pub fn set(&mut self, other: Color)
        ensures
            *final(self) == other,
    {
        *self = other;
    }

    pub fn r(&self) -> (v: u8)
        ensures
            v == self.r,
    {
        self.r
    }

    pub fn g(&self) -> (v: u8)
        ensures
            v == self.g,
    {
        self.g
    }

    pub fn b(&self) -> (v: u8)
        ensures
            v == self.b,
    {
        self.b
    }

    /// The exact difference `self - other`, channel by channel.
    pub fn sub(self, other: Color) -> (d: ColorDiff)
        ensures
            d == color_diff(self, other),
            small_diff(d),
    {
        ColorDiff {
            r: self.r as i16 - other.r as i16,
            g: self.g as i16 - other.g as i16,
            b: self.b as i16 - other.b as i16,
        }
    }

    /// `self` moved by `d`; a channel that would leave `0..=255` stops at the bound.
    pub fn add(self, d: ColorDiff) -> (c: Color)
        ensures
            c == add_diff(self, d),
    {
        Color { r: channel_add(self.r, d.r), g: channel_add(self.g, d.g), b: channel_add(self.b, d.b) }
    }

    /// Moves `self` by `d` in place, saturating as `add` does.
    pub fn add_assign(&mut self, d: ColorDiff)
        ensures
            *final(self) == add_diff(*old(self), d),
    {
        *self = self.add(d);
    }
}

impl ColorDiff {
    /// Squared length of the diff.
    pub fn length(&self) -> (l: u32)
        ensures
            l == self.r * self.r + self.g * self.g + self.b * self.b,
    {
        let r: u32 = if self.r < 0 { (-(self.r as i32)) as u32 } else { self.r as u32 };
        let g: u32 = if self.g < 0 { (-(self.g as i32)) as u32 } else { self.g as u32 };
        let b: u32 = if self.b < 0 { (-(self.b as i32)) as u32 } else { self.b as u32 };
        assert(r * r <= 32768 * 32768 && g * g <= 32768 * 32768 && b * b <= 32768 * 32768)
            by (nonlinear_arith)
            requires
                r <= 32768,
                g <= 32768,
                b <= 32768,
        ;
        assert(r * r == self.r * self.r && g * g == self.g * self.g && b * b == self.b * self.b)
            by (nonlinear_arith)
            requires
                r == self.r || r == -self.r,
                g == self.g || g == -self.g,
                b == self.b || b == -self.b,
        ;
        r * r + g * g + b * b
    }

    /// Channel-wise `self - other`.
    pub fn sub(self, other: ColorDiff) -> (d: ColorDiff)
        requires
            i16::MIN <= self.r - other.r <= i16::MAX,
            i16::MIN <= self.g - other.g <= i16::MAX,
            i16::MIN <= self.b - other.b <= i16::MAX,
        ensures
            d.r == self.r - other.r,
            d.g == self.g - other.g,
            d.b == self.b - other.b,
    {
        ColorDiff { r: self.r - other.r, g: self.g - other.g, b: self.b - other.b }
    }

    /// Channel-wise `self * k`.
    pub fn mul(self, k: i16) -> (d: ColorDiff)
        requires
            i16::MIN <= self.r * k <= i16::MAX,
            i16::MIN <= self.g * k <= i16::MAX,
            i16::MIN <= self.b * k <= i16::MAX,
        ensures
            d.r == self.r * k,
            d.g == self.g * k,
            d.b == self.b * k,
    {
        ColorDiff { r: self.r * k, g: self.g * k, b: self.b * k }
    }

    /// Channel-wise `self / k`, rounding toward zero.
    pub fn div(self, k: i16) -> (d: ColorDiff)
        requires
            k != 0,
            scale_fits(self, 1, k as int),
        ensures
            d == scale_diff(self, 1, k as int),
    {
        ColorDiff {
            r: channel_scale(self.r, 1, k),
            g: channel_scale(self.g, 1, k),
            b: channel_scale(self.b, 1, k),
        }
    }

    /// Channel-wise `self * num / den`, the product taken exactly and then divided
    /// rounding toward zero: one of the weights of the diffusion kernel.
    pub fn scale(self, num: i16, den: i16) -> (d: ColorDiff)
        requires
            den != 0,
            scale_fits(self, num as int, den as int),
        ensures
            d == scale_diff(self, num as int, den as int),
    {
        ColorDiff {
            r: channel_scale(self.r, num, den),
            g: channel_scale(self.g, num, den),
            b: channel_scale(self.b, num, den),
        }
    }
}

/// An ordered, non-empty list of colors that pixels are quantized to.
pub struct Palette {
    colors: Vec<Color>,
}

impl View for Palette {
    type V = Seq<Color>;

    closed spec fn view(&self) -> Seq<Color> {
        self.colors@
    }
}

impl Palette {
    #[verifier::type_invariant]
    spec fn inv(&self) -> bool {
        self.colors@.len() >= 1
    }

    pub fn new(colors: Vec<Color>) -> (p: Palette)
        requires
            colors@.len() >= 1,
        ensures
            p@ == colors@,
    {
        Palette { colors }
    }

    /// Index of the palette color nearest to `color` by squared distance; of
    /// several nearest ones, the first.
    pub fn closest(&self, color: &Color) -> (i: usize)
        ensures
            i == closest_index(self@, *color),
            is_first_nearest(self@, *color, self@.len() as int, i as int),
    {
        proof {
            use_type_invariant(self);
        }
        let n = self.colors.len();
        let mut best: usize = 0;
        let mut best_len: u32 = self.colors[0].sub(*color).length();
        let mut i: usize = 1;
        while i < n
            invariant
                1 <= i <= n,
                n == self.colors@.len(),
                best == closest_in(self.colors@, *color, i as int),
                best < i,
                best_len == dist(self.colors@[best as int], *color),
            decreases n - i,
        {
            let l = self.colors[i].sub(*color).length();
            if l < best_len {
                best = i;
                best_len = l;
            }
            i += 1;
        }
        proof {
            lemma_closest_in(self.colors@, *color, n as int);
        }
        best
    }

    pub fn colors(&self) -> (s: &[Color])
        ensures
            s@ == self@,
            self@.len() >= 1,
    {
        proof {
            use_type_invariant(self);
        }
        self.colors.as_slice()
    }

    /// Index of the first palette entry equal to `color`, if any.
    pub fn find(&self, color: &Color) -> (r: Option<usize>)
        ensures
            r matches Some(i) ==> i < self@.len() && self@[i as int] == *color && forall|j: int|
                0 <= j < i ==> self@[j] != *color,
            r is None ==> forall|j: int| 0 <= j < self@.len() ==> self@[j] != *color,
    {
        let mut i: usize = 0;
        while i < self.colors.len()
            invariant
                i <= self.colors@.len(),
                forall|j: int| 0 <= j < i ==> self.colors@[j] != *color,
            decreases self.colors@.len() - i,
        {
            if self.colors[i] == *color {
                return Some(i);
            }
            i += 1;
        }
        None
    }
}

} // verus!
