//! The RGB24 color primitive and its channel statistics: channel-wise
//! minimum, maximum and average, widest-channel selection, HSV projection,
//! hex formatting, per-level octant indices, and a channel radix sort.

use vstd::arithmetic::div_mod::lemma_div_is_ordered;
use vstd::arithmetic::div_mod::lemma_fundamental_div_mod;
use vstd::arithmetic::div_mod::lemma_fundamental_div_mod_converse;
use vstd::prelude::*;

verus! {

/// RGB channel.
#[derive(Clone, Copy, Debug, PartialEq, Eq, Structural)]
pub enum RGBChannel {
    Red,
    Green,
    Blue,
}

/// The index 0/1/2 that a channel tag stands for.
pub open spec fn spec_channel_index(channel: RGBChannel) -> int {
    match channel {
        RGBChannel::Red => 0,
        RGBChannel::Green => 1,
        RGBChannel::Blue => 2,
    }
}

impl RGBChannel {
    pub fn to_usize(self) -> (r: usize)
        ensures
            r == spec_channel_index(self),
    {
        match self {
            RGBChannel::Red => 0,
            RGBChannel::Green => 1,
            RGBChannel::Blue => 2,
        }
    }
}

/// RGB24 representation.
#[derive(Clone, Copy, Debug, PartialEq, Eq, Structural)]
pub struct Rgb24 {
    pub r: u8,
    pub g: u8,
    pub b: u8,
}

/// The channel of a color selected by index: 0 is red, 1 is green, 2 is blue.
pub open spec fn chan(c: Rgb24, ch: int) -> u8 {
    if ch == 0 {
        c.r
    } else if ch == 1 {
        c.g
    } else {
        c.b
    }
}

pub open spec fn min_u8(a: u8, b: u8) -> u8 {
    if a <= b {
        a
    } else {
        b
    }
}

pub open spec fn max_u8(a: u8, b: u8) -> u8 {
    if a >= b {
        a
    } else {
        b
    }
}

/// The channel-wise minimum of a sequence of colors, one channel at a time,
/// folded from the all-255 color, so an empty sequence folds to 255.
pub open spec fn lo_fold(s: Seq<Rgb24>, ch: int) -> u8
    decreases s.len(),
{
    if s.len() == 0 {
        255u8
    } else {
        min_u8(lo_fold(s.drop_last(), ch), chan(s.last(), ch))
    }
}

/// The channel-wise maximum of a sequence of colors, folded from the all-0 color.
pub open spec fn hi_fold(s: Seq<Rgb24>, ch: int) -> u8
    decreases s.len(),
{
    if s.len() == 0 {
        0u8
    } else {
        max_u8(hi_fold(s.drop_last(), ch), chan(s.last(), ch))
    }
}

/// The range that one channel spans over a sequence of colors.
pub open spec fn spec_delta(s: Seq<Rgb24>, ch: int) -> int {
    hi_fold(s, ch) - lo_fold(s, ch)
}

/// The widest channel of a sequence of colors and the range it spans.
/// Red wins only if strictly widest, then green; blue collects all ties.
/// The empty sequence has no spread at all and yields `(Blue, 0)`.
pub open spec fn spec_max_channel_delta(s: Seq<Rgb24>) -> (RGBChannel, u8) {
    if s.len() == 0 {
        (RGBChannel::Blue, 0u8)
    } else {
        let dr = spec_delta(s, 0);
        let dg = spec_delta(s, 1);
        let db = spec_delta(s, 2);
        if dr > dg && dr > db {
            (RGBChannel::Red, dr as u8)
        } else if dg > dr && dg > db {
            (RGBChannel::Green, dg as u8)
        } else {
            (RGBChannel::Blue, db as u8)
        }
    }
}

/// Every channel of every color of a sequence lies between the folded
/// channel minimum and maximum.
pub proof fn lemma_fold_bounds(s: Seq<Rgb24>, ch: int, i: int)
    requires
        0 <= i < s.len(),
    ensures
        lo_fold(s, ch) <= chan(s[i], ch),
        chan(s[i], ch) <= hi_fold(s, ch),
    decreases s.len(),
{
    if i < s.len() - 1 {
        lemma_fold_bounds(s.drop_last(), ch, i);
    }
}

/// The sum of one channel over a sequence of colors.
pub open spec fn sum_chan(s: Seq<Rgb24>, ch: int) -> int
    decreases s.len(),
{
    if s.len() == 0 {
        0
    } else {
        sum_chan(s.drop_last(), ch) + chan(s.last(), ch)
    }
}

/// The quotient `sum / n` rounded to the nearest integer, halves away from
/// zero; both arguments are taken to be nonnegative with `n` positive.
pub open spec fn round_div(sum: int, n: int) -> int {
    (2 * sum + n) / (2 * n)
}

/// `sum / n` rounded to the nearest integer, halves away from zero.
fn rounded_mean(sum: u64, n: u64) -> (q: u8)
    requires
        1 <= n,
        sum <= 255 * n,
        n <= 0x100_0000_0000_0000,
    ensures
        q == round_div(sum as int, n as int),
{
    let quot = sum / n;
    let rem = sum % n;
    proof {
        lemma_fundamental_div_mod(sum as int, n as int);
        assert(sum == n * quot + rem);
        assert(quot <= 255 && (quot == 255 ==> rem == 0)) by (nonlinear_arith)
            requires
                sum == n * quot + rem,
                sum <= 255 * n,
                0 <= rem < n,
                1 <= n,
        ;
        if n - rem <= rem {
            // 2*sum + n == (2*n)*(quot + 1) + (2*rem - n), 0 <= 2*rem - n < 2*n
            assert(2 * sum + n == (quot + 1) * (2 * n) + (2 * rem - n)) by (nonlinear_arith)
                requires
                    sum == n * quot + rem,
            ;
            lemma_fundamental_div_mod_converse(
                2 * sum + n,
                2 * n,
                quot as int + 1,
                2 * rem - n,
            );
        } else {
            // 2*sum + n == (2*n)*quot + (2*rem + n), 0 <= 2*rem + n < 2*n
            assert(2 * sum + n == quot * (2 * n) + (2 * rem + n)) by (nonlinear_arith)
                requires
                    sum == n * quot + rem,
            ;
            lemma_fundamental_div_mod_converse(2 * sum + n, 2 * n, quot as int, 2 * rem + n);
        }
    }
    if n - rem <= rem {
        (quot + 1) as u8
    } else {
        quot as u8
    }
}

pub open spec fn max3(a: u8, b: u8, c: u8) -> u8 {
    max_u8(a, max_u8(b, c))
}

pub open spec fn min3(a: u8, b: u8, c: u8) -> u8 {
    min_u8(a, min_u8(b, c))
}

/// The largest channel value of a color.
pub open spec fn cmax_of(c: Rgb24) -> u8 {
    max3(c.r, c.g, c.b)
}

/// The spread between the largest and the smallest channel value of a color.
pub open spec fn dspan(c: Rgb24) -> int {
    cmax_of(c) - min3(c.r, c.g, c.b)
}

/// The value byte of the HSV projection: `100 * cmax / 255` rounded to the
/// nearest integer, halves away from zero.
pub open spec fn spec_hsv_v(c: Rgb24) -> int {
    (200 * cmax_of(c) + 255) / 510
}

/// The saturation byte of the HSV projection: `100 * delta / cmax` rounded to
/// the nearest integer, or 0 for black.
pub open spec fn spec_hsv_s(c: Rgb24) -> int {
    if cmax_of(c) == 0 {
        0
    } else {
        (200 * dspan(c) + cmax_of(c)) / (2 * cmax_of(c))
    }
}

/// The hue byte of the HSV projection, on the half-degree scale `[0, 180]`:
/// `30` times the usual hue sector expression, rounded to the nearest
/// integer. A color without spread has no hue and maps to 0.
pub open spec fn spec_hsv_h(c: Rgb24) -> int {
    let mx = cmax_of(c) as int;
    let d = dspan(c);
    if mx == 0 || d == 0 {
        0
    } else if c.r == cmax_of(c) {
        let t = if c.g >= c.b {
            c.g - c.b
        } else {
            6 * d + c.g - c.b
        };
        (60 * t + d) / (2 * d)
    } else if c.g == cmax_of(c) {
        (60 * (2 * d + c.b - c.r) + d) / (2 * d)
    } else {
        (60 * (4 * d + c.r - c.g) + d) / (2 * d)
    }
}

/// A rounded ratio `num / (2*den)` stays at or below `k` when the numerator
/// stays at or below `(2*k + 1) * den`.
proof fn lemma_ratio_cap(num: int, den: int, k: int)
    requires
        0 < den,
        0 <= k,
        0 <= num <= (2 * k + 1) * den,
    ensures
        0 <= num / (2 * den) <= k,
{
    lemma_div_is_ordered(num, (2 * k + 1) * den, 2 * den);
    assert((2 * k + 1) * den == k * (2 * den) + den) by (nonlinear_arith);
    lemma_fundamental_div_mod_converse((2 * k + 1) * den, 2 * den, k, den);
    lemma_div_is_ordered(0, num, 2 * den);
}

impl Rgb24 {
    /// Creates a new RGB24 color.
    pub fn new(r: u8, g: u8, b: u8) -> (c: Self)
        ensures
            c.r == r && c.g == g && c.b == b,
    {
        Self { r, g, b }
    }

    /// Accesses the red channel.
    pub fn r(&self) -> (v: u8)
        ensures
            v == self.r,
    {
        self.r
    }

    /// Accesses the green channel.
    pub fn g(&self) -> (v: u8)
        ensures
            v == self.g,
    {
        self.g
    }

    /// Accesses the blue channel.
    pub fn b(&self) -> (v: u8)
        ensures
            v == self.b,
    {
        self.b
    }

    /// Finds the channel-wise minimum.
    pub fn min(left: &Self, right: &Self) -> (c: Self)
        ensures
            forall|ch: int| 0 <= ch < 3 ==> chan(c, ch) == min_u8(chan(*left, ch), chan(*right, ch)),
    {
        Self {
            r: if left.r <= right.r { left.r } else { right.r },
            g: if left.g <= right.g { left.g } else { right.g },
            b: if left.b <= right.b { left.b } else { right.b },
        }
    }

    /// Finds the channel with the greatest delta.
    ///
    /// Red is returned only when its range is strictly the widest, green only
    /// when its range is strictly the widest, and blue in every other case,
    /// so ties sink to blue.
    pub fn max_channel_delta(colors: &[Self]) -> (r: (RGBChannel, u8))
        ensures
            r == spec_max_channel_delta(colors@),
    {
        let n = colors.len();
        if n == 0 {
            return (RGBChannel::Blue, 0);
        }
        let mut lo = Self::new(u8::MAX, u8::MAX, u8::MAX);
        let mut hi = Self::new(u8::MIN, u8::MIN, u8::MIN);
        let mut i: usize = 0;
        while i < n
            invariant
                n == colors@.len(),
                0 <= i <= n,
                forall|ch: int| 0 <= ch < 3 ==> chan(lo, ch) == lo_fold(colors@.take(i as int), ch),
                forall|ch: int| 0 <= ch < 3 ==> chan(hi, ch) == hi_fold(colors@.take(i as int), ch),
            decreases n - i,
        {
            proof {
                assert(colors@.take(i as int + 1).drop_last() =~= colors@.take(i as int));
                assert(colors@.take(i as int + 1).last() == colors@[i as int]);
            }
            lo = Self::min(&lo, &colors[i]);
            hi = Self::max(&hi, &colors[i]);
            i += 1;
        }
        proof {
            assert(colors@.take(n as int) =~= colors@);
            assert(chan(lo, 0) == lo_fold(colors@.take(n as int), 0));
            assert(chan(lo, 1) == lo_fold(colors@.take(n as int), 1));
            assert(chan(lo, 2) == lo_fold(colors@.take(n as int), 2));
            assert(chan(hi, 0) == hi_fold(colors@.take(n as int), 0));
            assert(chan(hi, 1) == hi_fold(colors@.take(n as int), 1));
            assert(chan(hi, 2) == hi_fold(colors@.take(n as int), 2));
            lemma_fold_bounds(colors@, 0, 0);
            lemma_fold_bounds(colors@, 1, 0);
            lemma_fold_bounds(colors@, 2, 0);
        }
        let dr = hi.r - lo.r;
        let dg = hi.g - lo.g;
        let db = hi.b - lo.b;
        if dr > dg && dr > db {
            (RGBChannel::Red, dr)
        } else if dg > dr && dg > db {
            (RGBChannel::Green, dg)
        } else {
            (RGBChannel::Blue, db)
        }
    }

    /// Finds the channel-wise average: each channel is summed in 64 bits and
    /// the mean is rounded half away from zero.
    pub fn average(colors: &[Self]) -> (c: Self)
        requires
            1 <= colors@.len() <= 0x100_0000_0000_0000,
        ensures
            c.r == round_div(sum_chan(colors@, 0), colors@.len() as int),
            c.g == round_div(sum_chan(colors@, 1), colors@.len() as int),
            c.b == round_div(sum_chan(colors@, 2), colors@.len() as int),
    {
        let n = colors.len();
        let mut sr: u64 = 0;
        let mut sg: u64 = 0;
        let mut sb: u64 = 0;
        let mut i: usize = 0;
        while i < n
            invariant
                n == colors@.len(),
                n <= 0x100_0000_0000_0000,
                0 <= i <= n,
                sr == sum_chan(colors@.take(i as int), 0),
                sg == sum_chan(colors@.take(i as int), 1),
                sb == sum_chan(colors@.take(i as int), 2),
                sr <= 255 * i && sg <= 255 * i && sb <= 255 * i,
            decreases n - i,
        {
            proof {
                assert(colors@.take(i as int + 1).drop_last() =~= colors@.take(i as int));
                assert(colors@.take(i as int + 1).last() == colors@[i as int]);
            }
            let c = colors[i];
            sr = sr + c.r as u64;
            sg = sg + c.g as u64;
            sb = sb + c.b as u64;
            i += 1;
        }
        proof {
            assert(colors@.take(n as int) =~= colors@);
        }
        Self::new(
            rounded_mean(sr, n as u64),
            rounded_mean(sg, n as u64),
            rounded_mean(sb, n as u64),
        )
    }

    /// Creates the corresponding HSV representation.
    /// Hue has range [0, 180] so that it fits in a single byte.
    pub fn make_hsv(&self) -> (hsv: Hsv)
        ensures
            hsv.h == spec_hsv_h(*self),
            hsv.s == spec_hsv_s(*self),
            hsv.v == spec_hsv_v(*self),
            hsv.h <= 180 && hsv.s <= 100 && hsv.v <= 100,
    {
        let r = self.r as u32;
        let g = self.g as u32;
        let b = self.b as u32;
        let mx = if r >= g && r >= b {
            r
        } else if g >= b {
            g
        } else {
            b
        };
        let mn = if r <= g && r <= b {
            r
        } else if g <= b {
            g
        } else {
            b
        };
        let d = mx - mn;

        let v = (200 * mx + 255) / 510;
        proof {
            lemma_ratio_cap(200 * mx + 255, 255, 100);
        }

        let s = if mx == 0 {
            0
        } else {
            proof {
                assert(d <= mx);
                assert(200 * d + mx <= (2 * 100 + 1) * (mx as int)) by (nonlinear_arith)
                    requires
                        d <= mx,
                ;
                lemma_ratio_cap(200 * d + mx, mx as int, 100);
            }
            (200 * d + mx) / (2 * mx)
        };

        let h = if mx == 0 || d == 0 {
            0
        } else {
            let t = if r == mx {
                if g >= b {
                    g - b
                } else {
                    6 * d + g - b
                }
            } else if g == mx {
                2 * d + b - r
            } else {
                4 * d + r - g
            };
            proof {
                assert(t <= 6 * d);
                assert(60 * t + d <= (2 * 180 + 1) * (d as int)) by (nonlinear_arith)
                    requires
                        t <= 6 * d,
                ;
                lemma_ratio_cap(60 * t + d, d as int, 180);
            }
            (60 * t + d) / (2 * d)
        };

        Hsv::new(h as u8, s as u8, v as u8)
    }

    /// Finds the channel-wise maximum.
    pub fn max(left: &Self, right: &Self) -> (c: Self)
        ensures
            forall|ch: int| 0 <= ch < 3 ==> chan(c, ch) == max_u8(chan(*left, ch), chan(*right, ch)),
    {
        Self {
            r: if left.r >= right.r { left.r } else { right.r },
            g: if left.g >= right.g { left.g } else { right.g },
            b: if left.b >= right.b { left.b } else { right.b },
        }
    }
    /// Builds a hex representation string: `#RRGGBB`, uppercase, two digits
    /// per channel.
    pub fn to_hex_string(&self) -> (s: String)
        ensures
            s@ == spec_hex_string(*self),
    {
        let mut out = String::new();
        out.append("#");
        out.append(hex_digit_str(self.r / 16));
        out.append(hex_digit_str(self.r % 16));
        out.append(hex_digit_str(self.g / 16));
        out.append(hex_digit_str(self.g % 16));
        out.append(hex_digit_str(self.b / 16));
        out.append(hex_digit_str(self.b % 16));
        proof {
            reveal_strlit("#");
            assert(out@ =~= spec_hex_string(*self));
        }
        out
    }

    /// Accesses a channel by its index: 0 is red, 1 is green, 2 is blue.
    fn channel_value(&self, ch: usize) -> (v: u8)
        requires
            ch < 3,
        ensures
            v == chan(*self, ch as int),
    {
        match ch {
            0 => self.r,
            1 => self.g,
            _ => self.b,
        }
    }

    /// Sorts the colors of `colors[lo..hi]` using channel-based radix sort:
    /// a stable counting sort over 256 buckets keyed by the chosen channel.
    /// The rest of the vector is left untouched.
    pub fn radix_sort(colors: &mut Vec<Self>, channel: RGBChannel, lo: usize, hi: usize)
        requires
            lo <= hi <= old(colors)@.len(),
        ensures
            final(colors)@.len() == old(colors)@.len(),
            final(colors)@.subrange(lo as int, hi as int) == spec_radix_sort(
                old(colors)@.subrange(lo as int, hi as int),
                spec_channel_index(channel),
            ),
            final(colors)@.subrange(0, lo as int) == old(colors)@.subrange(0, lo as int),
            final(colors)@.subrange(hi as int, old(colors)@.len() as int) == old(
                colors,
            )@.subrange(hi as int, old(colors)@.len() as int),
    {
        let ghost orig = colors@;
        let ghost sub = colors@.subrange(lo as int, hi as int);
        let ghost chi = spec_channel_index(channel);
        let ch = channel.to_usize();

        let mut buckets: Vec<Vec<Rgb24>> = Vec::with_capacity(256);
        let mut v: usize = 0;
        while v < 256
            invariant
                buckets@.len() == v <= 256,
                forall|j: int| 0 <= j < v ==> #[trigger] buckets@[j]@.len() == 0,
            decreases 256 - v,
        {
            buckets.push(Vec::new());
            v += 1;
        }
        proof {
            assert forall|w: int| 0 <= w < 256 implies #[trigger] buckets@[w]@ =~= chan_class(
                sub.take(0),
                chi,
                w,
            ) by {
                assert(sub.take(0) =~= Seq::empty());
            }
        }

        let mut i: usize = lo;
        while i < hi
            invariant
                lo <= i <= hi <= colors@.len(),
                ch == chi && 0 <= chi < 3,
                colors@ == orig,
                sub == orig.subrange(lo as int, hi as int),
                buckets@.len() == 256,
                forall|w: int| 0 <= w < 256 ==> #[trigger] buckets@[w]@ == chan_class(
                    sub.take(i - lo),
                    chi,
                    w,
                ),
            decreases hi - i,
        {
            let c = colors[i];
            let key = c.channel_value(ch) as usize;
            buckets[key].push(c);
            proof {
                assert(sub.take(i - lo + 1).drop_last() =~= sub.take(i - lo));
                assert(sub.take(i - lo + 1).last() == c);
                assert forall|w: int| 0 <= w < 256 implies #[trigger] buckets@[w]@ == chan_class(
                    sub.take(i - lo + 1),
                    chi,
                    w,
                ) by {}
            }
            i += 1;
        }
        proof {
            assert(sub.take(hi - lo) =~= sub);
            lemma_radix_sort_multiset(sub, chi);
        }

        let mut pos: usize = lo;
        let mut v: usize = 0;
        while v < 256
            invariant
                lo <= pos <= hi <= colors@.len(),
                v <= 256,
                colors@.len() == orig.len(),
                sub == orig.subrange(lo as int, hi as int),
                buckets@.len() == 256,
                forall|w: int| 0 <= w < 256 ==> #[trigger] buckets@[w]@ == chan_class(
                    sub,
                    chi,
                    w,
                ),
                colors@.subrange(lo as int, pos as int) + bucket_concat_from(sub, chi, v as int)
                    == spec_radix_sort(sub, chi),
                colors@.subrange(0, lo as int) == orig.subrange(0, lo as int),
                colors@.subrange(hi as int, orig.len() as int) == orig.subrange(
                    hi as int,
                    orig.len() as int,
                ),
            decreases 256 - v,
        {
            let blen = buckets[v].len();
            let mut k: usize = 0;
            while k < blen
                invariant
                    lo <= pos <= hi <= colors@.len(),
                    v < 256,
                    k <= blen,
                    colors@.len() == orig.len(),
                    sub == orig.subrange(lo as int, hi as int),
                    buckets@.len() == 256,
                    blen == buckets@[v as int]@.len(),
                    forall|w: int| 0 <= w < 256 ==> #[trigger] buckets@[w]@ == chan_class(
                        sub,
                        chi,
                        w,
                    ),
                    colors@.subrange(lo as int, pos as int) + buckets@[v as int]@.skip(k as int)
                        + bucket_concat_from(sub, chi, v as int + 1) == spec_radix_sort(sub, chi),
                    colors@.subrange(0, lo as int) == orig.subrange(0, lo as int),
                    colors@.subrange(hi as int, orig.len() as int) == orig.subrange(
                        hi as int,
                        orig.len() as int,
                    ),
                decreases blen - k,
            {
                proof {
                    lemma_radix_sort_multiset(sub, chi);
                    assert(spec_radix_sort(sub, chi).len() == hi - lo);
                    assert(pos < hi);
                }
                let ghost before = colors@;
                let c = buckets[v][k];
                colors[pos] = c;
                proof {
                    assert(colors@ == before.update(pos as int, c));
                    assert(colors@.subrange(lo as int, pos as int + 1) =~= before.subrange(
                        lo as int,
                        pos as int,
                    ).push(c));
                    assert(colors@.subrange(0, lo as int) =~= before.subrange(0, lo as int));
                    assert(colors@.subrange(hi as int, orig.len() as int) =~= before.subrange(
                        hi as int,
                        orig.len() as int,
                    ));
                    assert(buckets@[v as int]@.skip(k as int) =~= seq![c] + buckets@[
                        v as int]@.skip(k as int + 1));
                    assert(colors@.subrange(lo as int, pos as int + 1) + buckets@[
                        v as int]@.skip(k as int + 1) =~= before.subrange(lo as int, pos as int)
                        + buckets@[v as int]@.skip(k as int));
                }
                pos += 1;
                k += 1;
            }
            proof {
                assert(buckets@[v as int]@.skip(blen as int) =~= Seq::empty());
                assert(colors@.subrange(lo as int, pos as int) + bucket_concat_from(
                    sub,
                    chi,
                    v as int + 1,
                ) =~= colors@.subrange(lo as int, pos as int) + buckets@[v as int]@.skip(
                    blen as int,
                ) + bucket_concat_from(sub, chi, v as int + 1));
            }
            v += 1;
        }
        proof {
            lemma_radix_sort_multiset(sub, chi);
            assert(bucket_concat_from(sub, chi, 256) =~= Seq::empty());
            assert(colors@.subrange(lo as int, pos as int) + bucket_concat_from(sub, chi, 256)
                =~= colors@.subrange(lo as int, pos as int));
            assert(pos == hi);
            assert(colors@.subrange(lo as int, hi as int) == spec_radix_sort(sub, chi));
        }
    }

    /// The 3-bit child index of this color at one level of an octree
    /// descent: bit `7 - level` of red, green and blue, stacked as
    /// `(r_bit << 2) | (g_bit << 1) | b_bit`.
    pub fn level_index(&self, level: usize) -> (idx: usize)
        requires
            level < 8,
        ensures
            idx == spec_level_index(*self, level as u8),
            idx < 8,
    {
        let inv = (7 - level) as u8;
        let rr = self.r;
        let gg = self.g;
        let bb = self.b;
        let r_bit = (rr >> inv) & 1;
        let g_bit = (gg >> inv) & 1;
        let b_bit = (bb >> inv) & 1;
        let idx = (r_bit << 2u8) | (g_bit << 1u8) | b_bit;
        proof {
            assert(idx < 8) by (bit_vector)
                requires
                    idx == (((rr >> inv) & 1) << 2u8) | (((gg >> inv) & 1) << 1u8) | ((bb >> inv)
                        & 1),
            ;
        }
        idx as usize
    }
}

/// The 3-bit octree child index of a color at one level of descent.
pub open spec fn spec_level_index(c: Rgb24, level: u8) -> u8
    recommends
        level < 8,
{
    let inv = (7 - level) as u8;
    (((c.r >> inv) & 1) << 2u8) | (((c.g >> inv) & 1) << 1u8) | ((c.b >> inv) & 1)
}

/// The elements of `s` whose channel `ch` has value `v`, in their input
/// order.
pub open spec fn chan_class(s: Seq<Rgb24>, ch: int, v: int) -> Seq<Rgb24>
    decreases s.len(),
{
    if s.len() == 0 {
        Seq::empty()
    } else {
        let rest = chan_class(s.drop_last(), ch, v);
        if chan(s.last(), ch) == v {
            rest.push(s.last())
        } else {
            rest
        }
    }
}

/// The concatenation of the channel-value classes of `s` for the values `v`
/// up to 255.
pub open spec fn bucket_concat_from(s: Seq<Rgb24>, ch: int, v: int) -> Seq<Rgb24>
    decreases 256 - v,
{
    if !(0 <= v < 256) {
        Seq::empty()
    } else {
        chan_class(s, ch, v) + bucket_concat_from(s, ch, v + 1)
    }
}

/// The stable radix order of `s` by channel `ch`: all colors with channel
/// value 0 first, in input order, then all with value 1, and so on.
pub open spec fn spec_radix_sort(s: Seq<Rgb24>, ch: int) -> Seq<Rgb24> {
    bucket_concat_from(s, ch, 0)
}

/// Appending one color to a sequence inserts it, multiset-wise, into the
/// tail of the bucket concatenation that its channel value falls into.
proof fn lemma_bucket_concat_push(s: Seq<Rgb24>, x: Rgb24, ch: int, v: int)
    requires
        0 <= v <= 256,
    ensures
        chan(x, ch) >= v ==> bucket_concat_from(s.push(x), ch, v).to_multiset()
            =~= bucket_concat_from(s, ch, v).to_multiset().insert(x),
        chan(x, ch) < v ==> bucket_concat_from(s.push(x), ch, v) == bucket_concat_from(s, ch, v),
    decreases 256 - v,
{
    broadcast use vstd::seq_lib::group_seq_properties;
    broadcast use vstd::multiset::group_multiset_axioms;

    if v == 256 {
        return ;
    }
    lemma_bucket_concat_push(s, x, ch, v + 1);
    assert(s.push(x).drop_last() =~= s);
    let cls = chan_class(s, ch, v);
    let cls2 = chan_class(s.push(x), ch, v);
    let tail = bucket_concat_from(s, ch, v + 1);
    let tail2 = bucket_concat_from(s.push(x), ch, v + 1);
    vstd::seq_lib::lemma_multiset_commutative(cls, tail);
    vstd::seq_lib::lemma_multiset_commutative(cls2, tail2);
    if chan(x, ch) == v {
        assert(cls2 == cls.push(x));
        cls.to_multiset_ensures();
        assert(cls2.to_multiset() =~= cls.to_multiset().insert(x));
        assert(tail2 == tail);
        assert(bucket_concat_from(s.push(x), ch, v).to_multiset() =~= bucket_concat_from(
            s,
            ch,
            v,
        ).to_multiset().insert(x));
    } else {
        assert(cls2 == cls);
        if chan(x, ch) > v {
            assert(bucket_concat_from(s.push(x), ch, v).to_multiset() =~= bucket_concat_from(
                s,
                ch,
                v,
            ).to_multiset().insert(x));
        }
    }
}

/// The stable radix order of a sequence holds exactly the colors of the
/// sequence, with their multiplicities.
pub proof fn lemma_radix_sort_multiset(s: Seq<Rgb24>, ch: int)
    ensures
        spec_radix_sort(s, ch).to_multiset() =~= s.to_multiset(),
        spec_radix_sort(s, ch).len() == s.len(),
    decreases s.len(),
{
    s.to_multiset_ensures();
    spec_radix_sort(s, ch).to_multiset_ensures();
    if s.len() == 0 {
        lemma_bucket_concat_empty(s, ch, 0);
        assert(spec_radix_sort(s, ch) =~= s);
    } else {
        let pre = s.drop_last();
        let x = s.last();
        lemma_radix_sort_multiset(pre, ch);
        lemma_bucket_concat_push(pre, x, ch, 0);
        assert(pre.push(x) =~= s);
        pre.to_multiset_ensures();
    }
}

/// Every bucket of the empty sequence is empty, so the whole concatenation
/// is as well.
proof fn lemma_bucket_concat_empty(s: Seq<Rgb24>, ch: int, v: int)
    requires
        s.len() == 0,
        0 <= v <= 256,
    ensures
        bucket_concat_from(s, ch, v) =~= Seq::<Rgb24>::empty(),
    decreases 256 - v,
{
    if v < 256 {
        lemma_bucket_concat_empty(s, ch, v + 1);
        assert(chan_class(s, ch, v) =~= Seq::<Rgb24>::empty());
        assert(bucket_concat_from(s, ch, v) =~= Seq::<Rgb24>::empty());
    }
}

/// Whether every channel of `c` lies in the closed hull that the colors of
/// `s` span: between the folded channel minimum and maximum of `s`.
pub open spec fn in_hull(c: Rgb24, s: Seq<Rgb24>) -> bool {
    forall|ch: int|
        0 <= ch < 3 ==> lo_fold(s, ch) <= chan(c, ch) && chan(c, ch) <= hi_fold(s, ch)
}

/// A color that occurs in a sequence lies in the hull of that sequence.
pub proof fn lemma_hull_member(c: Rgb24, s: Seq<Rgb24>)
    requires
        s.to_multiset().count(c) > 0,
    ensures
        in_hull(c, s),
{
    s.to_multiset_ensures();
    assert(s.contains(c));
    let i = choose|i: int| 0 <= i < s.len() && s[i] == c;
    assert forall|ch: int|
        0 <= ch < 3 implies lo_fold(s, ch) <= chan(c, ch) && chan(c, ch) <= hi_fold(s, ch) by {
        lemma_fold_bounds(s, ch, i);
    }
}

/// A channel sum over a sequence whose channel values all lie in `[lo, hi]`
/// lies between `lo` and `hi` times the length.
pub proof fn lemma_sum_chan_in_range(s: Seq<Rgb24>, ch: int, lo: int, hi: int)
    requires
        forall|i: int| 0 <= i < s.len() ==> lo <= chan(s[i], ch) && chan(s[i], ch) <= hi,
    ensures
        lo * s.len() <= sum_chan(s, ch),
        sum_chan(s, ch) <= hi * s.len(),
    decreases s.len(),
{
    if s.len() == 0 {
    } else {
        let pre = s.drop_last();
        assert forall|i: int| 0 <= i < pre.len() implies lo <= chan(pre[i], ch) && chan(
            pre[i],
            ch,
        ) <= hi by {
            assert(pre[i] == s[i]);
        }
        lemma_sum_chan_in_range(pre, ch, lo, hi);
        assert(lo * s.len() == lo * pre.len() + lo && hi * s.len() == hi * pre.len() + hi)
            by (nonlinear_arith)
            requires
                s.len() == pre.len() + 1,
        ;
        assert(lo <= chan(s.last(), ch) <= hi);
    }
}

/// A rounded mean of values that all lie in `[lo, hi]` lies in `[lo, hi]`.
pub proof fn lemma_round_div_in_range(sum: int, n: int, lo: int, hi: int)
    requires
        1 <= n,
        0 <= lo <= hi,
        lo * n <= sum <= hi * n,
    ensures
        lo <= round_div(sum, n) <= hi,
{
    assert(2 * (lo * n) + n == lo * (2 * n) + n && 2 * (hi * n) + n == hi * (2 * n) + n)
        by (nonlinear_arith);
    lemma_fundamental_div_mod_converse(2 * (lo * n) + n, 2 * n, lo, n);
    lemma_fundamental_div_mod_converse(2 * (hi * n) + n, 2 * n, hi, n);
    lemma_div_is_ordered(2 * (lo * n) + n, 2 * sum + n, 2 * n);
    lemma_div_is_ordered(2 * sum + n, 2 * (hi * n) + n, 2 * n);
}

/// Replacing the piece `[lo, hi)` of a sequence by a rearrangement of that
/// piece leaves the multiset of the whole sequence unchanged.
pub proof fn lemma_splice_multiset(prev: Seq<Rgb24>, cur: Seq<Rgb24>, lo: int, hi: int)
    requires
        0 <= lo <= hi <= prev.len(),
        cur.len() == prev.len(),
        cur.subrange(0, lo) == prev.subrange(0, lo),
        cur.subrange(hi, prev.len() as int) == prev.subrange(hi, prev.len() as int),
        cur.subrange(lo, hi).to_multiset() == prev.subrange(lo, hi).to_multiset(),
    ensures
        cur.to_multiset() == prev.to_multiset(),
{
    broadcast use vstd::multiset::group_multiset_axioms;

    let n = prev.len() as int;
    assert(prev =~= prev.subrange(0, lo) + prev.subrange(lo, hi) + prev.subrange(hi, n));
    assert(cur =~= cur.subrange(0, lo) + cur.subrange(lo, hi) + cur.subrange(hi, n));
    vstd::seq_lib::lemma_multiset_commutative(
        prev.subrange(0, lo) + prev.subrange(lo, hi),
        prev.subrange(hi, n),
    );
    vstd::seq_lib::lemma_multiset_commutative(prev.subrange(0, lo), prev.subrange(lo, hi));
    vstd::seq_lib::lemma_multiset_commutative(
        cur.subrange(0, lo) + cur.subrange(lo, hi),
        cur.subrange(hi, n),
    );
    vstd::seq_lib::lemma_multiset_commutative(cur.subrange(0, lo), cur.subrange(lo, hi));
    assert(cur.to_multiset() =~= prev.to_multiset());
}

/// Removing one element takes exactly its channel value out of the sum.
pub proof fn lemma_sum_chan_remove(s: Seq<Rgb24>, i: int, ch: int)
    requires
        0 <= i < s.len(),
    ensures
        sum_chan(s.remove(i), ch) == sum_chan(s, ch) - chan(s[i], ch),
    decreases s.len(),
{
    if i == s.len() - 1 {
        assert(s.remove(i) =~= s.drop_last());
    } else {
        assert(s.remove(i).drop_last() =~= s.drop_last().remove(i));
        assert(s.remove(i).last() == s.last());
        lemma_sum_chan_remove(s.drop_last(), i, ch);
        assert(s.drop_last()[i] == s[i]);
    }
}

/// A channel sum depends only on the multiset of colors, not on their
/// order.
pub proof fn lemma_sum_chan_permutation(s1: Seq<Rgb24>, s2: Seq<Rgb24>, ch: int)
    requires
        s1.to_multiset() == s2.to_multiset(),
    ensures
        sum_chan(s1, ch) == sum_chan(s2, ch),
    decreases s1.len(),
{
    broadcast use vstd::multiset::group_multiset_axioms;

    s1.to_multiset_ensures();
    s2.to_multiset_ensures();
    if s1.len() == 0 {
    } else {
        let x = s1.last();
        let pre = s1.drop_last();
        pre.to_multiset_ensures();
        assert(pre.push(x) =~= s1);
        assert(s1.to_multiset().count(x) > 0);
        assert(s2.contains(x));
        let i = choose|i: int| 0 <= i < s2.len() && s2[i] == x;
        assert(s2.remove(i).to_multiset() =~= s2.to_multiset().remove(x));
        assert(pre.to_multiset() =~= s1.to_multiset().remove(x));
        lemma_sum_chan_permutation(pre, s2.remove(i), ch);
        lemma_sum_chan_remove(s2, i, ch);
    }
}

/// A channel sum splits over concatenation.
pub proof fn lemma_sum_chan_concat(a: Seq<Rgb24>, b: Seq<Rgb24>, ch: int)
    ensures
        sum_chan(a + b, ch) == sum_chan(a, ch) + sum_chan(b, ch),
    decreases b.len(),
{
    if b.len() == 0 {
        assert(a + b =~= a);
    } else {
        assert((a + b).drop_last() =~= a + b.drop_last());
        assert((a + b).last() == b.last());
        lemma_sum_chan_concat(a, b.drop_last(), ch);
    }
}

/// A channel sum over copies of one color is the copy count times that
/// channel.
pub proof fn lemma_sum_chan_uniform(s: Seq<Rgb24>, c: Rgb24, ch: int)
    requires
        forall|i: int| 0 <= i < s.len() ==> s[i] == c,
    ensures
        sum_chan(s, ch) == s.len() * chan(c, ch),
    decreases s.len(),
{
    if s.len() == 0 {
    } else {
        let pre = s.drop_last();
        assert forall|i: int| 0 <= i < pre.len() implies pre[i] == c by {
            assert(pre[i] == s[i]);
        }
        lemma_sum_chan_uniform(pre, c, ch);
        assert(s.last() == c);
        assert(s.len() * chan(c, ch) == pre.len() * chan(c, ch) + chan(c, ch))
            by (nonlinear_arith)
            requires
                s.len() == pre.len() + 1,
        ;
    }
}

/// Over an input whose colors are all one color, the hull collapses to that
/// color: whatever lies in the hull is the color itself.
pub proof fn lemma_uniform_hull(c: Rgb24, s: Seq<Rgb24>, x: Rgb24)
    requires
        s.len() >= 1,
        forall|i: int| 0 <= i < s.len() ==> s[i] == c,
        in_hull(x, s),
    ensures
        x == c,
{
    lemma_uniform_folds(c, s);
    assert(chan(x, 0) == chan(c, 0) && chan(x, 1) == chan(c, 1) && chan(x, 2) == chan(c, 2));
}

/// The folded channel bounds of a uniform sequence are the channels of its
/// one color.
proof fn lemma_uniform_folds(c: Rgb24, s: Seq<Rgb24>)
    requires
        s.len() >= 1,
        forall|i: int| 0 <= i < s.len() ==> s[i] == c,
    ensures
        forall|ch: int| 0 <= ch < 3 ==> lo_fold(s, ch) == chan(c, ch) && hi_fold(s, ch) == chan(c, ch),
    decreases s.len(),
{
    if s.len() == 1 {
        assert forall|ch: int|
            0 <= ch < 3 implies lo_fold(s, ch) == chan(c, ch) && hi_fold(s, ch) == chan(c, ch) by {
            assert(s.drop_last() =~= Seq::<Rgb24>::empty());
            assert(lo_fold(Seq::<Rgb24>::empty(), ch) == 255);
            assert(hi_fold(Seq::<Rgb24>::empty(), ch) == 0);
            assert(s.last() == c);
        }
    } else {
        let pre = s.drop_last();
        assert forall|i: int| 0 <= i < pre.len() implies pre[i] == c by {
            assert(pre[i] == s[i]);
        }
        lemma_uniform_folds(c, pre);
        assert(s.last() == c);
    }
}

/// The uppercase hex character for a value below 16.
pub open spec fn hex_digit(d: int) -> char {
    if d == 0 {
        '0'
    } else if d == 1 {
        '1'
    } else if d == 2 {
        '2'
    } else if d == 3 {
        '3'
    } else if d == 4 {
        '4'
    } else if d == 5 {
        '5'
    } else if d == 6 {
        '6'
    } else if d == 7 {
        '7'
    } else if d == 8 {
        '8'
    } else if d == 9 {
        '9'
    } else if d == 10 {
        'A'
    } else if d == 11 {
        'B'
    } else if d == 12 {
        'C'
    } else if d == 13 {
        'D'
    } else if d == 14 {
        'E'
    } else {
        'F'
    }
}

/// The two uppercase hex characters of a byte.
pub open spec fn hex_pair(b: u8) -> Seq<char> {
    seq![hex_digit(b as int / 16), hex_digit(b as int % 16)]
}

/// The `#RRGGBB` rendering of a color, as a sequence of characters.
pub open spec fn spec_hex_string(c: Rgb24) -> Seq<char> {
    seq!['#'] + hex_pair(c.r) + hex_pair(c.g) + hex_pair(c.b)
}

/// The uppercase hex character for a value below 16, as a one-character
/// string slice.
fn hex_digit_str(d: u8) -> (s: &'static str)
    requires
        d < 16,
    ensures
        s@ == seq![hex_digit(d as int)],
{
    proof {
        reveal_strlit("0");
        reveal_strlit("1");
        reveal_strlit("2");
        reveal_strlit("3");
        reveal_strlit("4");
        reveal_strlit("5");
        reveal_strlit("6");
        reveal_strlit("7");
        reveal_strlit("8");
        reveal_strlit("9");
        reveal_strlit("A");
        reveal_strlit("B");
        reveal_strlit("C");
        reveal_strlit("D");
        reveal_strlit("E");
        reveal_strlit("F");
    }
    match d {
        0 => "0",
        1 => "1",
        2 => "2",
        3 => "3",
        4 => "4",
        5 => "5",
        6 => "6",
        7 => "7",
        8 => "8",
        9 => "9",
        10 => "A",
        11 => "B",
        12 => "C",
        13 => "D",
        14 => "E",
        _ => "F",
    }
}

/// HSV representation.
#[derive(Clone, Copy, Debug, PartialEq, Eq, Structural)]
pub struct Hsv {
    pub h: u8,
    pub s: u8,
    pub v: u8,
}

impl Hsv {
    pub fn new(h: u8, s: u8, v: u8) -> (r: Self)
        ensures
            r == (Hsv { h, s, v }),
    {
        Self { h, s, v }
    }
}

/// The full HSV projection of a color.
pub open spec fn spec_hsv_of(c: Rgb24) -> Hsv {
    Hsv { h: spec_hsv_h(c) as u8, s: spec_hsv_s(c) as u8, v: spec_hsv_v(c) as u8 }
}

/// The lexicographic order on HSV triples.
pub open spec fn hsv_le(x: Hsv, y: Hsv) -> bool {
    x.h < y.h || (x.h == y.h && (x.s < y.s || (x.s == y.s && x.v <= y.v)))
}

/// The display order on colors: the HSV projections compared
/// lexicographically. Distinct colors can project to one HSV triple, so this
/// is a weak total order on colors, total and antisymmetric only on the
/// triples themselves.
pub open spec fn rgb_hsv_le(a: Rgb24, b: Rgb24) -> bool {
    hsv_le(spec_hsv_of(a), spec_hsv_of(b))
}

/// The HSV order is reflexive.
pub proof fn lemma_hsv_order_reflexive(x: Hsv)
    ensures
        hsv_le(x, x),
{
}

/// The HSV order is antisymmetric on HSV triples.
pub proof fn lemma_hsv_order_antisymmetric(x: Hsv, y: Hsv)
    requires
        hsv_le(x, y),
        hsv_le(y, x),
    ensures
        x == y,
{
}

/// The HSV order is transitive.
pub proof fn lemma_hsv_order_transitive(x: Hsv, y: Hsv, z: Hsv)
    requires
        hsv_le(x, y),
        hsv_le(y, z),
    ensures
        hsv_le(x, z),
{
}

/// Any two HSV triples are comparable.
pub proof fn lemma_hsv_order_total(x: Hsv, y: Hsv)
    ensures
        hsv_le(x, y) || hsv_le(y, x),
{
}

/// Two colors with identical HSV projections compare equal under the display
/// order, in both directions, even when their RGB values differ.
pub proof fn lemma_rgb_order_by_projection(a: Rgb24, b: Rgb24)
    requires
        spec_hsv_of(a) == spec_hsv_of(b),
    ensures
        rgb_hsv_le(a, b),
        rgb_hsv_le(b, a),
{
}

/// The widest channel of a single color is blue with spread zero: every
/// channel of a singleton spans nothing, and blue collects the tie.
pub proof fn lemma_max_channel_delta_single(c: Rgb24)
    ensures
        spec_max_channel_delta(seq![c]) == (RGBChannel::Blue, 0u8),
{
    let s = seq![c];
    assert(s.drop_last() =~= Seq::<Rgb24>::empty());
    assert(s.last() == c);
    assert forall|ch: int| 0 <= ch < 3 implies spec_delta(s, ch) == 0 by {
        assert(lo_fold(Seq::<Rgb24>::empty(), ch) == 255);
        assert(hi_fold(Seq::<Rgb24>::empty(), ch) == 0);
        assert(lo_fold(s, ch) == chan(c, ch));
        assert(hi_fold(s, ch) == chan(c, ch));
    }
}

/// The eight level indices of a color together carry its whole 24-bit value:
/// two colors that agree on every level index are the same color.
pub proof fn lemma_level_index_injective(a: Rgb24, b: Rgb24)
    requires
        forall|level: u8| level < 8 ==> spec_level_index(a, level) == spec_level_index(b, level),
    ensures
        a == b,
{
    let ar = a.r;
    let ag = a.g;
    let ab = a.b;
    let br = b.r;
    let bg = b.g;
    let bb = b.b;
    assert forall|level: u8| level < 8 implies lvl_bits(ar, ag, ab, level) == lvl_bits(
        br,
        bg,
        bb,
        level,
    ) by {
        assert(spec_level_index(a, level) == spec_level_index(b, level));
    }
    assert(lvl_bits(ar, ag, ab, 0) == lvl_bits(br, bg, bb, 0));
    assert(lvl_bits(ar, ag, ab, 1) == lvl_bits(br, bg, bb, 1));
    assert(lvl_bits(ar, ag, ab, 2) == lvl_bits(br, bg, bb, 2));
    assert(lvl_bits(ar, ag, ab, 3) == lvl_bits(br, bg, bb, 3));
    assert(lvl_bits(ar, ag, ab, 4) == lvl_bits(br, bg, bb, 4));
    assert(lvl_bits(ar, ag, ab, 5) == lvl_bits(br, bg, bb, 5));
    assert(lvl_bits(ar, ag, ab, 6) == lvl_bits(br, bg, bb, 6));
    assert(lvl_bits(ar, ag, ab, 7) == lvl_bits(br, bg, bb, 7));
    assert(ar == br && ag == bg && ab == bb) by (bit_vector)
        requires
            lvl_bits(ar, ag, ab, 0) == lvl_bits(br, bg, bb, 0),
            lvl_bits(ar, ag, ab, 1) == lvl_bits(br, bg, bb, 1),
            lvl_bits(ar, ag, ab, 2) == lvl_bits(br, bg, bb, 2),
            lvl_bits(ar, ag, ab, 3) == lvl_bits(br, bg, bb, 3),
            lvl_bits(ar, ag, ab, 4) == lvl_bits(br, bg, bb, 4),
            lvl_bits(ar, ag, ab, 5) == lvl_bits(br, bg, bb, 5),
            lvl_bits(ar, ag, ab, 6) == lvl_bits(br, bg, bb, 6),
            lvl_bits(ar, ag, ab, 7) == lvl_bits(br, bg, bb, 7),
    ;
}

/// The stacked level-`level` bits of three raw channel values; the body of
/// `spec_level_index` over bare bytes, in the shape the bit-vector solver
/// takes.
pub open spec fn lvl_bits(r: u8, g: u8, b: u8, level: u8) -> u8 {
    let inv = (7 - level) as u8;
    (((r >> inv) & 1) << 2u8) | (((g >> inv) & 1) << 1u8) | ((b >> inv) & 1)
}

/// The colors of `s` that project to the HSV triple `h`, in their input
/// order.
pub open spec fn proj_class(s: Seq<Rgb24>, h: Hsv) -> Seq<Rgb24>
    decreases s.len(),
{
    if s.len() == 0 {
        Seq::empty()
    } else {
        let rest = proj_class(s.drop_last(), h);
        if spec_hsv_of(s.last()) == h {
            rest.push(s.last())
        } else {
            rest
        }
    }
}

/// A projection class splits over concatenation.
proof fn lemma_proj_class_concat(a: Seq<Rgb24>, b: Seq<Rgb24>, h: Hsv)
    ensures
        proj_class(a + b, h) == proj_class(a, h) + proj_class(b, h),
    decreases b.len(),
{
    if b.len() == 0 {
        assert(a + b =~= a);
        assert(proj_class(a, h) + proj_class(b, h) =~= proj_class(a, h));
    } else {
        assert((a + b).drop_last() =~= a + b.drop_last());
        assert((a + b).last() == b.last());
        lemma_proj_class_concat(a, b.drop_last(), h);
        if spec_hsv_of(b.last()) == h {
            assert((proj_class(a, h) + proj_class(b.drop_last(), h)).push(b.last())
                =~= proj_class(a, h) + proj_class(b.drop_last(), h).push(b.last()));
        }
    }
}

/// A sequence none of whose colors projects to `h` contributes nothing to
/// that class.
proof fn lemma_proj_class_vacant(s: Seq<Rgb24>, h: Hsv)
    requires
        forall|i: int| 0 <= i < s.len() ==> spec_hsv_of(#[trigger] s[i]) != h,
    ensures
        proj_class(s, h) =~= Seq::<Rgb24>::empty(),
    decreases s.len(),
{
    if s.len() > 0 {
        assert(spec_hsv_of(s.last()) != h);
        assert forall|i: int|
            0 <= i < s.drop_last().len() implies spec_hsv_of(#[trigger] s.drop_last()[i]) != h by {
            assert(s.drop_last()[i] == s[i]);
        }
        lemma_proj_class_vacant(s.drop_last(), h);
    }
}

/// Compares two colors in the display order: by their HSV projections,
/// lexicographically.
pub fn le_by_hsv(a: &Rgb24, b: &Rgb24) -> (r: bool)
    ensures
        r == rgb_hsv_le(*a, *b),
{
    let x = a.make_hsv();
    let y = b.make_hsv();
    if x.h != y.h {
        x.h < y.h
    } else if x.s != y.s {
        x.s < y.s
    } else {
        x.v <= y.v
    }
}

/// Sorts a palette in the display order, stably: a straight insertion sort
/// by the HSV projection. Stability is stated by projection class: the
/// colors sharing any one HSV triple come out in the order they went in.
pub fn sort_by_hsv(colors: &mut Vec<Rgb24>)
    ensures
        final(colors)@.len() == old(colors)@.len(),
        final(colors)@.to_multiset() == old(colors)@.to_multiset(),
        forall|i: int, j: int|
            0 <= i < j < final(colors)@.len() ==> rgb_hsv_le(final(colors)@[i], final(colors)@[j]),
        forall|h: Hsv| proj_class(final(colors)@, h) == proj_class(old(colors)@, h),
{
    let n = colors.len();
    let mut out: Vec<Rgb24> = Vec::new();
    proof {
        assert(out@ =~= colors@.take(0));
    }
    let mut i: usize = 0;
    while i < n
        invariant
            n == colors@.len(),
            out@.len() == i <= n,
            out@.to_multiset() == colors@.take(i as int).to_multiset(),
            forall|x: int, y: int| 0 <= x < y < i ==> rgb_hsv_le(out@[x], out@[y]),
            forall|h: Hsv| proj_class(out@, h) == proj_class(colors@.take(i as int), h),
        decreases n - i,
    {
        let c = colors[i];
        let mut p: usize = 0;
        while p < out.len() && le_by_hsv(&out[p], &c)
            invariant
                p <= out@.len(),
                forall|q: int| 0 <= q < p ==> rgb_hsv_le(out@[q], c),
            decreases out@.len() - p,
        {
            p += 1;
        }
        let ghost prev = out@;
        out.insert(p, c);
        proof {
            prev.insert_ensures(p as int, c);
            let ins = prev.insert(p as int, c);
            assert(out@ == ins);
            assert(colors@.take(i as int + 1) =~= colors@.take(i as int).push(c));
            vstd::seq_lib::to_multiset_build(colors@.take(i as int), c);
            vstd::seq_lib::to_multiset_insert(prev, p as int, c);
            assert(ins.to_multiset() == prev.to_multiset().insert(c));
            assert forall|x: int, y: int| 0 <= x < y < ins.len() implies rgb_hsv_le(
                ins[x],
                ins[y],
            ) by {
                if p < prev.len() {
                    assert(rgb_hsv_le(c, prev[p as int]));
                }
                if y < p {
                    assert(ins[x] == prev[x] && ins[y] == prev[y]);
                    assert(rgb_hsv_le(prev[x], prev[y]));
                } else if y == p {
                    assert(ins[x] == prev[x] && ins[y] == c);
                    assert(rgb_hsv_le(prev[x], c));
                } else {
                    assert(ins[y] == prev[y - 1]);
                    if p < y - 1 {
                        assert(rgb_hsv_le(prev[p as int], prev[y - 1]));
                    }
                    assert(rgb_hsv_le(c, prev[y - 1]));
                    if x == p {
                        assert(ins[x] == c);
                    } else if x < p {
                        assert(ins[x] == prev[x]);
                        assert(rgb_hsv_le(prev[x], c));
                    } else {
                        assert(ins[x] == prev[x - 1]);
                        assert(rgb_hsv_le(prev[x - 1], prev[y - 1]));
                    }
                }
            }
            // The insertion keeps every projection class in input order.
            let pre = prev.subrange(0, p as int);
            let suf = prev.subrange(p as int, prev.len() as int);
            assert forall|h: Hsv| proj_class(ins, h) == proj_class(
                colors@.take(i as int + 1),
                h,
            ) by {
                assert(prev =~= pre + suf);
                lemma_proj_class_concat(pre, suf, h);
                assert(ins =~= pre + (seq![c] + suf));
                lemma_proj_class_concat(pre, seq![c] + suf, h);
                lemma_proj_class_concat(seq![c], suf, h);
                assert(seq![c].drop_last() =~= Seq::<Rgb24>::empty());
                assert(seq![c].last() == c);
                assert(proj_class(Seq::<Rgb24>::empty(), h) =~= Seq::<Rgb24>::empty());
                let stepped = colors@.take(i as int + 1);
                assert(stepped.drop_last() =~= colors@.take(i as int));
                assert(stepped.last() == c);
                if spec_hsv_of(c) == h {
                    assert forall|q: int|
                        0 <= q < suf.len() implies spec_hsv_of(#[trigger] suf[q]) != h by {
                        assert(suf[q] == prev[p + q]);
                        assert(!rgb_hsv_le(prev[p as int], c));
                        if q > 0 {
                            assert(rgb_hsv_le(prev[p as int], prev[p + q]));
                        }
                    }
                    lemma_proj_class_vacant(suf, h);
                    assert(proj_class(seq![c], h) =~= Seq::<Rgb24>::empty().push(c));
                    assert(proj_class(pre, h) + (proj_class(seq![c], h) + proj_class(suf, h))
                        =~= proj_class(pre, h).push(c));
                    assert(proj_class(ins, h) =~= proj_class(pre, h).push(c));
                    assert(proj_class(prev, h) =~= proj_class(pre, h));
                    assert(proj_class(stepped, h) == proj_class(colors@.take(i as int), h).push(
                        c,
                    ));
                } else {
                    assert(proj_class(seq![c], h) =~= Seq::<Rgb24>::empty());
                    assert(proj_class(ins, h) =~= proj_class(prev, h));
                    assert(proj_class(stepped, h) == proj_class(colors@.take(i as int), h));
                }
            }
        }
        i += 1;
    }
    proof {
        assert(colors@.take(n as int) =~= colors@);
    }
    *colors = out;
}

} // verus!
