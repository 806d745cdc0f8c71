//! The median-cut quantizer: a recursive partition of the color array,
//! always splitting the bucket whose widest channel spans the most, at the
//! midpoint of the bucket, after a stable radix sort by that channel.

use crate::color::chan;
use crate::color::hi_fold;
use crate::color::in_hull;
use crate::color::lemma_fold_bounds;
use crate::color::lemma_hull_member;
use crate::color::lemma_radix_sort_multiset;
use crate::color::lemma_round_div_in_range;
use crate::color::lemma_splice_multiset;
use crate::color::lemma_sum_chan_in_range;
use crate::color::lo_fold;
use crate::color::round_div;
use crate::color::spec_radix_sort;
use crate::color::sum_chan;
use crate::color::RGBChannel;
use crate::color::Rgb24;
use vstd::prelude::*;

verus! {

/// Bucket represented as an offset in a sequential container.
/// Also saves the maximum channel delta and a tag for that channel.
#[derive(Clone, Copy, Debug)]
pub struct Bucket {
    pub offset: usize,
    pub channel: RGBChannel,
    pub delta: u8,
}

impl Bucket {
    /// Create a new bucket.
    pub fn new(offset: usize, channel: RGBChannel, delta: u8) -> (b: Self)
        ensures
            b == (Bucket { offset, channel, delta }),
    {
        Self { offset, channel, delta }
    }
}

/// What one bucket emits: the channel-wise rounded mean over its range of
/// the color array, or black where the range covers nothing.
pub open spec fn bucket_average(s: Seq<Rgb24>, start: int, end: int) -> Rgb24 {
    if start < end {
        let sub = s.subrange(start, end);
        Rgb24 {
            r: round_div(sum_chan(sub, 0), sub.len() as int) as u8,
            g: round_div(sum_chan(sub, 1), sub.len() as int) as u8,
            b: round_div(sum_chan(sub, 2), sub.len() as int) as u8,
        }
    } else {
        Rgb24 { r: 0, g: 0, b: 0 }
    }
}

/// What it means for `palette` to be a bucket emission of `input` with `k`
/// buckets: some rearrangement of `input` is cut by a monotone ladder of
/// `k + 1` offsets spanning the whole array, and each palette entry is the
/// rounded channel mean of its bucket.
pub open spec fn is_bucket_emission(
    input: Seq<Rgb24>,
    k: int,
    arrangement: Seq<Rgb24>,
    offsets: Seq<int>,
    palette: Seq<Rgb24>,
) -> bool {
    &&& arrangement.to_multiset() == input.to_multiset()
    &&& arrangement.len() == input.len()
    &&& offsets.len() == k + 1
    &&& k >= 1
    &&& offsets[0] == 0
    &&& offsets[k] == input.len()
    &&& (forall|j: int| 0 <= j < k ==> #[trigger] offsets[j] <= offsets[j + 1])
    &&& (forall|j: int| 0 <= j <= k ==> 0 <= #[trigger] offsets[j] <= input.len())
    &&& palette.len() == k
    &&& (forall|j: int|
        0 <= j < k ==> palette[j] == bucket_average(arrangement, offsets[j], offsets[j + 1]))
}

/// The index of the first bucket whose cached delta is greatest: scanning
/// left to right, a later bucket wins only with a strictly wider delta.
pub open spec fn first_max(b: Seq<Bucket>) -> int
    decreases b.len(),
{
    if b.len() <= 1 {
        0
    } else {
        let m = first_max(b.drop_last());
        if b.last().delta > b[m].delta {
            b.len() - 1
        } else {
            m
        }
    }
}

/// The first widest bucket is a real index of a nonempty bucket list.
pub proof fn lemma_first_max_bounds(b: Seq<Bucket>)
    requires
        b.len() >= 1,
    ensures
        0 <= first_max(b) < b.len(),
    decreases b.len(),
{
    if b.len() > 1 {
        lemma_first_max_bounds(b.drop_last());
    }
}

/// One split of the median-cut loop: sort the first widest bucket by its
/// widest channel, cut it at its midpoint, and recompute the two halves'
/// widest channels.
pub open spec fn mc_step(s: Seq<Rgb24>, b: Seq<Bucket>) -> (Seq<Rgb24>, Seq<Bucket>) {
    let i = first_max(b);
    let st = b[i].offset as int;
    let en = b[i + 1].offset as int;
    let mid = st + (en - st) / 2;
    let sorted = s.subrange(0, st) + spec_radix_sort(
        s.subrange(st, en),
        crate::color::spec_channel_index(b[i].channel),
    ) + s.subrange(en, s.len() as int);
    let lowd = crate::color::spec_max_channel_delta(sorted.subrange(st, mid));
    let highd = crate::color::spec_max_channel_delta(sorted.subrange(mid, en));
    let b2 = b.update(
        i,
        Bucket { offset: b[i].offset, channel: lowd.0, delta: lowd.1 },
    ).insert(i + 1, Bucket { offset: mid as usize, channel: highd.0, delta: highd.1 });
    (sorted, b2)
}

/// The whole splitting loop: split the first widest bucket until the list
/// outgrows the palette size.
pub open spec fn mc_run(s: Seq<Rgb24>, b: Seq<Bucket>, k: int) -> (Seq<Rgb24>, Seq<Bucket>)
    decreases k + 2 - b.len(),
        via mc_run_decreases
{
    if b.len() > k || b.len() < 2 {
        (s, b)
    } else {
        mc_run(mc_step(s, b).0, mc_step(s, b).1, k)
    }
}

/// One split always grows the bucket list by exactly one entry, so the
/// splitting loop runs the list up to the palette size and stops.
#[via_fn]
proof fn mc_run_decreases(s: Seq<Rgb24>, b: Seq<Bucket>, k: int) {
    if !(b.len() > k || b.len() < 2) {
        lemma_mc_step_grows(s, b);
    }
}

/// The bucket list after one split is one entry longer.
pub proof fn lemma_mc_step_grows(s: Seq<Rgb24>, b: Seq<Bucket>)
    requires
        b.len() >= 2,
    ensures
        mc_step(s, b).1.len() == b.len() + 1,
{
    lemma_first_max_bounds(b);
    let i = first_max(b);
    let st = b[i].offset as int;
    let en = b[i + 1].offset as int;
    let mid = st + (en - st) / 2;
    let sorted = mc_step(s, b).0;
    let lowd = crate::color::spec_max_channel_delta(sorted.subrange(st, mid));
    let highd = crate::color::spec_max_channel_delta(sorted.subrange(mid, en));
    let upd = b.update(i, Bucket { offset: b[i].offset, channel: lowd.0, delta: lowd.1 });
    upd.insert_ensures(i + 1, Bucket { offset: mid as usize, channel: highd.0, delta: highd.1 });
}

/// The whole median cut, as a function of the input sequence: seed one
/// bucket over everything plus the end sentinel, run the splitting loop,
/// and emit each final bucket's mean.
pub open spec fn spec_median_cut(input: Seq<Rgb24>, k: int) -> Seq<Rgb24> {
    let seed = crate::color::spec_max_channel_delta(input);
    let b0 = seq![
        Bucket { offset: 0, channel: seed.0, delta: seed.1 },
        Bucket { offset: input.len() as usize, channel: seed.0, delta: 0u8 },
    ];
    let fin = mc_run(input, b0, k);
    Seq::new(k as nat, |j: int| bucket_average(fin.0, fin.1[j].offset as int, fin.1[j + 1].offset as int))
}

/// With a single bucket, the emission is the channel-wise rounded mean of
/// the whole input: the one bucket spans the whole rearranged array, and a
/// channel sum does not depend on the order of the colors.
pub proof fn lemma_single_bucket_is_overall_average(
    input: Seq<Rgb24>,
    arrangement: Seq<Rgb24>,
    offsets: Seq<int>,
    palette: Seq<Rgb24>,
)
    requires
        is_bucket_emission(input, 1, arrangement, offsets, palette),
        input.len() >= 1,
    ensures
        palette[0] == (Rgb24 {
            r: round_div(sum_chan(input, 0), input.len() as int) as u8,
            g: round_div(sum_chan(input, 1), input.len() as int) as u8,
            b: round_div(sum_chan(input, 2), input.len() as int) as u8,
        }),
{
    arrangement.to_multiset_ensures();
    input.to_multiset_ensures();
    assert(arrangement.subrange(0, arrangement.len() as int) =~= arrangement);
    crate::color::lemma_sum_chan_permutation(arrangement, input, 0);
    crate::color::lemma_sum_chan_permutation(arrangement, input, 1);
    crate::color::lemma_sum_chan_permutation(arrangement, input, 2);
}

/// Over an input whose colors are all one color, every emitted palette
/// entry is that color; only a bucket that covers nothing emits black
/// instead.
pub proof fn lemma_uniform_emission(
    input: Seq<Rgb24>,
    k: int,
    arrangement: Seq<Rgb24>,
    offsets: Seq<int>,
    palette: Seq<Rgb24>,
    c: Rgb24,
)
    requires
        is_bucket_emission(input, k, arrangement, offsets, palette),
        input.len() >= 1,
        forall|i: int| 0 <= i < input.len() ==> input[i] == c,
    ensures
        forall|j: int|
            0 <= j < palette.len() ==> palette[j] == c || palette[j] == (Rgb24 {
                r: 0,
                g: 0,
                b: 0,
            }),
{
    arrangement.to_multiset_ensures();
    input.to_multiset_ensures();
    assert forall|i: int| 0 <= i < arrangement.len() implies arrangement[i] == c by {
        assert(arrangement.contains(arrangement[i]));
        assert(arrangement.to_multiset().count(arrangement[i]) > 0);
        assert(input.contains(arrangement[i]));
    }
    assert forall|j: int|
        0 <= j < palette.len() implies palette[j] == c || palette[j] == (Rgb24 {
        r: 0,
        g: 0,
        b: 0,
    }) by {
        let st = offsets[j];
        let en = offsets[j + 1];
        if st < en {
            let sub = arrangement.subrange(st, en);
            assert forall|i: int| 0 <= i < sub.len() implies sub[i] == c by {
                assert(sub[i] == arrangement[st + i]);
            }
            assert forall|ch: int|
                0 <= ch < 3 implies round_div(sum_chan(sub, ch), sub.len() as int) == chan(
                c,
                ch,
            ) by {
                crate::color::lemma_sum_chan_uniform(sub, c, ch);
                let x = chan(c, ch) as int;
                let m = sub.len() as int;
                assert(2 * (m * x) + m == x * (2 * m) + m) by (nonlinear_arith);
                vstd::arithmetic::div_mod::lemma_fundamental_div_mod_converse(
                    2 * (m * x) + m,
                    2 * m,
                    x,
                    m,
                );
            }
            assert(palette[j] == bucket_average(arrangement, st, en));
            assert(palette[j] == c);
        } else {
            assert(palette[j] == (Rgb24 { r: 0, g: 0, b: 0 }));
        }
    }
}

/// Finds the median cut of a vector of RGB24 colors.
///
/// Given a list `colors` and `palette_size`, median cut
/// finds a set of colors (called the palette) of size `palette_size`
/// that approximate the distribution of colors in an image.
///
/// Median cut proceeds by organizing colors into buckets according
/// to a maximum channel delta heuristic. All colors in the list are
/// initially placed into one bucket. The bucket is then sorted by
/// the channel with the greatest range.
///
/// The bucket is then split at the median color. The maximum channel delta
/// is then computed again for each new bucket. The bucket with the highest
/// delta is then sorted by that channel, and the process repeats over
/// all buckets until the number of buckets equals `palette_size`.
///
/// The resulting palette is the averages within each bucket.
#[verifier::rlimit(60)]
pub fn median_cut(colors: Vec<Rgb24>, palette_size: usize) -> (palette: Vec<Rgb24>)
    requires
        1 <= palette_size <= colors@.len(),
        colors@.len() <= 0x100_0000_0000_0000,
    ensures
        palette@.len() == palette_size,
        exists|arrangement: Seq<Rgb24>, offsets: Seq<int>|
            is_bucket_emission(colors@, palette_size as int, arrangement, offsets, palette@),
        forall|j: int|
            0 <= j < palette@.len() ==> in_hull(#[trigger] palette@[j], colors@) || palette@[j]
                == (Rgb24 { r: 0, g: 0, b: 0 }),
        palette@ == spec_median_cut(colors@, palette_size as int),
{
    let ghost orig = colors@;
    let mut colors = colors;
    let n = colors.len();
    let mut buckets: Vec<Bucket> = Vec::new();

    let (chan0, delta0) = Rgb24::max_channel_delta(colors.as_slice());
    buckets.push(Bucket::new(0, chan0, delta0));

    // Sentinel bucket used for splitting at the end of the container.
    buckets.push(Bucket::new(n, chan0, 0));

    let ghost b0 = seq![
        Bucket { offset: 0, channel: chan0, delta: delta0 },
        Bucket { offset: n, channel: chan0, delta: 0u8 },
    ];
    proof {
        assert(buckets@ =~= b0);
    }

    while buckets.len() <= palette_size
        invariant
            1 <= palette_size <= n,
            n == orig.len() <= 0x100_0000_0000_0000,
            colors@.len() == n,
            colors@.to_multiset() == orig.to_multiset(),
            2 <= buckets@.len() <= palette_size + 1,
            buckets@[0].offset == 0,
            buckets@[buckets@.len() - 1].offset == n,
            buckets@[buckets@.len() - 1].delta == 0,
            forall|j: int|
                0 <= j < buckets@.len() - 1 ==> #[trigger] buckets@[j].offset <= buckets@[j
                    + 1].offset,
            forall|j: int| 0 <= j < buckets@.len() ==> #[trigger] buckets@[j].offset <= n,
            mc_run(colors@, buckets@, palette_size as int) == mc_run(
                orig,
                b0,
                palette_size as int,
            ),
        decreases palette_size + 1 - buckets@.len(),
    {
        let ghost pre_s = colors@;
        let ghost pre_b = buckets@;
        // Select the first bucket whose cached delta is greatest.
        let mut best: usize = 0;
        let mut bi: usize = 1;
        proof {
            assert(buckets@.take(1).len() == 1);
        }
        while bi < buckets.len()
            invariant
                buckets@.len() >= 2,
                1 <= bi,
                best < bi <= buckets@.len(),
                forall|q: int| 0 <= q < bi ==> #[trigger] buckets@[q].delta <= buckets@[
                    best as int].delta,
                forall|q: int| 0 <= q < best ==> #[trigger] buckets@[q].delta < buckets@[
                    best as int].delta,
                best == first_max(buckets@.take(bi as int)),
            decreases buckets@.len() - bi,
        {
            proof {
                assert(buckets@.take(bi as int + 1).drop_last() =~= buckets@.take(bi as int));
                assert(buckets@.take(bi as int + 1).last() == buckets@[bi as int]);
                lemma_first_max_bounds(buckets@.take(bi as int));
            }
            if buckets[bi].delta > buckets[best].delta {
                best = bi;
            }
            bi += 1;
        }
        let i = best;
        proof {
            assert(buckets@.take(buckets@.len() as int) =~= buckets@);
            assert(i == first_max(buckets@));
            // The sentinel spans nothing, so the first widest bucket is never
            // the sentinel.
            if i == buckets@.len() - 1 {
                assert(buckets@[0].delta < buckets@[i as int].delta);
                assert(buckets@[i as int].delta == 0);
            }
        }

        let start = buckets[i].offset;
        let end = buckets[i + 1].offset;
        let mid = start + (end - start) / 2;

        let split_channel = buckets[i].channel;
        let ghost before_sort = colors@;
        Rgb24::radix_sort(&mut colors, split_channel, start, end);
        proof {
            lemma_radix_sort_multiset(
                before_sort.subrange(start as int, end as int),
                crate::color::spec_channel_index(split_channel),
            );
            lemma_splice_multiset(before_sort, colors@, start as int, end as int);
        }

        let whole = colors.as_slice();
        let (c0, d0) = Rgb24::max_channel_delta(&whole[start..mid]);
        let (c1, d1) = Rgb24::max_channel_delta(&whole[mid..end]);

        let ghost before_buckets = buckets@;
        buckets[i] = Bucket::new(start, c0, d0);
        let ghost updated = buckets@;
        buckets.insert(i + 1, Bucket::new(mid, c1, d1));
        proof {
            updated.insert_ensures(i as int + 1, Bucket { offset: mid, channel: c1, delta: d1 });
            assert forall|j: int|
                0 <= j < buckets@.len() - 1 implies #[trigger] buckets@[j].offset <= buckets@[j
                + 1].offset by {
                if j < i {
                    assert(buckets@[j] == before_buckets[j]);
                    assert(buckets@[j + 1] == before_buckets[j + 1] || j + 1 == i);
                } else if j == i {
                    assert(buckets@[j].offset == start && buckets@[j + 1].offset == mid);
                } else if j == i + 1 {
                    assert(buckets@[j].offset == mid && buckets@[j + 1] == before_buckets[i + 1]);
                } else {
                    assert(buckets@[j] == before_buckets[j - 1] && buckets@[j + 1]
                        == before_buckets[j]);
                }
            }
            assert(buckets@[buckets@.len() - 1] == before_buckets[before_buckets.len() - 1]);
            assert forall|j: int|
                0 <= j < buckets@.len() implies #[trigger] buckets@[j].offset <= n by {
                if j <= i {
                    assert(buckets@[j].offset == updated[j].offset);
                } else if j == i + 1 {
                } else {
                    assert(buckets@[j] == updated[j - 1]);
                }
            }
            // The iteration performed exactly one spec-level split.
            let stepped = mc_step(pre_s, pre_b);
            lemma_radix_sort_multiset(
                pre_s.subrange(start as int, end as int),
                crate::color::spec_channel_index(split_channel),
            );
            assert(colors@ =~= pre_s.subrange(0, start as int) + spec_radix_sort(
                pre_s.subrange(start as int, end as int),
                crate::color::spec_channel_index(split_channel),
            ) + pre_s.subrange(end as int, n as int));
            assert(stepped.0 == colors@);
            assert(stepped.1 == buckets@);
            assert(mc_run(pre_s, pre_b, palette_size as int) == mc_run(
                stepped.0,
                stepped.1,
                palette_size as int,
            ));
        }
    }
    proof {
        assert(mc_run(colors@, buckets@, palette_size as int) == (colors@, buckets@));
    }
    let ghost fin_s = colors@;
    let ghost fin_b = buckets@;

    let k = buckets.len() - 1;
    let mut palette: Vec<Rgb24> = Vec::with_capacity(k);
    let mut j: usize = 0;
    while j < k
        invariant
            1 <= palette_size <= n,
            n == orig.len() <= 0x100_0000_0000_0000,
            colors@.len() == n,
            colors@.to_multiset() == orig.to_multiset(),
            k == palette_size,
            buckets@.len() == k + 1,
            buckets@[0].offset == 0,
            buckets@[buckets@.len() - 1].offset == n,
            forall|q: int|
                0 <= q < buckets@.len() - 1 ==> #[trigger] buckets@[q].offset <= buckets@[q
                    + 1].offset,
            forall|q: int| 0 <= q < buckets@.len() ==> #[trigger] buckets@[q].offset <= n,
            0 <= j <= k,
            palette@.len() == j,
            colors@ == fin_s,
            buckets@ == fin_b,
            forall|q: int|
                0 <= q < j ==> #[trigger] palette@[q] == bucket_average(
                    colors@,
                    buckets@[q].offset as int,
                    buckets@[q + 1].offset as int,
                ),
            forall|q: int|
                0 <= q < j ==> in_hull(#[trigger] palette@[q], orig) || palette@[q] == (Rgb24 {
                    r: 0,
                    g: 0,
                    b: 0,
                }),
        decreases k - j,
    {
        let s = buckets[j].offset;
        let e = buckets[j + 1].offset;
        let c = if s < e {
            let mean = Rgb24::average(&colors.as_slice()[s..e]);
            proof {
                let sub = colors@.subrange(s as int, e as int);
                assert forall|ii: int| 0 <= ii < sub.len() implies in_hull(
                    #[trigger] sub[ii],
                    orig,
                ) by {
                    assert(sub[ii] == colors@[s + ii]);
                    assert(colors@.contains(colors@[s + ii]));
                    colors@.to_multiset_ensures();
                    assert(colors@.to_multiset().count(sub[ii]) > 0);
                    lemma_hull_member(sub[ii], orig);
                }
                assert forall|ch: int|
                    0 <= ch < 3 implies lo_fold(orig, ch) <= chan(mean, ch) && chan(mean, ch)
                    <= hi_fold(orig, ch) by {
                    assert forall|ii: int|
                        0 <= ii < sub.len() implies lo_fold(orig, ch) <= chan(sub[ii], ch) && chan(
                        sub[ii],
                        ch,
                    ) <= hi_fold(orig, ch) by {
                        assert(in_hull(sub[ii], orig));
                    }
                    lemma_sum_chan_in_range(
                        sub,
                        ch,
                        lo_fold(orig, ch) as int,
                        hi_fold(orig, ch) as int,
                    );
                    lemma_fold_bounds(orig, ch, 0);
                    lemma_round_div_in_range(
                        sum_chan(sub, ch),
                        sub.len() as int,
                        lo_fold(orig, ch) as int,
                        hi_fold(orig, ch) as int,
                    );
                }
                assert(in_hull(mean, orig));
            }
            mean
        } else {
            Rgb24::new(0, 0, 0)
        };
        proof {
            assert(c == bucket_average(colors@, s as int, e as int));
        }
        palette.push(c);
        j += 1;
    }

    proof {
        let ghost offs = Seq::new((k + 1) as nat, |q: int| buckets@[q].offset as int);
        assert(is_bucket_emission(orig, k as int, colors@, offs, palette@));
        assert((fin_s, fin_b) == mc_run(orig, b0, palette_size as int));
        assert(palette@ =~= spec_median_cut(orig, palette_size as int));
    }
    palette
}

} // verus!
