//! The quantizer: an exact-color histogram, 3x3x3 bucket averaging,
//! dominance ranking and near-duplicate filtering, turning a multiset of
//! sampled pixels into a short ranked list of weighted representative
//! colors.

use vstd::prelude::*;
use vstd::seq_lib::*;
use crate::color::Color;
use crate::sorting::{
    insert_sorted,
    sort_by_leq,
    sorted_by_leq,
    total_leq,
    lemma_sort_len,
    lemma_contains_push,
    lemma_contains_drop_last,
    lemma_sort_contains,
    lemma_sort_sorted,
    lemma_insert_sorted_at,
    lemma_sort_step,
};

verus! {

/// A color's position in the lexicographic (r, g, b) order, as one number.
pub open spec fn rgb_key(c: Color) -> int {
    c.r as int * 65536 + c.g as int * 256 + c.b as int
}

/// Equal keys mean equal colors.
pub proof fn lemma_rgb_key_injective(c1: Color, c2: Color)
    requires
        rgb_key(c1) == rgb_key(c2),
    ensures
        c1 == c2,
{
}

/// The ascending (r, g, b) order on weighted colors.
pub open spec fn leq_rgb() -> spec_fn((u32, Color), (u32, Color)) -> bool {
    |a: (u32, Color), b: (u32, Color)| rgb_key(a.1) <= rgb_key(b.1)
}

/// The descending weight order, ties keeping their input order.
pub open spec fn leq_weight_desc() -> spec_fn((u32, Color), (u32, Color)) -> bool {
    |a: (u32, Color), b: (u32, Color)| a.0 >= b.0
}

/// Which of the three divisions of one channel axis a value falls in:
/// `floor(channel / 255 * 2.99)`, always 0, 1 or 2 (255 stays in 2).
pub open spec fn spec_bucket_index(ch: u8) -> int {
    (ch as int * 299) / 25500
}

/// The flat index of a color's bucket in the 3x3x3 grid.
pub open spec fn spec_bucket_of(c: Color) -> int {
    spec_bucket_index(c.r) * 9 + spec_bucket_index(c.g) * 3 + spec_bucket_index(c.b)
}

/// The membership test for one bucket.
pub open spec fn bucket_pred(b: int) -> spec_fn((u32, Color)) -> bool {
    |e: (u32, Color)| spec_bucket_of(e.1) == b
}

/// The occurrence test for one color.
pub open spec fn color_eq_pred(c: Color) -> spec_fn(Color) -> bool {
    |x: Color| x == c
}

/// How often a color occurs in a pixel sample.
pub open spec fn occ(pixels: Seq<Color>, c: Color) -> int {
    pixels.filter(color_eq_pred(c)).len() as int
}

/// The sum of the counts of a weighted-color list.
pub open spec fn sum_counts(s: Seq<(u32, Color)>) -> int
    decreases s.len(),
{
    if s.len() == 0 {
        0
    } else {
        sum_counts(s.drop_last()) + s.last().0
    }
}

/// The count-weighted sum of the red channel.
pub open spec fn sum_weighted_r(s: Seq<(u32, Color)>) -> int
    decreases s.len(),
{
    if s.len() == 0 {
        0
    } else {
        sum_weighted_r(s.drop_last()) + s.last().0 * s.last().1.r
    }
}

/// The count-weighted sum of the green channel.
pub open spec fn sum_weighted_g(s: Seq<(u32, Color)>) -> int
    decreases s.len(),
{
    if s.len() == 0 {
        0
    } else {
        sum_weighted_g(s.drop_last()) + s.last().0 * s.last().1.g
    }
}

/// The count-weighted sum of the blue channel.
pub open spec fn sum_weighted_b(s: Seq<(u32, Color)>) -> int
    decreases s.len(),
{
    if s.len() == 0 {
        0
    } else {
        sum_weighted_b(s.drop_last()) + s.last().0 * s.last().1.b
    }
}

/// The weighted mean of a non-empty list: total count, and each channel the
/// truncated quotient of weighted sum over total.
pub open spec fn spec_weighted_mean(s: Seq<(u32, Color)>) -> (u32, Color) {
    if s.len() == 0 {
        (0u32, Color { r: 0, g: 0, b: 0 })
    } else {
        let total = sum_counts(s);
        (
            total as u32,
            Color {
                r: (sum_weighted_r(s) / total) as u8,
                g: (sum_weighted_g(s) / total) as u8,
                b: (sum_weighted_b(s) / total) as u8,
            },
        )
    }
}

/// Squared Euclidean distance of two colors in RGB space. Comparisons
/// against a plain distance bound `t` are made against `t * t`.
pub open spec fn spec_dist2(c1: Color, c2: Color) -> int {
    (c1.r - c2.r) * (c1.r - c2.r) + (c1.g - c2.g) * (c1.g - c2.g) + (c1.b - c2.b) * (c1.b
        - c2.b)
}

/// A color no closer than the similarity threshold (Euclidean distance 30)
/// to any already-kept entry.
pub open spec fn far_from_all(kept: Seq<(u32, Color)>, c: Color) -> bool {
    forall|i: int| 0 <= i < kept.len() ==> spec_dist2(#[trigger] kept[i].1, c) >= 900
}

/// Near-duplicate filtering: walk the ranked list in order, keeping an
/// entry only if it is far from everything kept before it.
pub open spec fn spec_filter_similar(s: Seq<(u32, Color)>, kept: Seq<(u32, Color)>) -> Seq<
    (u32, Color),
>
    decreases s.len(),
{
    if s.len() == 0 {
        kept
    } else if far_from_all(kept, s.first().1) {
        spec_filter_similar(s.drop_first(), kept.push(s.first()))
    } else {
        spec_filter_similar(s.drop_first(), kept)
    }
}

/// At most the first 8 entries of the ranked list.
pub open spec fn spec_truncate8(s: Seq<(u32, Color)>) -> Seq<(u32, Color)> {
    if s.len() <= 8 {
        s
    } else {
        s.take(8)
    }
}

/// The entries that carry any weight at all.
pub open spec fn pos_weight_pred() -> spec_fn((u32, Color)) -> bool {
    |e: (u32, Color)| e.0 > 0
}

/// The weighted means of all 27 buckets, in flat bucket order, empty
/// buckets as weight 0.
pub open spec fn summaries_raw(s: Seq<(u32, Color)>) -> Seq<(u32, Color)> {
    Seq::new(27, |b: int| spec_weighted_mean(s.filter(bucket_pred(b))))
}

/// The weighted means of the non-empty buckets, in flat bucket order.
pub open spec fn bucket_summaries(s: Seq<(u32, Color)>) -> Seq<(u32, Color)> {
    summaries_raw(s).filter(pos_weight_pred())
}

/// The ranked, truncated, near-duplicate-filtered list of bucket means for
/// a histogram: the quantizer's whole numeric pipeline after the histogram.
pub open spec fn spec_colors_mean(s: Seq<(u32, Color)>) -> Seq<(u32, Color)> {
    spec_filter_similar(
        spec_truncate8(sort_by_leq(bucket_summaries(sort_by_leq(s, leq_rgb())), leq_weight_desc())),
        Seq::empty(),
    )
}

/// A histogram of a pixel sample: strictly ascending by (r, g, b), counts
/// exactly the occurrence counts, every sampled color present.
pub open spec fn is_histogram_of(h: Seq<(u32, Color)>, pixels: Seq<Color>) -> bool {
    &&& forall|i: int, j: int|
        0 <= i < j < h.len() ==> rgb_key(#[trigger] h[i].1) < rgb_key(#[trigger] h[j].1)
    &&& forall|i: int| 0 <= i < h.len() ==> (#[trigger] h[i].0) == occ(pixels, h[i].1)
    &&& forall|i: int| 0 <= i < h.len() ==> pixels.contains(#[trigger] h[i].1)
    &&& forall|c: Color| pixels.contains(c) ==> exists|i: int| 0 <= i < h.len() && h[i].1 == c
}

/// Squared distance is symmetric.
pub proof fn lemma_dist2_symm(c1: Color, c2: Color)
    ensures
        spec_dist2(c1, c2) == spec_dist2(c2, c1),
{
    assert(spec_dist2(c1, c2) == spec_dist2(c2, c1)) by (nonlinear_arith);
}

/// Totality and transitivity of the orders the quantizer sorts by.
pub proof fn lemma_orders_total()
    ensures
        total_leq(leq_rgb()),
        total_leq(leq_weight_desc()),
{
}

/// One more element of a take: the running sums each grow by one term.
pub proof fn lemma_sums_take_step(s: Seq<(u32, Color)>, k: int)
    requires
        0 <= k < s.len(),
    ensures
        sum_counts(s.take(k + 1)) == sum_counts(s.take(k)) + s[k].0,
        sum_weighted_r(s.take(k + 1)) == sum_weighted_r(s.take(k)) + s[k].0 * s[k].1.r,
        sum_weighted_g(s.take(k + 1)) == sum_weighted_g(s.take(k)) + s[k].0 * s[k].1.g,
        sum_weighted_b(s.take(k + 1)) == sum_weighted_b(s.take(k)) + s[k].0 * s[k].1.b,
{
    assert(s.take(k + 1).drop_last() =~= s.take(k));
    assert(s.take(k + 1).last() == s[k]);
}

/// Every running sum of the quantizer is non-negative.
pub proof fn lemma_sums_nonneg(s: Seq<(u32, Color)>)
    ensures
        0 <= sum_counts(s),
        0 <= sum_weighted_r(s),
        0 <= sum_weighted_g(s),
        0 <= sum_weighted_b(s),
    decreases s.len(),
{
    if s.len() > 0 {
        lemma_sums_nonneg(s.drop_last());
        let e = s.last();
        assert(0 <= e.0 * e.1.r && 0 <= e.0 * e.1.g && 0 <= e.0 * e.1.b) by (nonlinear_arith)
            requires
                0 <= e.0 && 0 <= e.1.r && 0 <= e.1.g && 0 <= e.1.b,
        ;
    }
}

/// A count sum splits at any cut point.
pub proof fn lemma_sum_counts_split(s: Seq<(u32, Color)>, k: int)
    requires
        0 <= k <= s.len(),
    ensures
        sum_counts(s) == sum_counts(s.take(k)) + sum_counts(s.skip(k)),
    decreases s.len(),
{
    if k == s.len() {
        assert(s.take(k) =~= s);
        assert(s.skip(k) =~= Seq::<(u32, Color)>::empty());
    } else {
        lemma_sum_counts_split(s.drop_last(), k);
        assert(s.take(k) =~= s.drop_last().take(k));
        assert(s.skip(k).drop_last() =~= s.drop_last().skip(k));
        assert(s.skip(k).last() == s.last());
        assert(sum_counts(s.skip(k)) == sum_counts(s.drop_last().skip(k)) + s.last().0);
    }
}

/// An entry of a list contributes at most the whole count sum.
pub proof fn lemma_sum_counts_entry(s: Seq<(u32, Color)>, i: int)
    requires
        0 <= i < s.len(),
    ensures
        s[i].0 <= sum_counts(s),
    decreases s.len(),
{
    lemma_sums_nonneg(s.drop_last());
    if i == s.len() - 1 {
    } else {
        lemma_sum_counts_entry(s.drop_last(), i);
    }
}

/// The count sum of a sequence with one more element at the end.
pub proof fn lemma_sum_counts_push(s: Seq<(u32, Color)>, e: (u32, Color))
    ensures
        sum_counts(s.push(e)) == sum_counts(s) + e.0,
{
    assert(s.push(e).drop_last() =~= s);
}

/// The count sum split around one index.
pub proof fn lemma_sum_counts_index_decomp(s: Seq<(u32, Color)>, i: int)
    requires
        0 <= i < s.len(),
    ensures
        sum_counts(s) == sum_counts(s.take(i)) + s[i].0 + sum_counts(s.skip(i + 1)),
{
    lemma_sum_counts_split(s, i + 1);
    lemma_sums_take_step(s, i);
}

/// Replacing one entry changes the count sum by the difference of counts.
pub proof fn lemma_sum_counts_update(s: Seq<(u32, Color)>, i: int, e: (u32, Color))
    requires
        0 <= i < s.len(),
    ensures
        sum_counts(s.update(i, e)) == sum_counts(s) - s[i].0 + e.0,
{
    let u = s.update(i, e);
    assert(u.take(i) =~= s.take(i));
    assert(u.skip(i + 1) =~= s.skip(i + 1));
    lemma_sum_counts_index_decomp(s, i);
    lemma_sum_counts_index_decomp(u, i);
}

/// Inserting an entry adds its count to the count sum.
pub proof fn lemma_sum_counts_insert(s: Seq<(u32, Color)>, i: int, e: (u32, Color))
    requires
        0 <= i <= s.len(),
    ensures
        sum_counts(s.insert(i, e)) == sum_counts(s) + e.0,
{
    let u = s.insert(i, e);
    s.insert_ensures(i, e);
    assert(u.take(i) =~= s.take(i));
    assert(u.skip(i + 1) =~= s.skip(i));
    lemma_sum_counts_index_decomp(u, i);
    lemma_sum_counts_split(s, i);
}

/// A sequence of weightless entries sums to nothing.
pub proof fn lemma_sum_counts_all_zero(s: Seq<(u32, Color)>)
    requires
        forall|i: int| 0 <= i < s.len() ==> (#[trigger] s[i]).0 == 0,
    ensures
        sum_counts(s) == 0,
    decreases s.len(),
{
    if s.len() > 0 {
        lemma_sum_counts_all_zero(s.drop_last());
    }
}

/// Filtering can only shrink the count sum.
pub proof fn lemma_sum_counts_filter_le(s: Seq<(u32, Color)>, pred: spec_fn((u32, Color)) -> bool)
    ensures
        0 <= sum_counts(s.filter(pred)) <= sum_counts(s),
    decreases s.len(),
{
    reveal(Seq::filter);
    lemma_sums_nonneg(s.filter(pred));
    if s.len() > 0 {
        lemma_sum_counts_filter_le(s.drop_last(), pred);
        if pred(s.last()) {
            lemma_sum_counts_push(s.drop_last().filter(pred), s.last());
        }
    }
}

/// Filtering that only drops weightless entries keeps the count sum.
pub proof fn lemma_sum_counts_filter_zero_drop(
    s: Seq<(u32, Color)>,
    pred: spec_fn((u32, Color)) -> bool,
)
    requires
        forall|i: int| 0 <= i < s.len() && !pred(#[trigger] s[i]) ==> s[i].0 == 0,
    ensures
        sum_counts(s.filter(pred)) == sum_counts(s),
    decreases s.len(),
{
    reveal(Seq::filter);
    if s.len() > 0 {
        lemma_sum_counts_filter_zero_drop(s.drop_last(), pred);
        if pred(s.last()) {
            lemma_sum_counts_push(s.drop_last().filter(pred), s.last());
        } else {
            assert(s[s.len() - 1].0 == 0);
        }
    }
}

/// One more pixel raises exactly its own color's occurrence count.
pub proof fn lemma_occ_take_step(pixels: Seq<Color>, k: int, c: Color)
    requires
        0 <= k < pixels.len(),
    ensures
        occ(pixels.take(k + 1), c) == occ(pixels.take(k), c) + if pixels[k] == c {
            1int
        } else {
            0int
        },
{
    reveal(Seq::filter);
    assert(pixels.take(k + 1).drop_last() =~= pixels.take(k));
    assert(pixels.take(k + 1).last() == pixels[k]);
    assert(pixels.take(k + 1).len() == k + 1);
}

/// A color that does not appear has occurrence count 0.
pub proof fn lemma_occ_zero(s: Seq<Color>, c: Color)
    requires
        !s.contains(c),
    ensures
        occ(s, c) == 0,
{
    assert forall|i: int| 0 <= i < s.len() implies !(color_eq_pred(c)(#[trigger] s[i])) by {
        if s[i] == c {
            assert(s.contains(c));
        }
    }
    s.lemma_all_neg_filter_empty(color_eq_pred(c));
}

/// A color that appears has occurrence count at least 1.
pub proof fn lemma_occ_pos(s: Seq<Color>, c: Color)
    requires
        s.contains(c),
    ensures
        occ(s, c) >= 1,
{
    let i = choose|i: int| 0 <= i < s.len() && s[i] == c;
    s.lemma_filter_contains(color_eq_pred(c), i);
    let f = s.filter(color_eq_pred(c));
    assert(f.contains(s[i]));
    let j = choose|j: int| 0 <= j < f.len() && f[j] == s[i];
}

/// Occurrence counts never exceed the sample size.
pub proof fn lemma_occ_le_len(s: Seq<Color>, c: Color)
    ensures
        occ(s, c) <= s.len(),
{
    s.lemma_filter_len(color_eq_pred(c));
}

/// A stable insert adds one entry's count.
pub proof fn lemma_insert_sorted_sum(
    t: Seq<(u32, Color)>,
    e: (u32, Color),
    leq: spec_fn((u32, Color), (u32, Color)) -> bool,
)
    ensures
        sum_counts(insert_sorted(t, e, leq)) == sum_counts(t) + e.0,
    decreases t.len(),
{
    if t.len() == 0 {
        assert(insert_sorted(t, e, leq) == seq![e]);
        assert(seq![e].drop_last() =~= Seq::<(u32, Color)>::empty());
        assert(seq![e].last() == e);
        assert(sum_counts(seq![e]) == sum_counts(seq![e].drop_last()) + e.0);
        assert(sum_counts(seq![e].drop_last()) == 0);
    } else if leq(t.last(), e) {
        lemma_sum_counts_push(t, e);
    } else {
        lemma_insert_sorted_sum(t.drop_last(), e, leq);
        lemma_sum_counts_push(insert_sorted(t.drop_last(), e, leq), t.last());
    }
}

/// Sorting keeps the count sum.
pub proof fn lemma_sort_sum(s: Seq<(u32, Color)>, leq: spec_fn((u32, Color), (u32, Color)) -> bool)
    ensures
        sum_counts(sort_by_leq(s, leq)) == sum_counts(s),
    decreases s.len(),
{
    if s.len() > 0 {
        lemma_sort_sum(s.drop_last(), leq);
        lemma_insert_sorted_sum(sort_by_leq(s.drop_last(), leq), s.last(), leq);
    }
}

/// Sorting an already sorted sequence changes nothing.
pub proof fn lemma_sort_of_sorted<T>(s: Seq<T>, leq: spec_fn(T, T) -> bool)
    requires
        sorted_by_leq(s, leq),
    ensures
        sort_by_leq(s, leq) == s,
    decreases s.len(),
{
    if s.len() > 0 {
        assert(sorted_by_leq(s.drop_last(), leq));
        lemma_sort_of_sorted(s.drop_last(), leq);
        if s.len() == 1 {
            assert(insert_sorted(s.drop_last(), s.last(), leq) =~= s);
        } else {
            assert(leq(s[s.len() - 2], s[s.len() - 1]));
            assert(s.drop_last().last() == s[s.len() - 2]);
            assert(s.drop_last().push(s.last()) =~= s);
        }
    }
}

/// The already-kept entries stay a prefix of the near-duplicate filter's
/// result.
pub proof fn lemma_filter_similar_prefix(s: Seq<(u32, Color)>, kept: Seq<(u32, Color)>)
    ensures
        spec_filter_similar(s, kept).len() >= kept.len(),
        forall|i: int| 0 <= i < kept.len() ==> spec_filter_similar(s, kept)[i] == kept[i],
        spec_filter_similar(s, kept).len() <= kept.len() + s.len(),
    decreases s.len(),
{
    if s.len() > 0 {
        if far_from_all(kept, s.first().1) {
            lemma_filter_similar_prefix(s.drop_first(), kept.push(s.first()));
            assert(spec_filter_similar(s, kept) == spec_filter_similar(
                s.drop_first(),
                kept.push(s.first()),
            ));
            assert(forall|i: int| 0 <= i < kept.len() ==> kept.push(s.first())[i] == kept[i]);
        } else {
            lemma_filter_similar_prefix(s.drop_first(), kept);
            assert(spec_filter_similar(s, kept) == spec_filter_similar(s.drop_first(), kept));
        }
    }
}

/// Every entry of the near-duplicate filter's result comes from the kept
/// prefix or the unprocessed list.
pub proof fn lemma_filter_similar_contains(
    s: Seq<(u32, Color)>,
    kept: Seq<(u32, Color)>,
    x: (u32, Color),
)
    requires
        spec_filter_similar(s, kept).contains(x),
    ensures
        kept.contains(x) || s.contains(x),
    decreases s.len(),
{
    if s.len() == 0 {
    } else {
        if far_from_all(kept, s.first().1) {
            lemma_filter_similar_contains(s.drop_first(), kept.push(s.first()), x);
            if kept.push(s.first()).contains(x) {
                lemma_contains_push(kept, s.first(), x);
                if x == s.first() {
                    assert(s[0] == x);
                }
            }
        } else {
            lemma_filter_similar_contains(s.drop_first(), kept, x);
        }
        if s.drop_first().contains(x) {
            let i = choose|i: int| 0 <= i < s.drop_first().len() && s.drop_first()[i] == x;
            assert(s[i + 1] == x);
        }
    }
}

/// The filtered list is pairwise far apart.
pub proof fn lemma_filter_similar_pairwise(s: Seq<(u32, Color)>, kept: Seq<(u32, Color)>)
    requires
        forall|i: int, j: int|
            0 <= i < j < kept.len() ==> spec_dist2(#[trigger] kept[i].1, #[trigger] kept[j].1)
                >= 900,
    ensures
        forall|i: int, j: int|
            0 <= i < j < spec_filter_similar(s, kept).len() ==> spec_dist2(
                #[trigger] spec_filter_similar(s, kept)[i].1,
                #[trigger] spec_filter_similar(s, kept)[j].1,
            ) >= 900,
    decreases s.len(),
{
    if s.len() > 0 {
        if far_from_all(kept, s.first().1) {
            let kept2 = kept.push(s.first());
            assert forall|i: int, j: int| 0 <= i < j < kept2.len() implies spec_dist2(
                #[trigger] kept2[i].1,
                #[trigger] kept2[j].1,
            ) >= 900 by {
                if j == kept2.len() - 1 {
                    assert(kept2[j] == s.first());
                    assert(kept2[i] == kept[i]);
                    assert(spec_dist2(kept[i].1, s.first().1) >= 900);
                } else {
                    assert(kept2[i] == kept[i] && kept2[j] == kept[j]);
                }
            }
            lemma_filter_similar_pairwise(s.drop_first(), kept2);
            assert(spec_filter_similar(s, kept) == spec_filter_similar(s.drop_first(), kept2));
        } else {
            lemma_filter_similar_pairwise(s.drop_first(), kept);
            assert(spec_filter_similar(s, kept) == spec_filter_similar(s.drop_first(), kept));
        }
    }
}

/// The filtered list stays sorted: it is a subsequence of kept-then-rest.
pub proof fn lemma_filter_similar_sorted(
    s: Seq<(u32, Color)>,
    kept: Seq<(u32, Color)>,
    leq: spec_fn((u32, Color), (u32, Color)) -> bool,
)
    requires
        sorted_by_leq(kept + s, leq),
    ensures
        sorted_by_leq(spec_filter_similar(s, kept), leq),
    decreases s.len(),
{
    if s.len() == 0 {
        assert(kept + s =~= kept);
    } else {
        if far_from_all(kept, s.first().1) {
            assert(kept.push(s.first()) + s.drop_first() =~= kept + s);
            lemma_filter_similar_sorted(s.drop_first(), kept.push(s.first()), leq);
        } else {
            let u = kept + s;
            let v = kept + s.drop_first();
            assert(v =~= u.remove(kept.len() as int));
            u.remove_ensures(kept.len() as int);
            assert forall|i: int, j: int| 0 <= i < j < v.len() implies #[trigger] leq(
                v[i],
                v[j],
            ) by {
                let ii = if i < kept.len() {
                    i
                } else {
                    i + 1
                };
                let jj = if j < kept.len() {
                    j
                } else {
                    j + 1
                };
                assert(v[i] == u[ii] && v[j] == u[jj]);
                assert(leq(u[ii], u[jj]));
            }
            lemma_filter_similar_sorted(s.drop_first(), kept, leq);
        }
    }
}

/// The near-duplicate filter never grows the count sum.
pub proof fn lemma_filter_similar_sum(s: Seq<(u32, Color)>, kept: Seq<(u32, Color)>)
    ensures
        sum_counts(spec_filter_similar(s, kept)) <= sum_counts(kept) + sum_counts(s),
    decreases s.len(),
{
    if s.len() > 0 {
        lemma_sum_counts_index_decomp(s, 0);
        assert(s.take(0) =~= Seq::<(u32, Color)>::empty());
        assert(s.skip(1) =~= s.drop_first());
        if far_from_all(kept, s.first().1) {
            lemma_filter_similar_sum(s.drop_first(), kept.push(s.first()));
            lemma_sum_counts_push(kept, s.first());
        } else {
            lemma_filter_similar_sum(s.drop_first(), kept);
        }
    }
}

/// All 27 bucket means together weigh exactly the histogram they came from.
pub proof fn lemma_summaries_raw_sum(s: Seq<(u32, Color)>)
    requires
        sum_counts(s) <= u32::MAX,
    ensures
        sum_counts(summaries_raw(s)) == sum_counts(s),
    decreases s.len(),
{
    reveal(Seq::filter);
    lemma_sums_nonneg(s);
    if s.len() == 0 {
        assert forall|b: int| 0 <= b < 27 implies (#[trigger] summaries_raw(s)[b]).0 == 0 by {
            assert(s.filter(bucket_pred(b)) =~= Seq::<(u32, Color)>::empty());
        }
        lemma_sum_counts_all_zero(summaries_raw(s));
    } else {
        let d = s.drop_last();
        let e = s.last();
        assert(sum_counts(s) == sum_counts(d) + e.0);
        lemma_sums_nonneg(d);
        lemma_summaries_raw_sum(d);
        let bstar = spec_bucket_of(e.1);
        let u = summaries_raw(s);
        let v = summaries_raw(d);
        assert(0 <= bstar < 27);
        assert forall|b: int| 0 <= b < 27 && b != bstar implies u[b] == v[b] by {
            assert(!(bucket_pred(b)(e)));
            assert(s.filter(bucket_pred(b)) == d.filter(bucket_pred(b)));
        }
        assert(bucket_pred(bstar)(e));
        assert(s.filter(bucket_pred(bstar)) == d.filter(bucket_pred(bstar)).push(e));
        let fs = s.filter(bucket_pred(bstar));
        let fd = d.filter(bucket_pred(bstar));
        lemma_sum_counts_filter_le(s, bucket_pred(bstar));
        lemma_sum_counts_filter_le(d, bucket_pred(bstar));
        lemma_sum_counts_push(fd, e);
        assert(fs.len() > 0);
        assert(u[bstar].0 == sum_counts(fs));
        assert(v[bstar].0 == sum_counts(fd));
        assert(u[bstar].0 == v[bstar].0 + e.0);
        lemma_sum_counts_index_decomp(u, bstar);
        lemma_sum_counts_index_decomp(v, bstar);
        assert(u.take(bstar) =~= v.take(bstar));
        assert(u.skip(bstar + 1) =~= v.skip(bstar + 1));
    }
}

/// What the quantizer guarantees of its ranked filtered list: between 1 and
/// 8 entries for a non-empty histogram, descending weights, every pair of
/// colors at Euclidean distance at least 30, every weight at least 1, and
/// no more total weight than the histogram holds.
pub proof fn lemma_colors_mean_properties(s: Seq<(u32, Color)>)
    requires
        sum_counts(s) <= u32::MAX,
        forall|i: int| 0 <= i < s.len() ==> (#[trigger] s[i]).0 >= 1,
    ensures
        spec_colors_mean(s).len() <= 8,
        s.len() > 0 ==> spec_colors_mean(s).len() >= 1,
        sorted_by_leq(spec_colors_mean(s), leq_weight_desc()),
        forall|i: int, j: int|
            0 <= i < j < spec_colors_mean(s).len() ==> spec_dist2(
                (#[trigger] spec_colors_mean(s)[i]).1,
                (#[trigger] spec_colors_mean(s)[j]).1,
            ) >= 900,
        forall|i: int| 0 <= i < spec_colors_mean(s).len() ==> (#[trigger] spec_colors_mean(
            s,
        )[i]).0 >= 1,
        sum_counts(spec_colors_mean(s)) <= sum_counts(s),
        s.len() == 0 ==> spec_colors_mean(s).len() == 0,
{
    lemma_orders_total();
    lemma_sums_nonneg(s);
    let sorted = sort_by_leq(s, leq_rgb());
    lemma_sort_sum(s, leq_rgb());
    lemma_sort_len(s, leq_rgb());
    let summ = summaries_raw(sorted);
    lemma_summaries_raw_sum(sorted);
    let bs = bucket_summaries(sorted);
    assert forall|i: int| 0 <= i < bs.len() implies (#[trigger] bs[i]).0 >= 1 by {
        summ.lemma_filter_pred(pos_weight_pred(), i);
    }
    assert forall|i: int|
        0 <= i < summ.len() && !(pos_weight_pred()(#[trigger] summ[i])) implies summ[i].0 == 0 by {}
    lemma_sum_counts_filter_zero_drop(summ, pos_weight_pred());
    assert(sum_counts(bs) == sum_counts(s));
    let ranked = sort_by_leq(bs, leq_weight_desc());
    lemma_sort_sum(bs, leq_weight_desc());
    lemma_sort_len(bs, leq_weight_desc());
    lemma_sort_sorted(bs, leq_weight_desc());
    assert forall|i: int| 0 <= i < ranked.len() implies (#[trigger] ranked[i]).0 >= 1 by {
        lemma_sort_contains(bs, leq_weight_desc(), ranked[i]);
        assert(ranked.contains(ranked[i]));
        let j = choose|j: int| 0 <= j < bs.len() && bs[j] == ranked[i];
    }
    let t8 = spec_truncate8(ranked);
    assert(sum_counts(t8) <= sum_counts(ranked) && sorted_by_leq(t8, leq_weight_desc()) && forall|
        i: int,
    | 0 <= i < t8.len() ==> (#[trigger] t8[i]).0 >= 1) by {
        if ranked.len() > 8 {
            lemma_sum_counts_split(ranked, 8);
            lemma_sums_nonneg(ranked.skip(8));
            assert(forall|i: int| 0 <= i < t8.len() ==> t8[i] == ranked[i]);
        }
    }
    let cm = spec_colors_mean(s);
    lemma_filter_similar_prefix(t8, Seq::empty());
    lemma_filter_similar_sum(t8, Seq::empty());
    lemma_filter_similar_pairwise(t8, Seq::empty());
    assert(Seq::<(u32, Color)>::empty() + t8 =~= t8);
    lemma_filter_similar_sorted(t8, Seq::empty(), leq_weight_desc());
    assert forall|i: int| 0 <= i < cm.len() implies (#[trigger] cm[i]).0 >= 1 by {
        assert(cm.contains(cm[i]));
        lemma_filter_similar_contains(t8, Seq::empty(), cm[i]);
        assert(!Seq::<(u32, Color)>::empty().contains(cm[i]));
        let j = choose|j: int| 0 <= j < t8.len() && t8[j] == cm[i];
    }
    if s.len() == 0 {
        assert forall|b: int| 0 <= b < 27 implies !(pos_weight_pred()(#[trigger] summ[b])) by {
            reveal(Seq::filter);
            assert(sorted.filter(bucket_pred(b)) =~= Seq::<(u32, Color)>::empty());
        }
        assert(summ.all(|x: (u32, Color)| !(pos_weight_pred()(x))));
        summ.lemma_all_neg_filter_empty(pos_weight_pred());
        lemma_filter_similar_prefix(t8, Seq::empty());
    }
    if s.len() > 0 {
        // some bucket of the sorted histogram is non-empty, so the pipeline
        // keeps at least one entry
        let e = sorted[0];
        assert(sorted.contains(e));
        let bstar = spec_bucket_of(e.1);
        assert(bucket_pred(bstar)(e));
        sorted.lemma_filter_contains(bucket_pred(bstar), 0);
        let f = sorted.filter(bucket_pred(bstar));
        assert(f.contains(e));
        let fi = choose|fi: int| 0 <= fi < f.len() && f[fi] == e;
        lemma_sum_counts_entry(f, fi);
        assert forall|i: int| 0 <= i < sorted.len() implies (#[trigger] sorted[i]).0 >= 1 by {
            lemma_sort_contains(s, leq_rgb(), sorted[i]);
            assert(sorted.contains(sorted[i]));
            let j = choose|j: int| 0 <= j < s.len() && s[j] == sorted[i];
        }
        lemma_sum_counts_filter_le(sorted, bucket_pred(bstar));
        assert(summ[bstar].0 >= 1);
        assert(pos_weight_pred()(summ[bstar]));
        summ.lemma_filter_contains(pos_weight_pred(), bstar);
        assert(bs.contains(summ[bstar]));
        assert(bs.len() >= 1);
        assert(t8.len() >= 1);
        assert(far_from_all(Seq::empty(), t8.first().1));
        lemma_filter_similar_prefix(t8.drop_first(), Seq::<(u32, Color)>::empty().push(t8.first()));
        assert(cm.len() >= 1);
    }
}

/// The top-level quantizer state: the dominant color and the ranked
/// palette, each palette entry a share given as (count, total count, color).
pub struct Haishoku {
    pub dominant: Option<Color>,
    pub palette: Vec<(u32, u32, Color)>,
}

impl Haishoku {
    pub fn new() -> (h: Self)
        ensures
            h.dominant is None,
            h.palette@ =~= Seq::<(u32, u32, Color)>::empty(),
    {
        Haishoku { dominant: None, palette: Vec::new() }
    }

    /// One channel axis division: 0, 1 or 2, never 3, 255 landing in 2.
    pub fn bucket_index(ch: u8) -> (i: usize)
        ensures
            i == spec_bucket_index(ch),
            i <= 2,
    {
        ((ch as u32 * 299) / 25500) as usize
    }

    /// The flat 3x3x3 bucket index of a color, `r * 9 + g * 3 + b`.
    pub fn bucket_of(c: &Color) -> (i: usize)
        ensures
            i == spec_bucket_of(*c),
            i < 27,
    {
        Self::bucket_index(c.r) * 9 + Self::bucket_index(c.g) * 3 + Self::bucket_index(c.b)
    }

    /// Squared Euclidean RGB distance.
    pub fn color_distance_squared(&self, color1: &Color, color2: &Color) -> (d: u32)
        ensures
            d == spec_dist2(*color1, *color2),
    {
        let dr = if color1.r >= color2.r {
            (color1.r - color2.r) as u32
        } else {
            (color2.r - color1.r) as u32
        };
        let dg = if color1.g >= color2.g {
            (color1.g - color2.g) as u32
        } else {
            (color2.g - color1.g) as u32
        };
        let db = if color1.b >= color2.b {
            (color1.b - color2.b) as u32
        } else {
            (color2.b - color1.b) as u32
        };
        proof {
            assert((color1.r - color2.r) * (color1.r - color2.r) == dr * dr
                && (color1.g - color2.g) * (color1.g - color2.g) == dg * dg
                && (color1.b - color2.b) * (color1.b - color2.b) == db * db
                && dr * dr <= 65025 && dg * dg <= 65025 && db * db <= 65025)
                by (nonlinear_arith)
                requires
                    dr == abs_diff(color1.r as int, color2.r as int),
                    dg == abs_diff(color1.g as int, color2.g as int),
                    db == abs_diff(color1.b as int, color2.b as int),
                    dr <= 255 && dg <= 255 && db <= 255,
            ;
        }
        dr * dr + dg * dg + db * db
    }

    /// The weighted mean of a grouped list: total count, and each channel
    /// the truncated quotient of the count-weighted channel sum over the
    /// total. An empty list yields weight 0 and black.
    pub fn get_weighted_mean(&self, grouped_colors: Vec<(u32, Color)>) -> (res: (u32, Color))
        requires
            sum_counts(grouped_colors@) <= u32::MAX,
            forall|i: int| 0 <= i < grouped_colors@.len() ==> (#[trigger] grouped_colors@[i]).0
                >= 1,
        ensures
            res == spec_weighted_mean(grouped_colors@),
    {
        let s = Ghost(grouped_colors@);
        if grouped_colors.len() == 0 {
            proof {
                assert(s@.take(0) =~= s@);
            }
            return (0, Color { r: 0, g: 0, b: 0 });
        }
        let mut total: u64 = 0;
        let mut wr: u64 = 0;
        let mut wg: u64 = 0;
        let mut wb: u64 = 0;
        let mut k: usize = 0;
        proof {
            assert(s@.take(0) =~= Seq::<(u32, Color)>::empty());
        }
        while k < grouped_colors.len()
            invariant
                0 <= k <= s@.len(),
                s@ == grouped_colors@,
                sum_counts(s@) <= u32::MAX,
                forall|i: int| 0 <= i < s@.len() ==> (#[trigger] s@[i]).0 >= 1,
                total == sum_counts(s@.take(k as int)),
                wr == sum_weighted_r(s@.take(k as int)),
                wg == sum_weighted_g(s@.take(k as int)),
                wb == sum_weighted_b(s@.take(k as int)),
                wr <= 255 * total && wg <= 255 * total && wb <= 255 * total,
                k <= total,
            decreases s@.len() - k,
        {
            let (cnt, col) = grouped_colors[k];
            proof {
                assert((grouped_colors@[k as int]).0 >= 1);
                lemma_sums_take_step(s@, k as int);
                lemma_sum_counts_split(s@, k as int + 1);
                lemma_sums_nonneg(s@.skip(k as int + 1));
                assert(cnt * col.r <= cnt * 255 && cnt * col.g <= cnt * 255 && cnt * col.b <= cnt
                    * 255 && 0 <= cnt * col.r && 0 <= cnt * col.g && 0 <= cnt * col.b)
                    by (nonlinear_arith)
                    requires
                        0 <= cnt,
                        0 <= col.r <= 255,
                        0 <= col.g <= 255,
                        0 <= col.b <= 255,
                ;
            }
            total = total + cnt as u64;
            wr = wr + (cnt as u64) * (col.r as u64);
            wg = wg + (cnt as u64) * (col.g as u64);
            wb = wb + (cnt as u64) * (col.b as u64);
            k = k + 1;
        }
        proof {
            assert(s@.take(s@.len() as int) =~= s@);
            assert(grouped_colors@[0].0 >= 1);
            lemma_sum_counts_entry(s@, 0);
            vstd::arithmetic::div_mod::lemma_div_is_ordered(
                wr as int,
                255 * total as int,
                total as int,
            );
            vstd::arithmetic::div_mod::lemma_div_by_multiple(255, total as int);
            assert((255 * total as int) / total as int == 255) by (nonlinear_arith)
                requires
                    total >= 1,
            ;
            vstd::arithmetic::div_mod::lemma_div_is_ordered(
                wg as int,
                255 * total as int,
                total as int,
            );
            vstd::arithmetic::div_mod::lemma_div_is_ordered(
                wb as int,
                255 * total as int,
                total as int,
            );
            lemma_sums_nonneg(s@);
            vstd::arithmetic::div_mod::lemma_div_is_ordered(0, wr as int, total as int);
            vstd::arithmetic::div_mod::lemma_div_is_ordered(0, wg as int, total as int);
            vstd::arithmetic::div_mod::lemma_div_is_ordered(0, wb as int, total as int);
        }
        let mean_r = (wr / total) as u8;
        let mean_g = (wg / total) as u8;
        let mean_b = (wb / total) as u8;
        (total as u32, Color { r: mean_r, g: mean_g, b: mean_b })
    }

    /// Sorts a weighted-color list ascending by the (r, g, b) triple; equal
    /// triples keep their order.
    pub fn sort_by_rgb(&self, image_colors: Vec<(u32, Color)>) -> (r: Vec<(u32, Color)>)
        ensures
            r@ == sort_by_leq(image_colors@, leq_rgb()),
    {
        sort_weighted(image_colors, true)
    }

    /// Distributes a weighted-color list over the 27 buckets, keeping the
    /// input order inside each bucket.
    pub fn group_by_accuracy(&self, sorted_colors: Vec<(u32, Color)>) -> (groups: Vec<
        Vec<(u32, Color)>,
    >)
        ensures
            groups@.len() == 27,
            forall|b: int| 0 <= b < 27 ==> (#[trigger] groups@[b])@ == sorted_colors@.filter(
                bucket_pred(b),
            ),
    {
        let s = Ghost(sorted_colors@);
        let mut groups: Vec<Vec<(u32, Color)>> = Vec::new();
        let mut b: usize = 0;
        while b < 27
            invariant
                groups@.len() == b <= 27,
                s@ == sorted_colors@,
                forall|bb: int| 0 <= bb < b ==> (#[trigger] groups@[bb])@ == s@.filter(
                    bucket_pred(bb),
                ),
            decreases 27 - b,
        {
            let mut bucket: Vec<(u32, Color)> = Vec::new();
            let mut k: usize = 0;
            proof {
                assert(s@.take(0) =~= Seq::<(u32, Color)>::empty());
                lemma_filter_empty(bucket_pred(b as int));
            }
            while k < sorted_colors.len()
                invariant
                    0 <= k <= s@.len(),
                    s@ == sorted_colors@,
                    b < 27,
                    bucket@ == s@.take(k as int).filter(bucket_pred(b as int)),
                decreases s@.len() - k,
            {
                let e = sorted_colors[k];
                let eb = Self::bucket_of(&e.1);
                proof {
                    lemma_filter_take_step(s@, k as int, bucket_pred(b as int));
                }
                if eb == b {
                    bucket.push(e);
                }
                k = k + 1;
            }
            proof {
                assert(s@.take(s@.len() as int) =~= s@);
            }
            groups.push(bucket);
            b = b + 1;
        }
        groups
    }
}

/// What one run of the quantizer leaves behind, relative to the histogram
/// `h` of its pixel sample: the palette lists the ranked filtered bucket
/// means, each as (count, total count, color), and the dominant color is
/// the top-ranked entry.
pub open spec fn quantizer_result(hai: Haishoku, h: Seq<(u32, Color)>) -> bool {
    let cm = spec_colors_mean(h);
    &&& hai.palette@.len() == cm.len()
    &&& forall|i: int|
        0 <= i < cm.len() ==> (#[trigger] hai.palette@[i]) == (
        cm[i].0,
        sum_counts(cm) as u32,
        cm[i].1,
        )
    &&& hai.dominant == (if cm.len() == 0 {
        Option::<Color>::None
    } else {
        Some(sort_by_leq(cm, leq_weight_desc()).first().1)
    })
}

impl Haishoku {
    /// Builds the exact-color histogram of a pixel sample, ascending by
    /// (r, g, b) triple.
    #[verifier::rlimit(100)]
    pub fn count_colors(&self, pixels: &Vec<Color>) -> (hist: Vec<(u32, Color)>)
        requires
            pixels@.len() <= u32::MAX,
        ensures
            is_histogram_of(hist@, pixels@),
            sum_counts(hist@) == pixels@.len(),
    {
        let mut hist: Vec<(u32, Color)> = Vec::new();
        let mut k: usize = 0;
        proof {
            assert(pixels@.take(0) =~= Seq::<Color>::empty());
        }
        while k < pixels.len()
            invariant
                0 <= k <= pixels@.len() <= u32::MAX,
                is_histogram_of(hist@, pixels@.take(k as int)),
                sum_counts(hist@) == k,
            decreases pixels@.len() - k,
        {
            let p = pixels[k];
            let pk = rgb_key_exec(&p);
            let ghost taken = pixels@.take(k as int);
            let mut j: usize = 0;
            while j < hist.len() && rgb_key_exec(&hist[j].1) < pk
                invariant
                    0 <= j <= hist@.len(),
                    pk == rgb_key(p),
                    forall|m: int| 0 <= m < j ==> rgb_key((#[trigger] hist@[m]).1) < rgb_key(p),
                decreases hist@.len() - j,
            {
                j = j + 1;
            }
            let ghost h0 = hist@;
            proof {
                lemma_occ_le_len(taken, p);
                taken.lemma_filter_len(color_eq_pred(p));
                assert(pixels@.take(k as int + 1).drop_last() =~= taken);
            }
            if j < hist.len() && rgb_key_exec(&hist[j].1) == pk {
                proof {
                    lemma_rgb_key_injective(hist@[j as int].1, p);
                }
                let (cnt, c) = hist[j];
                proof {
                    assert(cnt == occ(taken, p));
                }
                hist.set(j, (cnt + 1, c));
                proof {
                    lemma_sum_counts_update(h0, j as int, ((cnt + 1) as u32, c));
                    assert forall|i: int| 0 <= i < hist@.len() implies (#[trigger] hist@[i]).0
                        == occ(pixels@.take(k as int + 1), hist@[i].1) by {
                        lemma_occ_take_step(pixels@, k as int, hist@[i].1);
                        if i != j {
                            assert(hist@[i] == h0[i]);
                            assert(rgb_key(h0[i].1) != rgb_key(p));
                        }
                    }
                    assert forall|c2: Color| #[trigger] pixels@.take(k as int + 1).contains(c2)
                        implies exists|i: int|
                        0 <= i < hist@.len() && (#[trigger] hist@[i]).1 == c2 by {
                        lemma_contains_drop_last(pixels@.take(k as int + 1), c2);
                        if c2 == p {
                            assert(hist@[j as int].1 == c2);
                        } else {
                            let i = choose|i: int| 0 <= i < h0.len() && h0[i].1 == c2;
                            assert(hist@[i].1 == c2);
                        }
                    }
                    assert forall|i: int| 0 <= i < hist@.len() implies pixels@.take(
                        k as int + 1,
                    ).contains((#[trigger] hist@[i]).1) by {
                        lemma_contains_drop_last(pixels@.take(k as int + 1), hist@[i].1);
                        if i != j {
                            assert(taken.contains(h0[i].1));
                        } else {
                            assert(pixels@.take(k as int + 1).last() == p);
                        }
                    }
                }
            } else {
                proof {
                    // p is new: no entry matches its key
                    assert forall|i: int| 0 <= i < h0.len() implies (#[trigger] h0[i]).1 != p by {
                        if i < j {
                            assert(rgb_key(h0[i].1) < rgb_key(p));
                        } else if j < h0.len() {
                            assert(rgb_key(h0[j as int].1) != rgb_key(p));
                            if i > j {
                                assert(rgb_key(h0[j as int].1) < rgb_key(h0[i].1));
                            }
                            assert(rgb_key(h0[i].1) > rgb_key(p));
                        }
                    }
                    assert(!taken.contains(p)) by {
                        if taken.contains(p) {
                            let i = choose|i: int| 0 <= i < h0.len() && h0[i].1 == p;
                        }
                    }
                    lemma_occ_zero(taken, p);
                }
                hist.insert(j, (1, p));
                proof {
                    h0.insert_ensures(j as int, (1u32, p));
                    lemma_sum_counts_insert(h0, j as int, (1u32, p));
                    assert forall|i: int| 0 <= i < hist@.len() implies (#[trigger] hist@[i]).0
                        == occ(pixels@.take(k as int + 1), hist@[i].1) by {
                        lemma_occ_take_step(pixels@, k as int, hist@[i].1);
                        if i < j {
                            assert(hist@[i] == h0[i]);
                        } else if i > j {
                            assert(hist@[i] == h0[i - 1]);
                        }
                    }
                    assert forall|i1: int, i2: int| 0 <= i1 < i2 < hist@.len() implies rgb_key(
                        (#[trigger] hist@[i1]).1,
                    ) < rgb_key((#[trigger] hist@[i2]).1) by {
                        if i1 == j {
                            assert(hist@[i2] == h0[i2 - 1]);
                            assert(rgb_key(h0[j as int].1) > rgb_key(p));
                            if i2 - 1 > j {
                                assert(rgb_key(h0[j as int].1) < rgb_key(h0[i2 - 1].1));
                            }
                        } else if i2 == j {
                            assert(hist@[i1] == h0[i1]);
                            assert(rgb_key(h0[i1].1) < rgb_key(p));
                        } else if i1 < j && i2 > j {
                            assert(hist@[i1] == h0[i1] && hist@[i2] == h0[i2 - 1]);
                            if i2 - 1 == i1 {
                                assert(rgb_key(h0[i1].1) < rgb_key(p));
                                assert(rgb_key(h0[i1].1) < rgb_key(p) < rgb_key(hist@[i2].1));
                            }
                        } else if i2 < j {
                            assert(hist@[i1] == h0[i1] && hist@[i2] == h0[i2]);
                        } else {
                            assert(hist@[i1] == h0[i1 - 1] && hist@[i2] == h0[i2 - 1]);
                        }
                    }
                    assert forall|c2: Color| #[trigger] pixels@.take(k as int + 1).contains(c2)
                        implies exists|i: int|
                        0 <= i < hist@.len() && (#[trigger] hist@[i]).1 == c2 by {
                        lemma_contains_drop_last(pixels@.take(k as int + 1), c2);
                        if c2 == p {
                            assert(hist@[j as int].1 == c2);
                        } else {
                            let i = choose|i: int| 0 <= i < h0.len() && h0[i].1 == c2;
                            if i < j {
                                assert(hist@[i].1 == c2);
                            } else {
                                assert(hist@[i + 1].1 == c2);
                            }
                        }
                    }
                    assert forall|i: int| 0 <= i < hist@.len() implies pixels@.take(
                        k as int + 1,
                    ).contains((#[trigger] hist@[i]).1) by {
                        lemma_contains_drop_last(pixels@.take(k as int + 1), hist@[i].1);
                        if i < j {
                            assert(taken.contains(h0[i].1));
                        } else if i > j {
                            assert(taken.contains(h0[i - 1].1));
                        } else {
                            assert(pixels@.take(k as int + 1).last() == p);
                        }
                    }
                }
            }
            k = k + 1;
        }
        proof {
            assert(pixels@.take(pixels@.len() as int) =~= pixels@);
        }
        hist
    }

    /// Keeps an entry of the ranked list only if its color is at Euclidean
    /// distance at least 30 from every entry kept before it.
    pub fn filter_similar_colors(&self, colors: Vec<(u32, Color)>) -> (r: Vec<(u32, Color)>)
        ensures
            r@ == spec_filter_similar(colors@, Seq::empty()),
    {
        let mut filtered: Vec<(u32, Color)> = Vec::new();
        let mut k: usize = 0;
        proof {
            assert(colors@.skip(0) =~= colors@);
        }
        while k < colors.len()
            invariant
                0 <= k <= colors@.len(),
                spec_filter_similar(colors@, Seq::empty()) == spec_filter_similar(
                    colors@.skip(k as int),
                    filtered@,
                ),
            decreases colors@.len() - k,
        {
            let (weight, color) = colors[k];
            let mut is_similar = false;
            let mut m: usize = 0;
            while m < filtered.len() && !is_similar
                invariant
                    0 <= m <= filtered@.len(),
                    !is_similar ==> forall|i: int| 0 <= i < m ==> spec_dist2(
                        (#[trigger] filtered@[i]).1,
                        color,
                    ) >= 900,
                    is_similar ==> !far_from_all(filtered@, color),
                decreases filtered@.len() - m,
            {
                proof {
                    lemma_dist2_symm(color, filtered@[m as int].1);
                }
                if self.color_distance_squared(&color, &filtered[m].1) < 900 {
                    is_similar = true;
                }
                m = m + 1;
            }
            proof {
                let rest = colors@.skip(k as int);
                assert(rest.first() == colors@[k as int]);
                assert(rest.drop_first() =~= colors@.skip(k as int + 1));
                if !is_similar {
                    assert(far_from_all(filtered@, color));
                } else {
                    assert(!far_from_all(filtered@, color));
                }
            }
            if !is_similar {
                filtered.push((weight, color));
            }
            k = k + 1;
        }
        proof {
            assert(colors@.skip(colors@.len() as int) =~= Seq::<(u32, Color)>::empty());
        }
        filtered
    }

    /// The whole ranking stage: bucket the histogram, average each bucket,
    /// rank descending by weight, keep at most 8, drop near-duplicates.
    pub fn get_colors_mean(&self, image_colors: Vec<(u32, Color)>) -> (r: Vec<(u32, Color)>)
        requires
            sum_counts(image_colors@) <= u32::MAX,
            forall|i: int| 0 <= i < image_colors@.len() ==> (#[trigger] image_colors@[i]).0 >= 1,
        ensures
            r@ == spec_colors_mean(image_colors@),
    {
        let ghost orig = image_colors@;
        let sorted_image_colors = self.sort_by_rgb(image_colors);
        let ghost sorted_v = sorted_image_colors@;
        proof {
            lemma_sort_sum(orig, leq_rgb());
            assert forall|i: int| 0 <= i < sorted_v.len() implies (#[trigger] sorted_v[i]).0
                >= 1 by {
                lemma_sort_contains(orig, leq_rgb(), sorted_v[i]);
                assert(sorted_v.contains(sorted_v[i]));
                let j = choose|j: int| 0 <= j < orig.len() && orig[j] == sorted_v[i];
            }
        }
        let ghost summ = summaries_raw(sorted_v);
        let mut grouped = self.group_by_accuracy(sorted_image_colors);
        let mut colors_mean: Vec<(u32, Color)> = Vec::new();
        let mut b: usize = 0;
        proof {
            assert(summ.take(0) =~= Seq::<(u32, Color)>::empty());
            lemma_filter_empty(pos_weight_pred());
        }
        while b < 27
            invariant
                0 <= b <= 27,
                grouped@.len() == 27 - b,
                summ == summaries_raw(sorted_v),
                sum_counts(sorted_v) <= u32::MAX,
                forall|i: int| 0 <= i < sorted_v.len() ==> (#[trigger] sorted_v[i]).0 >= 1,
                forall|bb: int| 0 <= bb < 27 - b ==> (#[trigger] grouped@[bb])@ == sorted_v.filter(
                    bucket_pred(bb + b),
                ),
                colors_mean@ == summ.take(b as int).filter(pos_weight_pred()),
            decreases 27 - b,
        {
            let ghost bpred = bucket_pred(b as int);
            let ghost g0 = grouped@;
            let bucket = grouped.remove(0);
            proof {
                g0.remove_ensures(0);
                assert(bucket@ == sorted_v.filter(bpred));
                lemma_sum_counts_filter_le(sorted_v, bpred);
                assert forall|i: int| 0 <= i < bucket@.len() implies (#[trigger] bucket@[i]).0
                    >= 1 by {
                    sorted_v.lemma_filter_contains_rev(bpred, bucket@[i]);
                    assert(bucket@.contains(bucket@[i]));
                    assert(sorted_v.contains(bucket@[i]));
                    let j = choose|j: int| 0 <= j < sorted_v.len() && sorted_v[j] == bucket@[i];
                }
                assert forall|bb: int| 0 <= bb < 27 - (b + 1) implies (#[trigger] grouped@[bb])@
                    == sorted_v.filter(bucket_pred(bb + b + 1)) by {
                    assert(grouped@[bb] == g0[bb + 1]);
                }
            }
            let wm = self.get_weighted_mean(bucket);
            proof {
                assert(summ[b as int] == spec_weighted_mean(sorted_v.filter(bpred)));
                assert(wm == summ[b as int]);
                lemma_filter_take_step(summ, b as int, pos_weight_pred());
            }
            if wm.0 > 0 {
                colors_mean.push(wm);
            }
            b = b + 1;
        }
        proof {
            assert(summ.take(27) =~= summ);
            assert(colors_mean@ == bucket_summaries(sorted_v));
        }
        let mut ranked = sort_weighted(colors_mean, false);
        let ghost ranked0 = ranked@;
        if ranked.len() > 8 {
            ranked.truncate(8);
        }
        proof {
            assert(ranked@ == spec_truncate8(ranked0)) by {
                if ranked0.len() > 8 {
                    assert(ranked@ == ranked0.subrange(0, 8));
                    assert(ranked0.subrange(0, 8) =~= ranked0.take(8));
                }
            }
        }
        self.filter_similar_colors(ranked)
    }
}

impl Haishoku {
    /// The single highest-weight entry of the ranked list, if any; ties go
    /// to the earlier entry.
    pub fn calculate_dominant(&self, colors_mean: &Vec<(u32, Color)>) -> (r: Option<Color>)
        ensures
            colors_mean@.len() == 0 ==> r is None,
            colors_mean@.len() > 0 ==> r == Some(
                sort_by_leq(colors_mean@, leq_weight_desc()).first().1,
            ),
    {
        if colors_mean.len() == 0 {
            return None;
        }
        let sorted_colors = sort_weighted(copy_weighted(colors_mean), false);
        proof {
            lemma_sort_len(colors_mean@, leq_weight_desc());
        }
        Some(sorted_colors[0].1)
    }

    /// Every entry's share of the total: (count, total count, color), the
    /// share being the exact rational count over total.
    pub fn calculate_palette(&self, colors_mean: &Vec<(u32, Color)>) -> (r: Vec<(u32, u32, Color)>)
        requires
            sum_counts(colors_mean@) <= u32::MAX,
        ensures
            r@.len() == colors_mean@.len(),
            forall|i: int| 0 <= i < r@.len() ==> (#[trigger] r@[i]) == (
                colors_mean@[i].0,
                sum_counts(colors_mean@) as u32,
                colors_mean@[i].1,
            ),
    {
        let s = Ghost(colors_mean@);
        let mut total: u64 = 0;
        let mut k: usize = 0;
        proof {
            assert(s@.take(0) =~= Seq::<(u32, Color)>::empty());
        }
        while k < colors_mean.len()
            invariant
                0 <= k <= s@.len(),
                s@ == colors_mean@,
                sum_counts(s@) <= u32::MAX,
                total == sum_counts(s@.take(k as int)),
            decreases s@.len() - k,
        {
            proof {
                lemma_sums_take_step(s@, k as int);
                lemma_sum_counts_split(s@, k as int + 1);
                lemma_sums_nonneg(s@.skip(k as int + 1));
            }
            total = total + colors_mean[k].0 as u64;
            k = k + 1;
        }
        proof {
            assert(s@.take(s@.len() as int) =~= s@);
            lemma_sums_nonneg(s@);
        }
        let count_sum = total as u32;
        let mut palette: Vec<(u32, u32, Color)> = Vec::new();
        let mut k: usize = 0;
        while k < colors_mean.len()
            invariant
                0 <= k <= s@.len(),
                s@ == colors_mean@,
                count_sum == sum_counts(s@) as u32,
                palette@.len() == k,
                forall|i: int| 0 <= i < k ==> (#[trigger] palette@[i]) == (
                    s@[i].0,
                    sum_counts(s@) as u32,
                    s@[i].1,
                ),
            decreases s@.len() - k,
        {
            let (count, color) = colors_mean[k];
            palette.push((count, count_sum, color));
            k = k + 1;
        }
        palette
    }

    /// Runs the whole quantizer on a pixel sample: histogram, bucket means,
    /// ranking, truncation to 8, near-duplicate filtering, shares and
    /// dominant color. An empty sample leaves an empty palette and no
    /// dominant color; a non-empty sample leaves 1 to 8 entries, descending
    /// by weight, pairwise at Euclidean distance at least 30.
    pub fn load_haishoku(&mut self, pixels: &Vec<Color>)
        requires
            pixels@.len() <= u32::MAX,
        ensures
            exists|h: Seq<(u32, Color)>| #[trigger] is_histogram_of(h, pixels@)
                && quantizer_result(*final(self), h),
            pixels@.len() == 0 ==> final(self).palette@.len() == 0 && final(self).dominant is None,
            pixels@.len() > 0 ==> 1 <= final(self).palette@.len() <= 8 && final(self).dominant
                == Some(final(self).palette@[0].2),
            forall|i: int, j: int|
                0 <= i < j < final(self).palette@.len()
                    ==> (#[trigger] final(self).palette@[i]).0
                    >= (#[trigger] final(self).palette@[j]).0,
            forall|i: int, j: int|
                0 <= i < j < final(self).palette@.len() ==> spec_dist2(
                    (#[trigger] final(self).palette@[i]).2,
                    (#[trigger] final(self).palette@[j]).2,
                ) >= 900,
            forall|i: int|
                0 <= i < final(self).palette@.len()
                    ==> (#[trigger] final(self).palette@[i]).0 >= 1,
    {
        let hist = self.count_colors(pixels);
        let ghost h = hist@;
        proof {
            assert forall|i: int| 0 <= i < h.len() implies (#[trigger] h[i]).0 >= 1 by {
                lemma_occ_pos(pixels@, h[i].1);
            }
            lemma_colors_mean_properties(h);
        }
        let colors_mean = self.get_colors_mean(hist);
        proof {
            lemma_sums_nonneg(colors_mean@);
        }
        self.palette = self.calculate_palette(&colors_mean);
        self.dominant = self.calculate_dominant(&colors_mean);
        proof {
            let cm = spec_colors_mean(h);
            lemma_orders_total();
            lemma_sort_of_sorted(cm, leq_weight_desc());
            if pixels@.len() == 0 {
                assert(h.len() == 0) by {
                    if h.len() > 0 {
                        lemma_sum_counts_entry(h, 0);
                    }
                }
            }
            if pixels@.len() > 0 {
                assert(h.len() > 0) by {
                    if h.len() == 0 {
                        assert(sum_counts(h) == 0);
                    }
                }
            }
            assert(is_histogram_of(h, pixels@) && quantizer_result(*self, h));
            assert forall|i: int, j: int| 0 <= i < j < cm.len() implies (#[trigger] cm[i]).0 >= (
            #[trigger] cm[j]).0 by {
                assert(leq_weight_desc()(cm[i], cm[j]));
            }
            assert(self.palette@.len() == cm.len());
            if pixels@.len() > 0 {
                assert(cm.len() >= 1);
                assert(cm.len() <= 8);
                assert(self.dominant == Some(cm.first().1));
                assert(self.palette@[0] == (cm[0].0, sum_counts(cm) as u32, cm[0].1));
                assert(self.palette@[0].2 == cm.first().1);
            }
        }
    }
}

/// Copies a weighted-color list.
fn copy_weighted(v: &Vec<(u32, Color)>) -> (r: Vec<(u32, Color)>)
    ensures
        r@ == v@,
{
    let mut out: Vec<(u32, Color)> = Vec::new();
    let mut k: usize = 0;
    proof {
        assert(v@.take(0) =~= Seq::<(u32, Color)>::empty());
    }
    while k < v.len()
        invariant
            0 <= k <= v@.len(),
            out@ == v@.take(k as int),
        decreases v@.len() - k,
    {
        out.push(v[k]);
        proof {
            assert(v@.take(k as int + 1) =~= v@.take(k as int).push(v@[k as int]));
        }
        k = k + 1;
    }
    proof {
        assert(v@.take(v@.len() as int) =~= v@);
    }
    out
}

/// The empty sequence filters to the empty sequence.
pub proof fn lemma_filter_empty(pred: spec_fn((u32, Color)) -> bool)
    ensures
        Seq::<(u32, Color)>::empty().filter(pred) =~= Seq::<(u32, Color)>::empty(),
{
    reveal(Seq::filter);
}

/// Filtering one element more extends the filtered prefix by that element
/// exactly when it satisfies the predicate.
pub proof fn lemma_filter_take_step(s: Seq<(u32, Color)>, k: int, pred: spec_fn((u32, Color)) -> bool)
    requires
        0 <= k < s.len(),
    ensures
        s.take(k + 1).filter(pred) == if pred(s[k]) {
            s.take(k).filter(pred).push(s[k])
        } else {
            s.take(k).filter(pred)
        },
{
    reveal(Seq::filter);
    assert(s.take(k + 1).drop_last() =~= s.take(k));
    assert(s.take(k + 1).last() == s[k]);
    assert(s.take(k + 1).len() == k + 1);
}

/// The absolute difference of two integers.
pub open spec fn abs_diff(a: int, b: int) -> int {
    if a >= b {
        a - b
    } else {
        b - a
    }
}

/// Stable insertion sort of a weighted-color list: ascending by (r, g, b)
/// triple when `by_rgb` is set, descending by weight otherwise.
fn sort_weighted(v: Vec<(u32, Color)>, by_rgb: bool) -> (r: Vec<(u32, Color)>)
    ensures
        by_rgb ==> r@ == sort_by_leq(v@, leq_rgb()),
        !by_rgb ==> r@ == sort_by_leq(v@, leq_weight_desc()),
{
    let ghost leq = if by_rgb {
        leq_rgb()
    } else {
        leq_weight_desc()
    };
    let mut out: Vec<(u32, Color)> = Vec::new();
    let mut k: usize = 0;
    proof {
        assert(v@.take(0) =~= Seq::<(u32, Color)>::empty());
    }
    while k < v.len()
        invariant
            0 <= k <= v@.len(),
            leq == if by_rgb {
                leq_rgb()
            } else {
                leq_weight_desc()
            },
            out@ == sort_by_leq(v@.take(k as int), leq),
        decreases v@.len() - k,
    {
        let e = v[k];
        proof {
            lemma_sort_len(v@.take(k as int), leq);
        }
        let mut j: usize = out.len();
        while j > 0 && must_go_left(&out[j - 1], &e, by_rgb)
            invariant
                0 <= j <= out@.len(),
                leq == if by_rgb {
                    leq_rgb()
                } else {
                    leq_weight_desc()
                },
                forall|m: int| j <= m < out@.len() ==> !#[trigger] leq(out@[m], e),
            decreases j,
        {
            j = j - 1;
        }
        let ghost out0 = out@;
        out.insert(j, e);
        proof {
            lemma_insert_sorted_at(out0, e, leq, j as int);
            lemma_sort_step(v@, k as int, leq);
        }
        k = k + 1;
    }
    proof {
        assert(v@.take(v@.len() as int) =~= v@);
    }
    out
}

/// Whether the insertion scan must keep moving left: the element before
/// the scan position does not sort at-or-before the new element.
fn must_go_left(prev: &(u32, Color), e: &(u32, Color), by_rgb: bool) -> (r: bool)
    ensures
        by_rgb ==> r == !leq_rgb()(*prev, *e),
        !by_rgb ==> r == !leq_weight_desc()(*prev, *e),
{
    if by_rgb {
        rgb_key_exec(&prev.1) > rgb_key_exec(&e.1)
    } else {
        prev.0 < e.0
    }
}

/// The (r, g, b) order key as a machine integer.
fn rgb_key_exec(c: &Color) -> (k: u32)
    ensures
        k == rgb_key(*c),
{
    (c.r as u32) * 65536 + (c.g as u32) * 256 + (c.b as u32)
}

} // verus!
