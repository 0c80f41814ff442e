//! The palette adjuster: luminance sort, replication to 16 slots, the
//! light/dark tonal transforms with their fixed background/foreground/cursor
//! slots, and the optional global saturation pass.

use vstd::prelude::*;
use vstd::string::StringExecFns;
use crate::color::{Color, spec_yiq, spec_darken, spec_lighten, spec_saturate};
use crate::haishoku::{Haishoku, is_histogram_of, quantizer_result, spec_colors_mean, sum_counts};
use crate::sorting::{sort_by_leq, lemma_sort_len, lemma_insert_sorted_at, lemma_sort_step};

verus! {

/// The ascending YIQ-luminance order on colors (darkest first).
pub open spec fn leq_yiq() -> spec_fn(Color, Color) -> bool {
    |a: Color, b: Color| spec_yiq(a) <= spec_yiq(b)
}

/// The colors of a ranked weighted list, weights dropped.
pub open spec fn cm_colors(cm: Seq<(u32, Color)>) -> Seq<Color> {
    cm.map_values(|e: (u32, Color)| e.1)
}

/// A non-empty list replicated end-to-end and cut to exactly 16 entries.
pub open spec fn spec_replicate16(s: Seq<Color>) -> Seq<Color> {
    Seq::new(16, |i: int| s[i % s.len() as int])
}

/// The dark-mode slot derivation over a 16-entry palette.
pub open spec fn spec_dark_adjust(s: Seq<Color>) -> Seq<Color> {
    let s0 = s.update(0, spec_darken(s[0], 800));
    let s7 = s0.update(7, spec_lighten(s0[0], 750));
    let s8 = s7.update(8, spec_lighten(s0[0], 250));
    s8.update(15, s7[7])
}

/// The light-mode slot derivation over a 16-entry palette: every slot
/// re-saturated and darkened, then the fixed slots derived from slot 0.
pub open spec fn spec_light_adjust(s: Seq<Color>) -> Seq<Color> {
    let m = s.map_values(|c: Color| spec_darken(spec_saturate(c, 600), 500));
    let s0 = m.update(0, spec_lighten(m[0], 950));
    let s7 = s0.update(7, spec_darken(s0[0], 750));
    let s8 = s7.update(8, spec_darken(s0[0], 250));
    s8.update(15, s7[7])
}

pub open spec fn spec_generic_adjust(s: Seq<Color>, light: bool) -> Seq<Color> {
    if light {
        spec_light_adjust(s)
    } else {
        spec_dark_adjust(s)
    }
}

/// The whole adjustment of a non-empty color list: sort ascending by YIQ,
/// replicate to 16, brighten slot 0, then the light/dark derivation.
pub open spec fn spec_adjust(s: Seq<Color>, light: bool) -> Seq<Color> {
    let sorted = sort_by_leq(s, leq_yiq());
    let raw = spec_replicate16(sorted);
    let lit = raw.update(0, spec_lighten(raw[0], 400));
    spec_generic_adjust(lit, light)
}

/// The optional saturation pass: for a factor in (0, 1000] permille, every
/// slot except 0, 7, 8 and 15 is re-saturated; other factors change nothing.
pub open spec fn spec_saturate_pass(s: Seq<Color>, amount: u32) -> Seq<Color> {
    if 1 <= amount <= 1000 {
        Seq::new(
            s.len(),
            |i: int|
                if i == 0 || i == 7 || i == 8 || i == 15 {
                    s[i]
                } else {
                    spec_saturate(s[i], amount)
                },
        )
    } else {
        s
    }
}

/// The adjuster end to end: adjustment, then the saturation pass unless the
/// factor is exactly 1 (1000 permille).
pub open spec fn spec_generate(s: Seq<Color>, saturation: u32, light: bool) -> Seq<Color> {
    let adjusted = spec_adjust(s, light);
    if saturation != 1000 {
        spec_saturate_pass(adjusted, saturation)
    } else {
        adjusted
    }
}

/// The adjusted palette always has exactly 16 slots, and slot 15 always
/// equals slot 7.
pub proof fn lemma_generate_slots(s: Seq<Color>, saturation: u32, light: bool)
    requires
        s.len() >= 1,
    ensures
        spec_generate(s, saturation, light).len() == 16,
        spec_generate(s, saturation, light)[15] == spec_generate(s, saturation, light)[7],
{
    lemma_sort_len(s, leq_yiq());
}

/// The palette adjuster's only failure: an empty quantized color list.
#[derive(Debug, Clone, Copy, PartialEq, Eq, Structural)]
pub enum PaletteError {
    NoColors,
}

impl PaletteError {
    /// The error text the pipeline reports for an empty pixel sample.
    pub fn message(&self) -> (s: String)
        ensures
            s@ == "No colors found in image"@,
    {
        String::from_str("No colors found in image")
    }
}

/// The generator that ties the quantizer to the adjuster.
pub struct PywalGenerator {
    pub haishoku: Haishoku,
}

impl PywalGenerator {
    pub fn new() -> (g: Self)
        ensures
            g.haishoku.palette@.len() == 0,
            g.haishoku.dominant is None,
    {
        PywalGenerator { haishoku: Haishoku::new() }
    }

    /// Runs the quantizer and hands its ranked colors on.
    fn gen_colors(&mut self, pixels: &Vec<Color>) -> (cols: Vec<Color>)
        requires
            pixels@.len() <= u32::MAX,
        ensures
            exists|h: Seq<(u32, Color)>| #[trigger] is_histogram_of(h, pixels@)
                && quantizer_result(final(self).haishoku, h) && cols@ == cm_colors(
                spec_colors_mean(h),
            ),
            cols@.len() == 0 <==> pixels@.len() == 0,
            cols@.len() <= 8,
    {
        self.haishoku.load_haishoku(pixels);
        let ghost h = choose|h: Seq<(u32, Color)>|
            #[trigger] is_histogram_of(h, pixels@) && quantizer_result(self.haishoku, h);
        let mut cols: Vec<Color> = Vec::new();
        let mut k: usize = 0;
        let ghost pal = self.haishoku.palette@;
        while k < self.haishoku.palette.len()
            invariant
                0 <= k <= pal.len(),
                pal == self.haishoku.palette@,
                cols@.len() == k,
                forall|i: int| 0 <= i < k ==> cols@[i] == (#[trigger] pal[i]).2,
            decreases pal.len() - k,
        {
            let c = self.haishoku.palette[k].2;
            cols.push(c);
            k = k + 1;
        }
        proof {
            let cm = spec_colors_mean(h);
            assert forall|i: int| 0 <= i < cm.len() implies cols@[i] == cm_colors(cm)[i] by {
                assert(self.haishoku.palette@[i] == (cm[i].0, sum_counts(cm) as u32, cm[i].1));
            }
            assert(cols@ =~= cm_colors(cm));
        }
        cols
    }

    /// Sorts ascending by YIQ, replicates to 16 slots, brightens slot 0 and
    /// applies the light or dark derivation.
    fn adjust(&self, cols: Vec<Color>, light: bool) -> (r: Vec<Color>)
        requires
            cols@.len() >= 1,
        ensures
            r@ == spec_adjust(cols@, light),
    {
        let mut sorted: Vec<Color> = Vec::new();
        let mut k: usize = 0;
        proof {
            assert(cols@.take(0) =~= Seq::<Color>::empty());
        }
        while k < cols.len()
            invariant
                0 <= k <= cols@.len(),
                sorted@ == sort_by_leq(cols@.take(k as int), leq_yiq()),
            decreases cols@.len() - k,
        {
            let e = cols[k];
            proof {
                lemma_sort_len(cols@.take(k as int), leq_yiq());
            }
            let mut j: usize = sorted.len();
            while j > 0 && yiq_greater(&sorted[j - 1], &e)
                invariant
                    0 <= j <= sorted@.len(),
                    forall|m: int| j <= m < sorted@.len() ==> !#[trigger] leq_yiq()(sorted@[m], e),
                decreases j,
            {
                j = j - 1;
            }
            let ghost s0 = sorted@;
            sorted.insert(j, e);
            proof {
                lemma_insert_sorted_at(s0, e, leq_yiq(), j as int);
                lemma_sort_step(cols@, k as int, leq_yiq());
            }
            k = k + 1;
        }
        proof {
            assert(cols@.take(cols@.len() as int) =~= cols@);
            lemma_sort_len(cols@, leq_yiq());
        }
        let mut raw_colors: Vec<Color> = Vec::new();
        let mut i: usize = 0;
        while i < 16
            invariant
                0 <= i <= 16,
                sorted@ == sort_by_leq(cols@, leq_yiq()),
                sorted@.len() == cols@.len() >= 1,
                raw_colors@.len() == i,
                forall|m: int| 0 <= m < i ==> raw_colors@[m] == sorted@[m % sorted@.len() as int],
            decreases 16 - i,
        {
            raw_colors.push(sorted[i % sorted.len()]);
            i = i + 1;
        }
        let slot0 = raw_colors[0].lighten(400);
        let ghost raw0 = raw_colors@;
        raw_colors.set(0, slot0);
        proof {
            assert(raw0 =~= spec_replicate16(sort_by_leq(cols@, leq_yiq())));
        }
        self.generic_adjust(raw_colors, light)
    }

    /// The slot derivation: in dark mode slot 0 is darkened and slots 7, 8
    /// and 15 derived from it; in light mode every slot is first
    /// re-saturated and darkened, then slot 0 is lightened and slots 7, 8
    /// and 15 derived from it.
    fn generic_adjust(&self, colors: Vec<Color>, light: bool) -> (r: Vec<Color>)
        requires
            colors@.len() == 16,
        ensures
            r@ == spec_generic_adjust(colors@, light),
    {
        let ghost orig = colors@;
        let mut colors = colors;
        if light {
            let mut i: usize = 0;
            while i < colors.len()
                invariant
                    0 <= i <= 16,
                    colors@.len() == orig.len() == 16,
                    forall|m: int| 0 <= m < i ==> colors@[m] == spec_darken(
                        spec_saturate(#[trigger] orig[m], 600),
                        500,
                    ),
                    forall|m: int| i <= m < 16 ==> colors@[m] == orig[m],
                decreases 16 - i,
            {
                let c = colors[i].saturate(600).darken(500);
                colors.set(i, c);
                i = i + 1;
            }
            proof {
                assert(colors@ =~= orig.map_values(
                    |c: Color| spec_darken(spec_saturate(c, 600), 500),
                ));
            }
            let slot0 = colors[0].lighten(950);
            colors.set(0, slot0);
            let slot7 = colors[0].darken(750);
            colors.set(7, slot7);
            let slot8 = colors[0].darken(250);
            colors.set(8, slot8);
            let slot15 = colors[7];
            colors.set(15, slot15);
            proof {
                assert(colors@ =~= spec_light_adjust(orig));
            }
        } else {
            let slot0 = colors[0].darken(800);
            colors.set(0, slot0);
            let slot7 = colors[0].lighten(750);
            colors.set(7, slot7);
            let slot8 = colors[0].lighten(250);
            colors.set(8, slot8);
            let slot15 = colors[7];
            colors.set(15, slot15);
            proof {
                assert(colors@ =~= spec_dark_adjust(orig));
            }
        }
        colors
    }

    /// Re-saturates every slot except 0, 7, 8 and 15, when the factor lies
    /// in (0, 1000] permille; otherwise returns the palette unchanged.
    fn saturate_colors(&self, colors: Vec<Color>, amount: u32) -> (r: Vec<Color>)
        ensures
            r@ == spec_saturate_pass(colors@, amount),
    {
        let ghost orig = colors@;
        let mut colors = colors;
        if amount >= 1 && amount <= 1000 {
            let mut i: usize = 0;
            while i < colors.len()
                invariant
                    0 <= i <= orig.len(),
                    colors@.len() == orig.len(),
                    1 <= amount <= 1000,
                    forall|m: int| 0 <= m < i ==> colors@[m] == (if m == 0 || m == 7 || m == 8 || m
                        == 15 {
                        #[trigger] orig[m]
                    } else {
                        spec_saturate(orig[m], amount)
                    }),
                    forall|m: int| i <= m < orig.len() ==> colors@[m] == orig[m],
                decreases orig.len() - i,
            {
                if i != 0 && i != 7 && i != 8 && i != 15 {
                    let c = colors[i].saturate(amount);
                    colors.set(i, c);
                }
                i = i + 1;
            }
            proof {
                assert(colors@ =~= spec_saturate_pass(orig, amount));
            }
        }
        colors
    }

    /// The whole pipeline from a pixel sample to the 16-slot palette: the
    /// quantizer's ranked colors, adjusted and optionally re-saturated. An
    /// empty sample is the one error. A factor of exactly 1000 permille
    /// (1.0) skips the saturation pass.
    pub fn generate_from_pixels(
        &mut self,
        pixels: &Vec<Color>,
        saturation_factor: u32,
        light: bool,
    ) -> (r: Result<Vec<Color>, PaletteError>)
        requires
            pixels@.len() <= u32::MAX,
        ensures
            r is Err <==> pixels@.len() == 0,
            r is Err ==> r->Err_0 == PaletteError::NoColors,
            r is Ok ==> (r->Ok_0)@.len() == 16 && (r->Ok_0)@[15] == (r->Ok_0)@[7],
            exists|h: Seq<(u32, Color)>| #[trigger] is_histogram_of(h, pixels@)
                && quantizer_result(final(self).haishoku, h) && (pixels@.len() > 0 ==> r is Ok
                && (r->Ok_0)@ == spec_generate(
                cm_colors(spec_colors_mean(h)),
                saturation_factor,
                light,
            )),
    {
        let cols = self.gen_colors(pixels);

        if cols.is_empty() {
            return Err(PaletteError::NoColors);
        }
        let ghost cols_v = cols@;

        let adjusted_colors = self.adjust(cols, light);

        proof {
            lemma_generate_slots(cols_v, saturation_factor, light);
        }
        if saturation_factor != 1000 {
            let adjusted_colors = self.saturate_colors(adjusted_colors, saturation_factor);
            Ok(adjusted_colors)
        } else {
            Ok(adjusted_colors)
        }
    }
}

/// Whether the insertion scan must keep moving left in the YIQ order.
fn yiq_greater(prev: &Color, e: &Color) -> (r: bool)
    ensures
        r == !leq_yiq()(*prev, *e),
{
    prev.to_yiq() > e.to_yiq()
}

} // verus!
