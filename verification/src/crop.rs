//! Crop insets as exact fractions of a frame, and the state machine that
//! turns a stream of per-frame detections into an applied crop.
use vstd::prelude::*;

verus! {

/// How much of a frame is padding on each side.
///
/// Each inset is a fraction of the frame: `left / width` and `right / width`
/// horizontally, `top / height` and `bottom / height` vertically. A detector
/// reports pixel counts together with the frame size, so the fractions are
/// exact.
#[derive(Clone, Copy, Debug)]
pub struct CropInsets {
    pub left: u64,
    pub right: u64,
    pub top: u64,
    pub bottom: u64,
    pub width: u64,
    pub height: u64,
}

/// The tolerance of `approximately_equals`, as a denominator: two fractions
/// are close when they differ by less than `1 / CLOSE_DENOMINATOR`.
pub const CLOSE_DENOMINATOR: u64 = 250;

/// `|a / b - c / d| < 1 / 250`, evaluated without division. A zero
/// denominator makes a fraction undefined, and an undefined fraction is
/// close to nothing.
pub open spec fn fractions_close(a: int, b: int, c: int, d: int) -> bool {
    &&& b > 0
    &&& d > 0
    &&& CLOSE_DENOMINATOR * abs_int(a * d - c * b) < b * d
}

pub open spec fn abs_int(x: int) -> int {
    if x < 0 {
        -x
    } else {
        x
    }
}

/// The insets with no padding at all.
pub open spec fn no_insets() -> CropInsets {
    CropInsets { left: 0, right: 0, top: 0, bottom: 0, width: 1, height: 1 }
}

impl CropInsets {
    /// Every side of `self` is within the tolerance of the same side of `other`.
    pub open spec fn close_to(self, other: CropInsets) -> bool {
        &&& fractions_close(self.left as int, self.width as int, other.left as int, other.width as int)
        &&& fractions_close(self.right as int, self.width as int, other.right as int, other.width as int)
        &&& fractions_close(self.top as int, self.height as int, other.top as int, other.height as int)
        &&& fractions_close(self.bottom as int, self.height as int, other.bottom as int, other.height as int)
    }

    /// Both denominators are positive, so every fraction is defined.
    pub open spec fn well_formed(self) -> bool {
        self.width > 0 && self.height > 0
    }

    /// The insets with no padding at all.
    pub fn none() -> (r: CropInsets)
        ensures
            r == no_insets(),
    {
        CropInsets { left: 0, right: 0, top: 0, bottom: 0, width: 1, height: 1 }
    }

    /// Whether every side of the two insets differs by less than 1/250 of the frame.
    pub fn approximately_equals(self, other: CropInsets) -> (r: bool)
        ensures
            r == self.close_to(other),
    {
        fraction_close(self.left, self.width, other.left, other.width)
            && fraction_close(self.right, self.width, other.right, other.width)
            && fraction_close(self.top, self.height, other.top, other.height)
            && fraction_close(self.bottom, self.height, other.bottom, other.height)
    }
}

impl Default for CropInsets {
    fn default() -> (r: CropInsets)
        ensures
            r == no_insets(),
    {
        CropInsets::none()
    }
}

/// For a positive `y`, `250 * x < y` exactly when `x <= (y - 1) / 250`.
proof fn lemma_scaled_below(x: int, y: int)
    requires
        x >= 0,
        y >= 1,
    ensures
        (CLOSE_DENOMINATOR * x < y) <==> (x <= (y - 1) / (CLOSE_DENOMINATOR as int)),
{
    let k = CLOSE_DENOMINATOR as int;
    let q = (y - 1) / k;
    let r = (y - 1) % k;
    vstd::arithmetic::div_mod::lemma_fundamental_div_mod(y - 1, k);
    assert(0 <= r < k);
    if x <= q {
        assert(k * x <= k * q) by (nonlinear_arith)
            requires
                x <= q,
                k > 0,
        ;
    } else {
        assert(k * x >= k * (q + 1)) by (nonlinear_arith)
            requires
                x >= q + 1,
                k > 0,
        ;
    }
}

/// The product of two `u64` values fits in a `u128`.
proof fn lemma_u64_product_fits(x: u64, y: u64)
    ensures
        (x as int) * (y as int) <= u128::MAX,
{
    assert((x as int) * (y as int) <= (u64::MAX as int) * (u64::MAX as int)) by (nonlinear_arith)
        requires
            0 <= x <= u64::MAX,
            0 <= y <= u64::MAX,
    ;
}

/// `fractions_close` on machine integers: the products fit in `u128`, and the
/// scaling by 250 is moved to the other side as a division so that it cannot
/// overflow.
fn fraction_close(a: u64, b: u64, c: u64, d: u64) -> (r: bool)
    ensures
        r == fractions_close(a as int, b as int, c as int, d as int),
{
    if b == 0 || d == 0 {
        return false;
    }
    proof {
        lemma_u64_product_fits(a, d);
        lemma_u64_product_fits(c, b);
        lemma_u64_product_fits(b, d);
    }
    let ad: u128 = (a as u128) * (d as u128);
    let cb: u128 = (c as u128) * (b as u128);
    let bd: u128 = (b as u128) * (d as u128);
    let diff: u128 = if ad >= cb {
        ad - cb
    } else {
        cb - ad
    };
    proof {
        assert(bd >= 1) by (nonlinear_arith)
            requires
                b >= 1,
                d >= 1,
                bd == b * d,
        ;
        assert(diff == abs_int(a * d - c * b));
        lemma_scaled_below(diff as int, bd as int);
    }
    diff <= (bd - 1) / (CLOSE_DENOMINATOR as u128)
}

/// How many consecutive, mutually close detections it takes before a crop is applied.
pub const REQUIRED_HITS: u8 = 3;

/// Debounces black-bar detections coming from a background frame callback.
///
/// A crop is applied only once the same insets (up to the tolerance of
/// `approximately_equals`) were seen in `REQUIRED_HITS` consecutive frames.
/// `generation` tells analyses of different sources apart: every reset moves
/// it on, and a detection made for an older generation is ignored, so frames
/// already in flight cannot restore a crop after the source changed or the
/// analysis was switched off.
#[derive(Debug)]
pub struct CropAnalysisState {
    pub enabled: bool,
    pub generation: u64,
    pub candidate: CropInsets,
    pub candidate_hits: u8,
    pub applied: CropInsets,
}

/// `x + 1`, wrapping to zero after `u64::MAX`.
pub open spec fn next_generation(x: u64) -> u64 {
    if x == u64::MAX {
        0
    } else {
        (x + 1) as u64
    }
}

/// `x + 1`, saturating at `u8::MAX`.
pub open spec fn saturating_increment(x: u8) -> u8 {
    if x == u8::MAX {
        x
    } else {
        (x + 1) as u8
    }
}

/// The state of a new analysis: switched off, generation zero, nothing seen.
pub open spec fn initial_analysis() -> CropAnalysisState {
    CropAnalysisState {
        enabled: false,
        generation: 0,
        candidate: no_insets(),
        candidate_hits: 0,
        applied: no_insets(),
    }
}

impl CropAnalysisState {
    /// Forget every detection and move to the next generation; whether the
    /// analysis is enabled stays as it was.
    pub open spec fn after_reset(self) -> CropAnalysisState {
        CropAnalysisState {
            enabled: self.enabled,
            generation: next_generation(self.generation),
            candidate: no_insets(),
            candidate_hits: 0,
            applied: no_insets(),
        }
    }

    /// Switch the analysis on or off; this also resets it.
    pub open spec fn after_set_enabled(self, enabled: bool) -> CropAnalysisState {
        CropAnalysisState { enabled, ..self }.after_reset()
    }

    /// Whether a detection made for `generation` is taken into account.
    pub open spec fn accepts(self, generation: u64) -> bool {
        self.enabled && generation == self.generation
    }

    /// The candidate and its hit count once `detected` has been counted.
    pub open spec fn counted(self, detected: CropInsets) -> (CropInsets, u8) {
        if self.candidate.close_to(detected) {
            (self.candidate, saturating_increment(self.candidate_hits))
        } else {
            (detected, 1)
        }
    }

    /// Whether recording `detected` for `generation` changes the applied crop.
    pub open spec fn record_applies(self, detected: CropInsets, generation: u64) -> bool {
        let (candidate, hits) = self.counted(detected);
        &&& self.accepts(generation)
        &&& hits >= REQUIRED_HITS
        &&& !self.applied.close_to(candidate)
    }

    /// The state after recording `detected` for `generation`.
    pub open spec fn after_record(self, detected: CropInsets, generation: u64) -> CropAnalysisState {
        if !self.accepts(generation) {
            self
        } else {
            let (candidate, hits) = self.counted(detected);
            CropAnalysisState {
                candidate,
                candidate_hits: hits,
                applied: if self.record_applies(detected, generation) {
                    candidate
                } else {
                    self.applied
                },
                ..self
            }
        }
    }

    /// The crop to show: the applied one while the analysis is enabled.
    pub open spec fn shown_crop(self) -> Option<CropInsets> {
        if self.enabled {
            Some(self.applied)
        } else {
            None
        }
    }

    /// Forget every detection and move to the next generation.
    pub fn reset(&mut self)
        ensures
            *final(self) == old(self).after_reset(),
    {
        let generation = self.generation.wrapping_add(1);
        *self = CropAnalysisState {
            enabled: self.enabled,
            generation,
            candidate: CropInsets::none(),
            candidate_hits: 0,
            applied: CropInsets::none(),
        };
    }

    /// Switch the analysis on or off, and reset it.
    pub fn set_enabled(&mut self, enabled: bool)
        ensures
            *final(self) == old(self).after_set_enabled(enabled),
    {
        self.enabled = enabled;
        self.reset();
    }

    /// Count one detection made for `generation`; returns whether the applied
    /// crop changed, that is whether the preview has to be laid out again.
    pub fn record(&mut self, detected_crop: CropInsets, generation: u64) -> (changed: bool)
        ensures
            changed == old(self).record_applies(detected_crop, generation),
            *final(self) == old(self).after_record(detected_crop, generation),
    {
        if !self.enabled || generation != self.generation {
            return false;
        }
        if self.candidate.approximately_equals(detected_crop) {
            self.candidate_hits = self.candidate_hits.saturating_add(1);
        } else {
            self.candidate = detected_crop;
            self.candidate_hits = 1;
        }
        if self.candidate_hits >= REQUIRED_HITS && !self.applied.approximately_equals(self.candidate) {
            self.applied = self.candidate;
            true
        } else {
            false
        }
    }

    /// The generation a frame arriving now is analysed for; `None` while the
    /// analysis is switched off, when frames are not analysed at all.
    pub fn frame_generation(&self) -> (r: Option<u64>)
        ensures
            r == (if self.enabled {
                Some(self.generation)
            } else {
                None::<u64>
            }),
    {
        if self.enabled {
            Some(self.generation)
        } else {
            None
        }
    }

    /// The applied crop while the analysis is enabled, `None` otherwise.
    pub fn applied_crop(&self) -> (r: Option<CropInsets>)
        ensures
            r == self.shown_crop(),
    {
        if self.enabled {
            Some(self.applied)
        } else {
            None
        }
    }
}

impl Default for CropAnalysisState {
    fn default() -> (r: CropAnalysisState)
        ensures
            r == initial_analysis(),
    {
        CropAnalysisState {
            enabled: false,
            generation: 0,
            candidate: CropInsets::none(),
            candidate_hits: 0,
            applied: CropInsets::none(),
        }
    }
}

/// Reset the shared crop analysis, as a change of source or of format does.
pub fn reset_crop_analysis(analysis: &mut CropAnalysisState)
    ensures
        *final(analysis) == old(analysis).after_reset(),
{
    analysis.reset();
}

/// Two insets are close when both frames are non-empty and, on every side,
/// their fractions differ by less than 1/250 of the frame:
/// `|a / b - c / d| < 1 / 250`, that is `-b·d < 250·(a·d - c·b) < b·d`.
pub proof fn lemma_close_means_within_a_250th(x: CropInsets, y: CropInsets)
    ensures
        x.close_to(y) <==> {
            let (xw, yw, xh, yh) = (x.width as int, y.width as int, x.height as int, y.height as int);
            &&& xw > 0 && yw > 0 && xh > 0 && yh > 0
            &&& -(xw * yw) < 250 * (x.left * yw - y.left * xw) < xw * yw
            &&& -(xw * yw) < 250 * (x.right * yw - y.right * xw) < xw * yw
            &&& -(xh * yh) < 250 * (x.top * yh - y.top * xh) < xh * yh
            &&& -(xh * yh) < 250 * (x.bottom * yh - y.bottom * xh) < xh * yh
        },
{
}

/// Closeness is reflexive on well-formed insets and symmetric on all insets.
pub proof fn lemma_close_reflexive_symmetric(a: CropInsets, b: CropInsets)
    ensures
        a.well_formed() ==> a.close_to(a),
        a.close_to(b) == b.close_to(a),
{
    if a.well_formed() {
        assert((a.width as int) * (a.width as int) > 0) by (nonlinear_arith)
            requires
                a.width > 0,
        ;
        assert((a.height as int) * (a.height as int) > 0) by (nonlinear_arith)
            requires
                a.height > 0,
        ;
    }
    assert((a.width as int) * (b.width as int) == (b.width as int) * (a.width as int)) by (nonlinear_arith);
    assert((a.height as int) * (b.height as int) == (b.height as int) * (a.height as int)) by (nonlinear_arith);
}

/// The crop on show is there exactly while the analysis is enabled; it
/// changes only when `record` reports a change, so a detection that three
/// consistent frames have not yet confirmed never reaches the screen; and
/// after a reset of an enabled analysis no insets are shown.
pub proof fn lemma_shown_crop_changes_only_when_reported(
    s: CropAnalysisState,
    detected: CropInsets,
    generation: u64,
)
    ensures
        (s.shown_crop() is Some) == s.enabled,
        !s.record_applies(detected, generation) ==> s.after_record(detected, generation).shown_crop()
            == s.shown_crop(),
        s.record_applies(detected, generation) ==> s.after_record(detected, generation).shown_crop()
            == Some(s.after_record(detected, generation).candidate),
        s.enabled ==> s.after_reset().shown_crop() == Some(no_insets()),
        !s.enabled ==> s.after_reset().shown_crop() is None,
{
}

/// A detection changes nothing unless the analysis is enabled and the
/// detection belongs to the current generation.
pub proof fn lemma_ignored_unless_accepted(s: CropAnalysisState, detected: CropInsets, generation: u64)
    requires
        !s.accepts(generation),
    ensures
        !s.record_applies(detected, generation),
        s.after_record(detected, generation) == s,
{
}

/// Recording never switches the analysis on or off and never changes its generation.
pub proof fn lemma_record_keeps_identity(s: CropAnalysisState, detected: CropInsets, generation: u64)
    ensures
        s.after_record(detected, generation).enabled == s.enabled,
        s.after_record(detected, generation).generation == s.generation,
{
}

/// The applied crop changes only when `record` reports it, and only to a
/// candidate that was seen in at least `REQUIRED_HITS` consecutive frames.
pub proof fn lemma_applied_only_after_required_hits(
    s: CropAnalysisState,
    detected: CropInsets,
    generation: u64,
)
    ensures
        ({
            let t = s.after_record(detected, generation);
            &&& s.record_applies(detected, generation) ==> {
                &&& t.candidate_hits >= REQUIRED_HITS
                &&& t.applied == t.candidate
                &&& !s.applied.close_to(t.applied)
            }
            &&& !s.record_applies(detected, generation) ==> t.applied == s.applied
        }),
{
}

/// A frame analysed for the generation that was current before a reset (a
/// change of source, or switching the analysis off and on) is discarded.
pub proof fn lemma_reset_discards_in_flight(s: CropAnalysisState, detected: CropInsets)
    ensures
        !s.after_reset().record_applies(detected, s.generation),
        s.after_reset().after_record(detected, s.generation) == s.after_reset(),
        s.after_set_enabled(true).after_record(detected, s.generation) == s.after_set_enabled(true),
{
}

/// While the analysis is switched off no crop is shown, whatever is recorded.
pub proof fn lemma_disabled_shows_no_crop(s: CropAnalysisState, detected: CropInsets, generation: u64)
    requires
        !s.enabled,
    ensures
        s.shown_crop() is None,
        s.after_record(detected, generation).shown_crop() is None,
        s.after_reset().shown_crop() is None,
        initial_analysis().shown_crop() is None,
        s.after_set_enabled(false).shown_crop() is None,
{
}

/// After a reset of an enabled analysis, the same well-formed insets recorded
/// in three consecutive frames are applied on the third frame and not before,
/// unless they are close to no insets at all.
pub proof fn lemma_three_consistent_detections_apply(s: CropAnalysisState, detected: CropInsets)
    requires
        s.enabled,
        detected.well_formed(),
        !no_insets().close_to(detected),
    ensures
        ({
            let r0 = s.after_reset();
            let g = r0.generation;
            let r1 = r0.after_record(detected, g);
            let r2 = r1.after_record(detected, g);
            let r3 = r2.after_record(detected, g);
            &&& !r0.record_applies(detected, g)
            &&& !r1.record_applies(detected, g)
            &&& r2.record_applies(detected, g)
            &&& r3.shown_crop() == Some(detected)
        }),
{
    lemma_close_reflexive_symmetric(detected, no_insets());
}

} // verus!
