use vstd::prelude::*;

verus! {

/// Width of the attached display, in pixels.
pub const DISPLAY_WIDTH: u16 = 480;

/// Height of the attached display, in pixels.
pub const DISPLAY_HEIGHT: u16 = 272;

/// Fixed width of every spawned target's footprint, in pixels.
pub const TARGET_WIDTH: u16 = 50;

/// Fixed height of every spawned target's footprint, in pixels.
pub const TARGET_HEIGHT: u16 = 50;

/// Footprint of a seven-segment digit readout (score or countdown). The
/// score readout sits at the screen's top-left corner, the countdown readout
/// at the top-right corner; both are kept clear of targets.
pub const SS_DISPLAY_WIDTH: u16 = 60;

/// Height of a seven-segment digit readout, in pixels.
pub const SS_DISPLAY_HEIGHT: u16 = 20;

/// Neutral digit color (opaque black in ARGB1555).
pub const NEUTRAL: u16 = 0x8000;

/// Affirmative digit color for score gains (opaque green in ARGB1555).
pub const GREEN: u16 = 0x83E0;

/// Warning digit color for score losses (opaque red in ARGB1555).
pub const RED: u16 = 0xFC00;

/// Which picture a spawned target is drawn with.
#[derive(Clone, Copy, Debug, PartialEq, Eq, Structural)]
pub enum AssetId {
    /// A standard hostile target (rewards the score when hit).
    Hostile,
    /// The time-gated, higher-value hostile variant.
    Bonus,
    /// A friendly target (penalizes the score when hit).
    Friendly,
}

/// A display side effect requested by the engine. The engine never consumes
/// a result from the display, so each request is a plain value handed back
/// to the caller, to be performed in order.
#[derive(Clone, Copy, Debug, PartialEq, Eq, Structural)]
pub enum RenderRequest {
    /// Draw a target's picture with its top-left corner at `(x, y)`.
    DrawAsset { x: u16, y: u16, width: u16, height: u16, asset: AssetId },
    /// Clear the region a removed target occupied.
    ClearRegion { x: u16, y: u16, width: u16, height: u16 },
    /// Redraw the score readout with the given value and color.
    ScoreDigits { value: u16, color: u16 },
    /// Redraw the countdown readout with the given value and color.
    CountdownDigits { value: u16, color: u16 },
}

} // verus!
