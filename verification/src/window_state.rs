use vstd::prelude::*;

verus! {

/// A window stays open while it is open and Escape is not held down.
pub fn window_stays_open(open: bool, escape_down: bool) -> (stays: bool)
    ensures
        stays == (open && !escape_down),
{
    open && !escape_down
}

/// A window should close once it is closed or Escape is held down.
pub fn window_should_close(open: bool, escape_down: bool) -> (close: bool)
    ensures
        close == (!open || escape_down),
{
    !open || escape_down
}

/// The windowed drawing loop reports the frame rate every this many frames.
pub const WINDOW_REPORT_EVERY: u64 = 60;

/// The windowed drawing loop stops after this many presented frames.
pub const WINDOW_FRAME_LIMIT: u64 = 300;

/// The headless drawing loop runs this many frames.
pub const HEADLESS_FRAMES: u64 = 1000;

/// The headless drawing loop reports progress every this many frames.
pub const HEADLESS_REPORT_EVERY: u64 = 100;

/// What the windowed drawing loop does after trying to present a frame.
pub struct FrameStep {
    /// Frames presented so far.
    pub frames: u64,
    /// Whether to report the frame rate now.
    pub report: bool,
    /// Whether the loop ends here.
    pub stop: bool,
}

/// Decides the windowed loop's next step once a frame was presented (or not):
/// a failed presentation ends the loop; otherwise the frame is counted, the
/// rate is reported every `WINDOW_REPORT_EVERY` frames, and the loop ends at
/// `WINDOW_FRAME_LIMIT` frames.
pub fn after_present(frames: u64, presented: bool) -> (s: FrameStep)
    requires
        presented ==> frames < u64::MAX,
    ensures
        !presented ==> s.stop && !s.report && s.frames == frames,
        presented ==> s.frames == frames + 1 && s.report == ((frames + 1) % 60 == 0) && s.stop == (
        frames + 1 >= 300),
{
    if !presented {
        return FrameStep { frames, report: false, stop: true };
    }
    let counted = frames + 1;
    FrameStep {
        frames: counted,
        report: counted % WINDOW_REPORT_EVERY == 0,
        stop: counted >= WINDOW_FRAME_LIMIT,
    }
}

/// Whether the headless loop reports progress at frame `frame` (counted from 0).
pub fn headless_report_due(frame: u64) -> (due: bool)
    ensures
        due == (frame % 100 == 0),
{
    frame % HEADLESS_REPORT_EVERY == 0
}

/// For every window state, exactly one of "stays open" and "should close" holds.
pub proof fn lemma_close_is_not_open(open: bool, escape_down: bool)
    ensures
        (!open || escape_down) == !(open && !escape_down),
{
}

} // verus!
