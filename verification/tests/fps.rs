use fluid_renderer::constants::{
    BACKGROUND_COLOR, DEFAULT_HEIGHT, DEFAULT_SCALE, DEFAULT_WIDTH, FRAME_TIME_60FPS_MICROS, WHITE_COLOR,
};
use fluid_renderer::window_state::{after_present, headless_report_due, window_should_close, window_stays_open};
use fluid_renderer::FpsCounter;

#[test]
fn new_counter_reports_every_sixty_frames() {
    let mut counter = FpsCounter::new();
    assert_eq!(counter.frame_count(), 0);
    assert_eq!(counter.report_interval(), 60);
    for n in 1..=120u64 {
        let report = counter.record_frame();
        assert_eq!(counter.frame_count(), n);
        assert_eq!(report.is_some(), n % 60 == 0);
    }
}

#[test]
fn custom_interval_counter() {
    let mut counter = FpsCounter::with_interval(3);
    assert_eq!(counter.report_interval(), 3);
    assert!(counter.record_frame().is_none());
    assert!(counter.record_frame().is_none());
    assert!(counter.record_frame().is_some());
    assert!(counter.record_frame().is_none());
    assert_eq!(counter.frame_count(), 4);
}

#[test]
fn default_counter_matches_new() {
    let counter = FpsCounter::default();
    assert_eq!(counter.frame_count(), 0);
    assert_eq!(counter.report_interval(), 60);
    let _ = counter.started_at();
}

#[test]
fn constants_have_their_values() {
    assert_eq!(BACKGROUND_COLOR, 0xFF000000);
    assert_eq!(WHITE_COLOR, 0xFFFFFFFF);
    assert_eq!(DEFAULT_WIDTH, 512);
    assert_eq!(DEFAULT_HEIGHT, 512);
    assert_eq!(DEFAULT_SCALE, 1);
    assert_eq!(FRAME_TIME_60FPS_MICROS, 16_666);
}

#[test]
fn window_state_decisions() {
    assert!(window_stays_open(true, false));
    assert!(!window_stays_open(true, true));
    assert!(!window_stays_open(false, false));
    assert!(window_should_close(false, false));
    assert!(window_should_close(true, true));
    assert!(!window_should_close(true, false));
    for open in [false, true] {
        for esc in [false, true] {
            assert_eq!(window_should_close(open, esc), !window_stays_open(open, esc));
        }
    }
}

#[test]
fn report_measures_from_previous_report() {
    let mut counter = FpsCounter::with_interval(2);
    let created = counter.started_at();
    assert!(counter.record_frame().is_none());
    let first = counter.record_frame().expect("second frame is reported");
    assert_eq!(first, created);
    assert!(counter.record_frame().is_none());
    let second = counter.record_frame().expect("fourth frame is reported");
    assert!(second >= first);
    assert_eq!(counter.started_at(), created);
}

#[test]
fn with_interval_sixty_behaves_as_new() {
    let mut a = FpsCounter::with_interval(60);
    let mut b = FpsCounter::new();
    for k in 1..=200u64 {
        assert_eq!(a.record_frame().is_some(), b.record_frame().is_some());
        assert_eq!(a.frame_count(), k);
        assert_eq!(b.frame_count(), k);
    }
}

#[test]
fn window_loop_schedule() {
    let s = after_present(5, false);
    assert!(s.stop && !s.report);
    assert_eq!(s.frames, 5);
    let s = after_present(58, true);
    assert_eq!(s.frames, 59);
    assert!(!s.report && !s.stop);
    let s = after_present(59, true);
    assert_eq!(s.frames, 60);
    assert!(s.report && !s.stop);
    let s = after_present(299, true);
    assert_eq!(s.frames, 300);
    assert!(s.report && s.stop);
    let mut frames = 0;
    let mut reports = 0;
    loop {
        let s = after_present(frames, true);
        frames = s.frames;
        if s.report {
            reports += 1;
        }
        if s.stop {
            break;
        }
    }
    assert_eq!(frames, 300);
    assert_eq!(reports, 5);
}

#[test]
fn headless_reports_every_hundred_frames() {
    assert!(headless_report_due(0));
    assert!(!headless_report_due(99));
    assert!(headless_report_due(100));
    assert_eq!((0..1000u64).filter(|&i| headless_report_due(i)).count(), 10);
}

#[test]
fn constants_reachable_through_utils() {
    assert_eq!(fluid_renderer::utils::constants::DEFAULT_WIDTH, 512);
}

#[test]
fn report_restarts_timing_from_given_reading() {
    let mut counter = FpsCounter::with_interval(2);
    let created = counter.started_at();
    let t1 = created + std::time::Duration::from_millis(10);
    let t2 = created + std::time::Duration::from_millis(20);
    let t3 = created + std::time::Duration::from_millis(30);
    let t4 = created + std::time::Duration::from_millis(40);
    assert_eq!(counter.record_frame_at(t1), None);
    assert_eq!(counter.record_frame_at(t2), Some(created));
    assert_eq!(counter.record_frame_at(t3), None);
    assert_eq!(counter.record_frame_at(t4), Some(t2));
    assert_eq!(counter.frame_count(), 4);
    assert_eq!(counter.started_at(), created);
}
