use chirp::congestion::delay_based::{
    pace, AgedDelay, DelayBasedController, InstantMs, Trend, INITIAL_CWND, MAX_CWND, MIN_CWND,
};

fn ms(t: u64) -> InstantMs {
    InstantMs::from_ticks(t)
}

#[test]
fn initial_state() {
    let cc = DelayBasedController::new();
    assert_eq!(cc.cwnd(), 64);
    assert_eq!(INITIAL_CWND, 64);
    assert_eq!(cc.base_delay_us(), None);
}

#[test]
fn loss_is_noop() {
    let mut cc = DelayBasedController::new();
    let before_cwnd = cc.cwnd();
    cc.on_loss(1);
    assert_eq!(cc.cwnd(), before_cwnd);
    cc.on_loss(1_000);
    assert_eq!(cc.cwnd(), 64);
    assert_eq!(cc.base_delay_us(), None);
}

#[test]
fn window_follows_the_trend() {
    let mut w = DelayBasedController::new();
    w.adjust(Trend::Stable, 44);
    assert_eq!(w.cwnd(), 65);
    w.adjust(Trend::Falling, 44);
    assert_eq!(w.cwnd(), 67);
    w.adjust(Trend::Rising, 46);
    assert_eq!(w.cwnd(), 46);
    w.adjust(Trend::Rising, 3);
    assert_eq!(w.cwnd(), MIN_CWND);
    w.tick_increase();
    assert_eq!(w.cwnd(), 9);
}

#[test]
fn window_never_grows_beyond_its_maximum() {
    let mut w = DelayBasedController::new();
    for _ in 0..5_000 {
        w.adjust(Trend::Falling, 0);
    }
    assert_eq!(w.cwnd(), MAX_CWND);
    w.tick_increase();
    assert_eq!(w.cwnd(), 4096);
}

#[test]
fn four_samples_are_enough() {
    let mut w = DelayBasedController::new();
    assert!(!w.on_delay_sample(1_000, ms(0)));
    assert_eq!(w.base_delay_us(), None);
    assert!(!w.on_delay_sample(900, ms(10)));
    assert_eq!(w.base_delay_us(), Some(900));
    assert!(!w.on_delay_sample(1_100, ms(20)));
    assert!(w.on_delay_sample(1_200, ms(35)));
    assert!(w.ordered());
    let (older, recent) = w.halves();
    assert_eq!(
        older,
        [
            AgedDelay { owd_us: 1_000, age_ms: 35 },
            AgedDelay { owd_us: 900, age_ms: 25 }
        ]
    );
    assert_eq!(
        recent,
        [
            AgedDelay { owd_us: 1_100, age_ms: 15 },
            AgedDelay { owd_us: 1_200, age_ms: 0 }
        ]
    );
}

#[test]
fn only_the_newest_samples_are_kept() {
    let mut w = DelayBasedController::new();
    for i in 0u64..100 {
        w.on_delay_sample(1_000 + i, ms(i));
    }
    let (older, recent) = w.halves();
    assert_eq!(older.len(), 32);
    assert_eq!(recent.len(), 32);
    assert_eq!(older[0], AgedDelay { owd_us: 1_036, age_ms: 63 });
    assert_eq!(recent[31], AgedDelay { owd_us: 1_099, age_ms: 0 });
    // The least delay is remembered beyond the samples.
    assert_eq!(w.base_delay_us(), Some(1_000));
}

#[test]
fn a_delay_of_zero_has_no_gradient() {
    let mut w = DelayBasedController::new();
    w.on_delay_sample(0, ms(0));
    w.on_delay_sample(5, ms(1));
    assert_eq!(w.base_delay_us(), None);
}

#[test]
fn a_clock_that_runs_back_is_noticed() {
    let mut w = DelayBasedController::new();
    w.on_delay_sample(10, ms(50));
    assert!(w.ordered());
    w.on_delay_sample(10, ms(40));
    assert!(!w.ordered());
}

#[test]
fn pacing_sleeps_off_a_millisecond() {
    assert_eq!(pace(0, 960), (960, None));
    assert_eq!(pace(960, 39), (999, None));
    assert_eq!(pace(960, 40), (0, Some(1_000)));
    assert_eq!(pace(999, 5_000), (0, Some(5_999)));
}
