use pixelsort::{Predicate, Threshold};

#[test]
fn increase_high_moves_the_upper_bound_only() {
    let mut t = Threshold { high: 100, low: 20 };
    t.increase_high();
    assert_eq!(t, Threshold { high: 101, low: 20 });
}

#[test]
fn decrease_high_moves_the_upper_bound_only() {
    let mut t = Threshold { high: 100, low: 20 };
    t.decrease_high();
    assert_eq!(t, Threshold { high: 99, low: 20 });
}

#[test]
fn increase_low_moves_the_lower_bound_only() {
    let mut t = Threshold { high: 100, low: 20 };
    t.increase_low();
    assert_eq!(t, Threshold { high: 100, low: 21 });
}

#[test]
fn decrease_low_moves_the_lower_bound_only() {
    let mut t = Threshold { high: 100, low: 20 };
    t.decrease_low();
    assert_eq!(t, Threshold { high: 100, low: 19 });
}

#[test]
fn increase_high_is_pinned_at_255() {
    let mut t = Threshold { high: 250, low: 0 };
    let mut seen = Vec::new();
    for _ in 0..300 {
        t.increase_high();
        seen.push(t.high);
    }
    assert_eq!(&seen[..6], &[251, 252, 253, 254, 255, 255]);
    assert!(seen[5..].iter().all(|&v| v == 255));
    assert_eq!(t.low, 0);
}

#[test]
fn increase_low_is_pinned_at_255() {
    let mut t = Threshold { high: 7, low: 254 };
    for _ in 0..10 {
        t.increase_low();
    }
    assert_eq!(t, Threshold { high: 7, low: 255 });
}

#[test]
fn decrease_low_is_pinned_at_0() {
    let mut t = Threshold { high: 255, low: 3 };
    let mut seen = Vec::new();
    for _ in 0..300 {
        t.decrease_low();
        seen.push(t.low);
    }
    assert_eq!(&seen[..4], &[2, 1, 0, 0]);
    assert!(seen[3..].iter().all(|&v| v == 0));
    assert_eq!(t.high, 255);
}

#[test]
fn decrease_high_is_pinned_at_0() {
    let mut t = Threshold { high: 1, low: 9 };
    for _ in 0..10 {
        t.decrease_high();
    }
    assert_eq!(t, Threshold { high: 0, low: 9 });
}

#[test]
fn bounds_may_cross() {
    let mut t = Threshold { high: 10, low: 10 };
    t.increase_low();
    assert_eq!(t, Threshold { high: 10, low: 11 });
    t.decrease_high();
    assert_eq!(t, Threshold { high: 9, low: 11 });
}

#[test]
fn window_admits_values_strictly_outside() {
    let t = Threshold { high: 250, low: 5 };
    assert!(t.admits(4));
    assert!(!t.admits(5));
    assert!(!t.admits(100));
    assert!(!t.admits(250));
    assert!(t.admits(251));
}

#[test]
fn full_window_admits_nothing() {
    let t = Threshold { high: 255, low: 0 };
    for v in 0..=255u8 {
        assert!(!t.admits(v));
    }
}

#[test]
fn crossed_window_admits_every_value() {
    let t = Threshold { high: 99, low: 100 };
    for v in 0..=255u8 {
        assert!(t.admits(v));
    }
}

#[test]
fn single_cutoff_admits_values_strictly_above() {
    let p = Predicate::Single(100);
    assert!(!p.admits(0));
    assert!(!p.admits(100));
    assert!(p.admits(101));
    assert!(p.admits(255));
    assert!(!Predicate::Single(255).admits(255));
}

#[test]
fn dual_predicate_is_its_window() {
    let p = Predicate::Dual(Threshold { high: 250, low: 5 });
    assert!(p.admits(0));
    assert!(!p.admits(5));
    assert!(!p.admits(250));
    assert!(p.admits(255));
}
