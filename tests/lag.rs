use spacebuild::lag::{catch_up, CatchUp, LagWindow, TrailMark, LAG_CAPACITY};

use TrailMark::{Absent, NotReached, Reached};

#[test]
fn catch_up_at_newest_interpolates_from_itself() {
    assert_eq!(catch_up(&vec![Reached, NotReached]), Some(CatchUp { slot: 0, newer: 0 }));
}

#[test]
fn catch_up_further_back_interpolates_from_the_newer_snapshot() {
    let trail = vec![NotReached, NotReached, Reached, Reached];
    assert_eq!(catch_up(&trail), Some(CatchUp { slot: 2, newer: 1 }));
}

#[test]
fn catch_up_stops_at_a_snapshot_without_the_body() {
    assert_eq!(catch_up(&vec![NotReached, Absent, Reached]), None);
    assert_eq!(catch_up(&vec![Absent]), None);
}

#[test]
fn catch_up_not_reached_anywhere() {
    assert_eq!(catch_up(&vec![NotReached, NotReached]), None);
    assert_eq!(catch_up(&vec![]), None);
}

#[test]
fn window_keeps_the_last_thousand_samples() {
    let mut w: LagWindow<f64> = LagWindow::new();
    for i in 0..1001 {
        w.record(i as f64);
    }
    assert_eq!(w.len(), LAG_CAPACITY);
    assert_eq!(w.values()[0], 1.0);
    assert_eq!(w.values()[999], 1000.0);
}

#[test]
fn window_below_capacity_keeps_everything() {
    let mut w: LagWindow<u32> = LagWindow::new();
    w.record(3);
    w.record(5);
    assert_eq!(w.values(), &vec![3, 5]);
}
