use spacebuild::session::{Inbound, Reaction, Session};

#[test]
fn fresh_session_sends_player_state_once_when_idle() {
    let mut s: Session<f64> = Session::new();
    assert_eq!(s.on_inbound(Inbound::Empty), Reaction::EndTick { send_player: true });
    assert_eq!(s.on_inbound(Inbound::Empty), Reaction::EndTick { send_player: false });
}

#[test]
fn throttle_sends_player_state_in_that_tick_only() {
    let mut s: Session<f64> = Session::new();
    s.on_inbound(Inbound::Empty);
    assert_eq!(s.on_inbound(Inbound::ShipState { throttle_up: true }), Reaction::Steer);
    assert_eq!(s.on_inbound(Inbound::ShipState { throttle_up: false }), Reaction::Ignore);
    assert_eq!(s.on_inbound(Inbound::Empty), Reaction::EndTick { send_player: true });
    assert_eq!(s.on_inbound(Inbound::Empty), Reaction::EndTick { send_player: false });
}

#[test]
fn ping_records_its_sample_and_answers_pong() {
    let mut s: Session<f64> = Session::new();
    assert_eq!(s.on_inbound(Inbound::Ping { sample: Some(0.25) }), Reaction::Pong);
    assert_eq!(s.on_inbound(Inbound::Ping { sample: None }), Reaction::Pong);
    assert_eq!(s.lag.values(), &vec![0.25]);
}

#[test]
fn disconnect_stops_without_ending_the_tick() {
    let mut s: Session<f64> = Session::new();
    assert_eq!(s.on_inbound(Inbound::Disconnected), Reaction::Stop);
    assert!(!s.first_state_sent);
}

#[test]
fn thousand_and_one_pings_keep_a_thousand_samples() {
    let mut s: Session<f64> = Session::new();
    for i in 0..1001 {
        s.on_inbound(Inbound::Ping { sample: Some(i as f64) });
    }
    assert_eq!(s.lag.len(), 1000);
    assert_eq!(s.lag.values()[0], 1.0);
}
