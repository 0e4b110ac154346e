use vnstat_dashboard::live::{get_live_speed, update_live_speed, LiveState};

#[test]
fn speeds_are_zero_before_the_first_measurement() {
    let state: Option<LiveState> = None;
    assert_eq!(get_live_speed(&state), (0, 0));
}

#[test]
fn the_last_measurement_is_reported() {
    let mut state: Option<LiveState> = None;
    update_live_speed(&mut state, 1_310_720, 460_800);
    assert_eq!(get_live_speed(&state), (1_310_720, 460_800));
    update_live_speed(&mut state, 7, 0);
    assert_eq!(get_live_speed(&state), (7, 0));
    assert_eq!(state, Some(LiveState { speed_rx: 7, speed_tx: 0 }));
}
