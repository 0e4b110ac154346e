//! The transfer speeds last measured.

use vstd::prelude::*;

verus! {

/// Transfer speeds in bytes per second.
#[derive(Clone, Copy, PartialEq, Eq, Structural, Debug)]
pub struct LiveState {
    pub speed_rx: u64,
    pub speed_tx: u64,
}

/// The speeds to report: those last measured, or zero before the first
/// measurement.
pub open spec fn live_speed(state: Option<LiveState>) -> (u64, u64) {
    match state {
        Some(s) => (s.speed_rx, s.speed_tx),
        None => (0, 0),
    }
}

/// The speeds that were kept are those that are reported, and none are before
/// any were kept.
pub proof fn kept_speeds_are_reported(state: LiveState)
    ensures
        live_speed(Some(state)) == (state.speed_rx, state.speed_tx),
        live_speed(None) == (0u64, 0u64),
{
}

/// Keeps newly measured speeds.
pub fn update_live_speed(state: &mut Option<LiveState>, rx_speed: u64, tx_speed: u64)
    ensures
        *final(state) == Some(LiveState { speed_rx: rx_speed, speed_tx: tx_speed }),
        live_speed(*final(state)) == (rx_speed, tx_speed),
{
    *state = Some(LiveState { speed_rx: rx_speed, speed_tx: tx_speed });
}

/// The speeds to report.
pub fn get_live_speed(state: &Option<LiveState>) -> (r: (u64, u64))
    ensures
        r == live_speed(*state),
{
    match state {
        Some(s) => (s.speed_rx, s.speed_tx),
        None => (0, 0),
    }
}

} // verus!
