use flight_tracker::planes::{airline_from_callsign, poll_sleep_ms, Airline};

#[test]
fn callsign_prefixes_name_their_airlines() {
    assert_eq!(airline_from_callsign(b"NKS123"), Airline::Spirit);
    assert_eq!(airline_from_callsign(b"AAL42"), Airline::American);
    assert_eq!(airline_from_callsign(b"SWA1"), Airline::Southwest);
    assert_eq!(airline_from_callsign(b"UAL900"), Airline::United);
    assert_eq!(airline_from_callsign(b"DAL7"), Airline::Delta);
    assert_eq!(airline_from_callsign(b"BAW12"), Airline::Other);
}

#[test]
fn short_callsigns_are_other() {
    // A bare three-letter prefix is not enough: the match needs more than
    // three bytes.
    assert_eq!(airline_from_callsign(b"NKS"), Airline::Other);
    assert_eq!(airline_from_callsign(b""), Airline::Other);
}

#[test]
fn poll_pacing_fills_up_to_five_seconds() {
    assert_eq!(poll_sleep_ms(0), 5000);
    assert_eq!(poll_sleep_ms(1200), 3800);
    assert_eq!(poll_sleep_ms(5000), 0);
    assert_eq!(poll_sleep_ms(9000), 0);
}
