//! Decisions behind the live-aircraft overlay: classifying a flight's
//! callsign into the airline it belongs to, and pacing the polling loop
//! that refreshes aircraft positions.

use vstd::prelude::*;

verus! {

/// The airlines the overlay tells apart.
#[derive(Clone, Copy, Debug, PartialEq, Eq, Structural)]
pub enum Airline {
    Spirit,
    American,
    Southwest,
    United,
    Delta,
    Other,
}

/// The airline a callsign maps to: three-letter ICAO prefixes of callsigns
/// longer than three bytes; anything else is `Other`.
pub open spec fn spec_airline_from_callsign(cs: Seq<u8>) -> Airline {
    if cs.len() > 3 {
        if cs[0] == 78 && cs[1] == 75 && cs[2] == 83 {
            Airline::Spirit
        } else if cs[0] == 65 && cs[1] == 65 && cs[2] == 76 {
            Airline::American
        } else if cs[0] == 83 && cs[1] == 87 && cs[2] == 65 {
            Airline::Southwest
        } else if cs[0] == 85 && cs[1] == 65 && cs[2] == 76 {
            Airline::United
        } else if cs[0] == 68 && cs[1] == 65 && cs[2] == 76 {
            Airline::Delta
        } else {
            Airline::Other
        }
    } else {
        Airline::Other
    }
}

/// Classifies a callsign by its three-letter prefix: NKS, AAL, SWA, UAL and
/// DAL name the known airlines; shorter callsigns and other prefixes are
/// `Other`.
pub fn airline_from_callsign(callsign: &[u8]) -> (a: Airline)
    ensures
        a == spec_airline_from_callsign(callsign@),
{
    if callsign.len() > 3 {
        let b0: u8 = callsign[0];
        let b1: u8 = callsign[1];
        let b2: u8 = callsign[2];
        if b0 == 78 && b1 == 75 && b2 == 83 {
            Airline::Spirit
        } else if b0 == 65 && b1 == 65 && b2 == 76 {
            Airline::American
        } else if b0 == 83 && b1 == 87 && b2 == 65 {
            Airline::Southwest
        } else if b0 == 85 && b1 == 65 && b2 == 76 {
            Airline::United
        } else if b0 == 68 && b1 == 65 && b2 == 76 {
            Airline::Delta
        } else {
            Airline::Other
        }
    } else {
        Airline::Other
    }
}

/// How long the position poller sleeps after a round that took
/// `elapsed_ms`: rounds are paced to one every five seconds, and a round
/// that ran longer than that is followed immediately.
pub fn poll_sleep_ms(elapsed_ms: u64) -> (sleep: u64)
    ensures
        elapsed_ms <= 5000 ==> sleep == 5000 - elapsed_ms,
        elapsed_ms > 5000 ==> sleep == 0,
        sleep <= 5000,
{
    if elapsed_ms <= 5000 {
        5000 - elapsed_ms
    } else {
        0
    }
}

} // verus!
