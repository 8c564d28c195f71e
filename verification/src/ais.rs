//! Typed shapes of the upstream vessel-report feed.
//!
//! One frame of the feed carries an envelope (`Metadata`: vessel id, name,
//! position, wall-clock time) and a body that is either a position report or
//! a static-data report.  The first reply of a fresh connection is an
//! `AuthMessage`: either an explicit authentication error or an ordinary
//! frame, which means the handshake succeeded.

use vstd::prelude::*;

verus! {

/// Envelope fields shared by every frame, refreshed on every event.
/// `latitude` and `longitude` are in microdegrees.
pub struct Metadata {
    pub mmsi: u32,
    pub ship_name: String,
    pub latitude: i64,
    pub longitude: i64,
    pub time_utc: String,
}

/// Position-kind payload: course and speed are scaled integers
/// (tenths of a degree, tenths of a knot).
pub struct PositionReport {
    pub cog: u32,
    pub navigational_status: u32,
    pub sog: u32,
    pub true_heading: u32,
}

/// Static-kind payload: vessel type, destination and registry number.
pub struct ShipStaticData {
    pub ship_type: u32,
    pub destination: String,
    pub imo_number: u32,
}

/// Body of a frame; the kind named by `AisMessage::message_type` selects
/// which of the two payloads applies.
pub struct MessageData {
    pub position_report: Option<PositionReport>,
    pub ship_static_data: Option<ShipStaticData>,
}

/// One frame of the feed.
pub struct AisMessage {
    pub message_type: String,
    pub metadata: Metadata,
    pub message: MessageData,
}

/// Explicit rejection returned by the feed during the handshake.
pub struct AuthError {
    pub error: String,
}

/// First reply of a connection: a rejection, or any ordinary frame.
pub enum AuthMessage {
    AuthError(AuthError),
    Message(AisMessage),
}

/// Whether the first reply of a connection means the handshake succeeded.
pub fn auth_reply_ok(reply: &AuthMessage) -> (ok: bool)
    ensures
        ok == (reply is Message),
{
    match reply {
        AuthMessage::AuthError(_) => false,
        AuthMessage::Message(_) => true,
    }
}

} // verus!
