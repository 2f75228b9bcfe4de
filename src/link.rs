use vstd::prelude::*;

verus! {

/// MAVLink's code of the vehicle type "quadrotor".
pub const MAV_TYPE_QUADROTOR: u8 = 2;

/// MAVLink's code of the autopilot "ArduPilot".
pub const MAV_AUTOPILOT_ARDUPILOTMEGA: u8 = 3;

/// MAVLink's code of the system state "standby".
pub const MAV_STATE_STANDBY: u8 = 3;

/// The MAVLink protocol version that a heartbeat announces.
pub const MAVLINK_VERSION: u8 = 3;

/// The fields of a MAVLink HEARTBEAT message, the enumerations as their
/// MAVLink codes.
#[derive(Clone, Copy, Debug, PartialEq, Eq, Structural)]
pub struct Heartbeat {
    pub custom_mode: u32,
    pub mavtype: u8,
    pub autopilot: u8,
    pub base_mode: u8,
    pub system_status: u8,
    pub mavlink_version: u8,
}

/// The fields of a MAVLink REQUEST_DATA_STREAM message.
#[derive(Clone, Copy, Debug, PartialEq, Eq, Structural)]
pub struct RequestDataStream {
    pub target_system: u8,
    pub target_component: u8,
    pub req_stream_id: u8,
    pub req_message_rate: u16,
    pub start_stop: u8,
}

/// The keepalive that is sent on every tick: a standby quadrotor with an
/// ArduPilot autopilot, no mode flags set.
pub fn heartbeat_message() -> (r: Heartbeat)
    ensures
        r == (Heartbeat {
            custom_mode: 0,
            mavtype: MAV_TYPE_QUADROTOR,
            autopilot: MAV_AUTOPILOT_ARDUPILOTMEGA,
            base_mode: 0,
            system_status: MAV_STATE_STANDBY,
            mavlink_version: MAVLINK_VERSION,
        }),
{
    Heartbeat {
        custom_mode: 0,
        mavtype: MAV_TYPE_QUADROTOR,
        autopilot: MAV_AUTOPILOT_ARDUPILOTMEGA,
        base_mode: 0,
        system_status: MAV_STATE_STANDBY,
        mavlink_version: MAVLINK_VERSION,
    }
}

/// The request sent once at start: every stream of every system and
/// component, started at ten messages a second.
pub fn request_stream() -> (r: RequestDataStream)
    ensures
        r == (RequestDataStream {
            target_system: 0,
            target_component: 0,
            req_stream_id: 0,
            req_message_rate: 10,
            start_stop: 1,
        }),
{
    RequestDataStream {
        target_system: 0,
        target_component: 0,
        req_stream_id: 0,
        req_message_rate: 10,
        start_stop: 1,
    }
}

/// The options of a query: `pretty` asks for indented output.
#[derive(Clone, Copy, Debug, PartialEq, Eq, Structural)]
pub struct JsonConfiguration {
    pub pretty: Option<bool>,
}

impl JsonConfiguration {
    /// Whether the answer is to be indented: only where `pretty` is given
    /// and true.
    pub fn is_pretty(&self) -> (r: bool)
        ensures
            r == (self.pretty == Some(true)),
    {
        match self.pretty {
            Some(p) => p,
            None => false,
        }
    }
}

} // verus!
