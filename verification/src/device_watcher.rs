//! What Windows tells when disks come and go.

use vstd::prelude::*;

verus! {

/// The notification that a device interface has arrived.
pub const DEVICE_INTERFACE_ARRIVAL: i32 = 0;

/// The notification that a device interface was removed.
pub const DEVICE_INTERFACE_REMOVAL: i32 = 1;

#[derive(Debug, Clone, Copy, PartialEq, Eq, Structural)]
pub enum DeviceEvent {
    Added,
    Removed,
}

/// The event that a notification stands for.
pub open spec fn event_of(action: i32) -> Option<DeviceEvent> {
    if action == DEVICE_INTERFACE_ARRIVAL {
        Some(DeviceEvent::Added)
    } else if action == DEVICE_INTERFACE_REMOVAL {
        Some(DeviceEvent::Removed)
    } else {
        None
    }
}

/// The event that a notification stands for. Others than arrival and removal
/// stand for none.
pub fn device_event(action: i32) -> (e: Option<DeviceEvent>)
    ensures
        e == event_of(action),
{
    if action == DEVICE_INTERFACE_ARRIVAL {
        Some(DeviceEvent::Added)
    } else if action == DEVICE_INTERFACE_REMOVAL {
        Some(DeviceEvent::Removed)
    } else {
        None
    }
}

/// Only two notifications stand for events: 0 for a disk that has come, and 1
/// for one that has gone.
pub proof fn law_device_events(action: i32)
    ensures
        event_of(0) == Some(DeviceEvent::Added),
        event_of(1) == Some(DeviceEvent::Removed),
        action != 0 && action != 1 ==> event_of(action) is None,
{
}

} // verus!
