//! Device identification the session supervisor enumerates with.
//!
//! The supervisor hands these fields to the USB protocol engine when it
//! builds the device. The class/subclass/protocol triple and the
//! interface-association flag mark the device as composite, which common
//! desktop operating systems require before they bind a virtual COM port
//! to the serial interface.

use vstd::prelude::*;
use crate::drain::MAX_PACKET_SIZE;

verus! {

/// Plain identification fields for enumeration. The device reports no
/// serial number.
pub struct DeviceConfig {
    /// Vendor id reported to the host.
    pub vendor_id: u16,
    /// Product id reported to the host.
    pub product_id: u16,
    /// Manufacturer string descriptor.
    pub manufacturer: &'static str,
    /// Product string descriptor.
    pub product: &'static str,
    /// Whether a serial-number string descriptor is reported.
    pub has_serial_number: bool,
    /// Maximum bus power draw, in milliamperes.
    pub max_power_ma: u16,
    /// Maximum packet size of the control endpoint.
    pub max_packet_size: u8,
    /// Device class code: miscellaneous, for a composite device.
    pub device_class: u8,
    /// Device subclass code: common class.
    pub device_sub_class: u8,
    /// Device protocol code: interface association descriptor.
    pub device_protocol: u8,
    /// Whether interface association descriptors group the interfaces.
    pub composite_with_iads: bool,
}

/// The identification the logger's session supervisor uses.
pub fn logger_device_config() -> (c: DeviceConfig)
    ensures
        c.vendor_id == 0xc0de,
        c.product_id == 0xcafe,
        c.manufacturer@ == "Embassy"@,
        c.product@ == "USB-serial logger"@,
        !c.has_serial_number,
        c.max_power_ma == 100,
        c.max_packet_size == MAX_PACKET_SIZE,
        c.device_class == 0xEF,
        c.device_sub_class == 0x02,
        c.device_protocol == 0x01,
        c.composite_with_iads,
{
    DeviceConfig {
        vendor_id: 0xc0de,
        product_id: 0xcafe,
        manufacturer: "Embassy",
        product: "USB-serial logger",
        has_serial_number: false,
        max_power_ma: 100,
        max_packet_size: MAX_PACKET_SIZE,
        device_class: 0xEF,
        device_sub_class: 0x02,
        device_protocol: 0x01,
        composite_with_iads: true,
    }
}

} // verus!
