//! A device with a single register, which tells what the device is.
use vstd::prelude::*;

use crate::i2c_service;
use crate::i2c_service::BusEvent;

verus! {

/// The address of the device on the bus.
pub const SLAVE_ADDR: u8 = 0x5F;

/// The address of the register.
pub const WHOAMI_REG: u8 = 0x0F;

/// The value of the register.
pub const WHOAMI_VALUE: u8 = 0x42;

/// What is sent behind the value where the bus master reads on.
pub const FILL_VALUE: u8 = 0x00;

/// The value at an address: nothing is at any address but that of the register.
pub open spec fn register_value(reg: u8) -> u8 {
    if reg == WHOAMI_REG { WHOAMI_VALUE } else { 0x00 }
}

/// The value at an address.
pub fn read_register(reg: u8) -> (value: u8)
    ensures
        value == register_value(reg),
{
    if reg == WHOAMI_REG { WHOAMI_VALUE } else { 0x00 }
}

/// The address that the bus master points to after an event.
pub open spec fn pointed_after(current: u8, event: BusEvent, buffer: Seq<u8>) -> u8 {
    match event {
        BusEvent::Write { len } => if len > 0 { buffer[0] } else { current },
        BusEvent::WriteRead { len } => if len > 0 { buffer[0] } else { current },
        _ => current,
    }
}

/// Whether an event asks for an answer.
pub open spec fn wants_answer(event: BusEvent) -> bool {
    event is WriteRead || event is Read
}

/// The device.
pub struct WhoAmI {
    current_reg: u8,
}

impl WhoAmI {
    /// The address that the bus master points to.
    pub closed spec fn current(self) -> u8 {
        self.current_reg
    }

    /// The device at the start: the register is pointed to.
    pub fn new() -> (device: Self)
        ensures
            device.current() == WHOAMI_REG,
    {
        WhoAmI { current_reg: WHOAMI_REG }
    }

    /// The address that the bus master points to.
    pub fn current_reg(&self) -> (reg: u8)
        ensures
            reg == self.current(),
    {
        self.current_reg
    }

    /// Handles an event, with the bytes that came with it in `buffer`, and gives the byte to answer,
    /// where one is asked for.
    pub fn on_event(&mut self, event: BusEvent, buffer: &[u8]) -> (answer: Option<u8>)
        requires
            i2c_service::is_in_buffer(event, buffer@),
        ensures
            final(self).current() == pointed_after(old(self).current(), event, buffer@),
            answer == if wants_answer(event) {
                Some(register_value(final(self).current()))
            } else {
                None
            },
    {
        match event {
            BusEvent::WriteRead { len } => {
                if len > 0 {
                    self.current_reg = buffer[0];
                }
                Some(read_register(self.current_reg))
            },
            BusEvent::Write { len } => {
                if len > 0 {
                    self.current_reg = buffer[0];
                }
                None
            },
            BusEvent::Read => Some(read_register(self.current_reg)),
            BusEvent::GeneralCall { .. } => None,
            BusEvent::ResetRequested => None,
            BusEvent::Failed { .. } => None,
        }
    }
}

}
