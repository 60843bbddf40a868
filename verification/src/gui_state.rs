use vstd::prelude::*;

verus! {

/// GATT service of the car's serial module.
pub const CAR_SERVICE: u128 = 0x0000ffe000001000800000805f9b34fb;

/// GATT characteristic that takes the motor byte.
pub const CAR_CHARACTERISTIC: u128 = 0x0000ffe100001000800000805f9b34fb;

/// Address of the car with the HC-08 module, as twelve hex digits.
pub const HC08_ADDRESS: &'static str = "A8108767732A";

/// Address of the default car, as twelve hex digits.
pub const DEFAULT_ADDRESS: &'static str = "01234567AA19";

/// What the control loop tells the panel. Motor powers travel as the bit
/// patterns of their `f32` values.
pub enum GuiEvent {
    Motors(u32, u32),
    Connected,
    Disconnected,
}

/// What the panel asks of the control loop: connect to the car at `address`
/// (twelve hex digits) through the given service and characteristic.
pub enum GuiCommand {
    Connect { address: &'static str, service: u128, characteristic: u128 },
}

/// The car as the panel draws it: the power of the left and right motors (as
/// `f32` bit patterns) and whether it is connected.
pub struct Car {
    pub sx: u32,
    pub dx: u32,
    pub connected: bool,
}

impl Default for Car {
    /// A car at rest (both powers `0.0`), not connected.
    fn default() -> (car: Car)
        ensures
            car.sx == 0,
            car.dx == 0,
            !car.connected,
    {
        Car { sx: 0, dx: 0, connected: false }
    }
}

impl Car {
    /// Applies one event: motor powers replace the old ones, and the
    /// connection events set or clear the connection flag.
    pub fn update(&mut self, ev: GuiEvent)
        ensures
            match ev {
                GuiEvent::Motors(sx, dx) => final(self).sx == sx && final(self).dx == dx
                    && final(self).connected == old(self).connected,
                GuiEvent::Connected => final(self).connected && final(self).sx == old(self).sx
                    && final(self).dx == old(self).dx,
                GuiEvent::Disconnected => !final(self).connected && final(self).sx == old(
                    self,
                ).sx && final(self).dx == old(self).dx,
            },
    {
        match ev {
            GuiEvent::Motors(sx, dx) => {
                self.sx = sx;
                self.dx = dx;
            },
            GuiEvent::Connected => {
                self.connected = true;
            },
            GuiEvent::Disconnected => {
                self.connected = false;
            },
        }
    }
}

/// The command that the panel's connect button sends: the HC-08 car or the
/// default one, both through the serial service and its first characteristic.
pub fn connect_command(use_hc_08: bool) -> (cmd: GuiCommand)
    ensures
        match cmd {
            GuiCommand::Connect { address, service, characteristic } => {
                &&& address@ == (if use_hc_08 {
                    HC08_ADDRESS
                } else {
                    DEFAULT_ADDRESS
                })@
                &&& service == CAR_SERVICE
                &&& characteristic == CAR_CHARACTERISTIC
            },
        },
{
    let address = if use_hc_08 {
        HC08_ADDRESS
    } else {
        DEFAULT_ADDRESS
    };
    GuiCommand::Connect { address, service: CAR_SERVICE, characteristic: CAR_CHARACTERISTIC }
}

} // verus!
