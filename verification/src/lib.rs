//! Verified core of a remote-controlled car: the framing that carries
//! messages to and from the remote station over datagrams, the byte that
//! drives the motors, the state of the control panel, the Bluetooth device
//! registry and connection policy, and the camera frame channel.

pub mod bluetooth;
pub mod camera;
pub mod delivery;
pub mod gui_state;
pub mod motor;
pub mod relay;
