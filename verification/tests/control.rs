use macchinine::camera::{frame_due, frame_receiver_after, init_frame_sender};
use macchinine::gui_state::{connect_command, Car, GuiCommand, GuiEvent, CAR_CHARACTERISTIC, CAR_SERVICE};
use macchinine::motor::pack_motor_levels;
use once_cell::sync::OnceCell;
use std::sync::mpsc::{channel, Sender};

#[test]
fn motor_levels_share_one_byte() {
    assert_eq!(pack_motor_levels(7, -7), 0x79);
    assert_eq!(pack_motor_levels(-1, -1), 0xFF);
    assert_eq!(pack_motor_levels(0, 0), 0);
    assert_eq!(pack_motor_levels(-8, 3), 0x83);
    assert_eq!(pack_motor_levels(127, -128), 0xF0);
}

#[test]
fn car_follows_events() {
    let mut car = Car::default();
    assert_eq!((car.sx, car.dx, car.connected), (0, 0, false));
    car.update(GuiEvent::Motors(0.5f32.to_bits(), (-1.0f32).to_bits()));
    assert_eq!(f32::from_bits(car.sx), 0.5);
    assert_eq!(f32::from_bits(car.dx), -1.0);
    car.update(GuiEvent::Connected);
    assert!(car.connected);
    assert_eq!(f32::from_bits(car.sx), 0.5);
    car.update(GuiEvent::Disconnected);
    assert!(!car.connected);
}

#[test]
fn connect_button_picks_the_car() {
    let GuiCommand::Connect { address, service, characteristic } = connect_command(true);
    assert_eq!(address, "A8108767732A");
    assert_eq!(service, CAR_SERVICE);
    assert_eq!(characteristic, CAR_CHARACTERISTIC);
    let GuiCommand::Connect { address, .. } = connect_command(false);
    assert_eq!(address, "01234567AA19");
}

#[test]
fn frame_sender_is_registered_once() {
    let cell: OnceCell<Sender<Vec<u8>>> = OnceCell::new();
    let receiver = init_frame_sender(&cell).expect("first registration");
    cell.get().unwrap().send(vec![1, 2, 3]).unwrap();
    assert_eq!(receiver.recv().unwrap(), vec![1, 2, 3]);
    assert!(init_frame_sender(&cell).is_none());
    cell.get().unwrap().send(vec![4]).unwrap();
    assert_eq!(receiver.recv().unwrap(), vec![4]);
}

#[test]
fn frames_are_spaced() {
    assert!(!frame_due(0));
    assert!(!frame_due(100));
    assert!(frame_due(101));
}

#[test]
fn receiver_comes_back_only_after_registration() {
    let (sender, receiver) = channel::<Vec<u8>>();
    let r = frame_receiver_after(Ok(()), receiver).expect("registered");
    sender.send(vec![7]).unwrap();
    assert_eq!(r.recv().unwrap(), vec![7]);
    let (sender2, receiver2) = channel::<Vec<u8>>();
    assert!(frame_receiver_after(Err(sender2), receiver2).is_none());
}
