use macchinine::bluetooth::{
    address_key, find_characteristic, next_connect_step, select_characteristic, Bluetooth, ConnectStep,
    CONNECT_RETRIES,
};

#[test]
fn address_key_reads_bytes_big_endian() {
    assert_eq!(address_key([0xA8, 0x10, 0x87, 0x67, 0x73, 0x2A]), 0xA810_8767_732A);
    assert_eq!(address_key([0, 0, 0, 0, 0, 1]), 1);
    assert_eq!(address_key([1, 0, 0, 0, 0, 0]), 1 << 40);
}

#[test]
fn registry_finds_added_devices() {
    let mut bl: Bluetooth<&str, u8> = Bluetooth::new(3);
    bl.add_device(1, 2, [0xA8, 0x10, 0x87, 0x67, 0x73, 0x2A], "hc08");
    bl.add_device(1, 4, [0x48, 0x87, 0x2D, 0x11, 0xA6, 0xF1], "altra");
    let d = bl.accepted_device([0xA8, 0x10, 0x87, 0x67, 0x73, 0x2A]).unwrap();
    assert_eq!((d.service, d.characteristic, d.run), (1, 2, "hc08"));
    assert!(bl.accepted_device([0, 0, 0, 0, 0, 0]).is_none());
    bl.add_device(5, 6, [0x48, 0x87, 0x2D, 0x11, 0xA6, 0xF1], "again");
    assert_eq!(bl.accepted_device([0x48, 0x87, 0x2D, 0x11, 0xA6, 0xF1]).unwrap().run, "again");
    assert_eq!(*bl.sender(), 3);
}

#[test]
fn connection_is_tried_three_times() {
    let mut attempts = 0;
    let mut retries = CONNECT_RETRIES;
    loop {
        attempts += 1;
        match next_connect_step(retries, false) {
            ConnectStep::Retry { retries_left } => retries = retries_left,
            ConnectStep::GiveUp => break,
            ConnectStep::Connected => unreachable!(),
        }
    }
    assert_eq!(attempts, 3);
    assert!(matches!(next_connect_step(2, true), ConnectStep::Connected));
    assert!(matches!(next_connect_step(0, true), ConnectStep::Connected));
}

#[test]
fn first_matching_characteristic_is_found() {
    let services = vec![(1u128, vec![5u128, 6]), (2, vec![7, 8, 7]), (2, vec![7])];
    assert_eq!(find_characteristic(&services, 2, 7), Some((1, 0)));
    assert_eq!(find_characteristic(&services, 2, 8), Some((1, 1)));
    assert_eq!(find_characteristic(&services, 1, 7), None);
    assert_eq!(find_characteristic(&services, 3, 5), None);
    assert_eq!(find_characteristic(&vec![], 3, 5), None);
}

#[test]
fn discovered_device_needs_service_and_characteristic() {
    let services = vec![10u128, 20];
    let chars = vec![1u128, 2, 2];
    assert_eq!(select_characteristic(&services, &chars, 20, 2), Some(1));
    assert_eq!(select_characteristic(&services, &chars, 30, 2), None);
    assert_eq!(select_characteristic(&services, &chars, 10, 3), None);
}
