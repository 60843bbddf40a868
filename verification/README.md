# macchinine

Control software for a small Bluetooth car, driven from a joystick or from a
remote station over UDP, with the car's camera frames sent back.

- `src/` is the verified library (Verus):
  - `relay`: numbering a message and cutting it into datagrams, and the
    reader that puts chunks back together, delivers complete messages and
    drops stale ones;
  - `delivery`: the proof that the datagrams of a message, fed to a reader in
    any order, give the message back exactly once;
  - `motor`: the byte that carries both motor levels;
  - `gui_state`: the car state shown on the panel and the connect command;
  - `bluetooth`: the registry of accepted devices, the connection retry
    policy and the search for the motor characteristic;
  - `camera`: the frame channel and the frame rate limit.
- `app/` is the program around it: sockets, BLE and BlueZ, gamepad, camera
  callback, the egui panel and the runtime set-up.
- `tests/` runs the library on concrete values.
