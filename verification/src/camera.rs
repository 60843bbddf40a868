use once_cell::sync::OnceCell;
use std::sync::mpsc::{Receiver, Sender};
use vstd::prelude::*;

verus! {

#[verifier::external_type_specification]
#[verifier::external_body]
#[verifier::reject_recursive_types(T)]
pub struct ExSender<T>(std::sync::mpsc::Sender<T>);

#[verifier::external_type_specification]
#[verifier::external_body]
#[verifier::reject_recursive_types(T)]
pub struct ExReceiver<T>(std::sync::mpsc::Receiver<T>);

#[verifier::external_type_specification]
#[verifier::external_body]
#[verifier::reject_recursive_types(T)]
pub struct ExOnceCell<T>(once_cell::sync::OnceCell<T>);

/// Shortest time between two camera frames sent to the remote, in milliseconds.
pub const FRAME_INTERVAL_MS: u128 = 100;

/// Calls `std::sync::mpsc::channel` for camera frames. Nothing is stated of
/// the two ends: which channel they belong to is not a value that a contract
/// here can speak of.
#[verifier::external_body]
fn frame_channel() -> (Sender<Vec<u8>>, Receiver<Vec<u8>>) {
    std::sync::mpsc::channel()
}

/// Calls `OnceCell::set`. Trusted: where the cell was already set, the value
/// comes back unchanged in `Err` (once_cell's source returns it so). Whether
/// the cell was set depends on what other callers did before, which is not
/// stated.
#[verifier::external_body]
fn set_frame_sender(cell: &OnceCell<Sender<Vec<u8>>>, sender: Sender<Vec<u8>>) -> (r: Result<
    (),
    Sender<Vec<u8>>,
>)
    ensures
        r matches Err(back) ==> back == sender,
{
    cell.set(sender)
}

/// What registering a frame channel yields: its receiving end where the
/// sending end was stored (`registration` is `Ok`), nothing where the cell
/// already held one and gave the new sending end back.
pub fn frame_receiver_after(
    registration: Result<(), Sender<Vec<u8>>>,
    receiver: Receiver<Vec<u8>>,
) -> (r: Option<Receiver<Vec<u8>>>)
    ensures
        registration is Ok ==> r == Some(receiver),
        registration is Err ==> r is None,
{
    match registration {
        Ok(()) => Some(receiver),
        Err(_) => None,
    }
}

/// Opens the channel that camera frames travel on and registers its sending
/// end in `cell`, where the frame callback finds it. Returns the receiving
/// end, or `None` where a sending end was registered before (the new one is
/// then dropped, and frames keep going to the old channel). Whether the cell
/// was already set depends on earlier callers, and which channel the ends
/// belong to is no value a contract can speak of, so this function states
/// nothing of its result; `frame_receiver_after` states the decision.
pub fn init_frame_sender(cell: &OnceCell<Sender<Vec<u8>>>) -> (receiver: Option<Receiver<Vec<u8>>>) {
    let (sender, receiver) = frame_channel();
    let registration = set_frame_sender(cell, sender);
    frame_receiver_after(registration, receiver)
}

/// Whether a new camera frame may go to the remote, `elapsed_ms` milliseconds
/// after the last one that went.
pub fn frame_due(elapsed_ms: u128) -> (due: bool)
    ensures
        due == (elapsed_ms > FRAME_INTERVAL_MS),
{
    elapsed_ms > FRAME_INTERVAL_MS
}

} // verus!
