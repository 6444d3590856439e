//! Sending over the channels of the standard library.

use std::sync::mpsc::{SendError, Sender};

use vstd::prelude::*;

verus! {

/// The sending half of a channel.
#[verifier::external_type_specification]
#[verifier::external_body]
#[verifier::reject_recursive_types(T)]
pub struct ExSender<T>(std::sync::mpsc::Sender<T>);

/// What a failed sending gives back.
#[verifier::external_type_specification]
#[verifier::external_body]
#[verifier::reject_recursive_types(T)]
pub struct ExSendError<T>(std::sync::mpsc::SendError<T>);

/// `Sender::send` puts a value into a channel and fails where the receiving half is gone.
/// Nothing is claimed of the result: whether the other half is still there does not depend on
/// the arguments.
pub assume_specification<T>[ Sender::<T>::send ](sender: &Sender<T>, value: T) -> (r: Result<
    (),
    SendError<T>,
>)
;

/// A value was handed to a channel, and the result says whether the channel took it.
pub open spec fn handed<T>(sender: Sender<T>, value: T, taken: bool) -> bool {
    exists|sent: Result<(), SendError<T>>|
        call_ensures(Sender::<T>::send, (&sender, value), sent) && taken == (sent is Ok)
}

/// Hands a value to a channel; a failure is given by its message.
pub fn send<T>(sender: &Sender<T>, value: T) -> (r: Result<(), String>)
    ensures
        handed(*sender, value, r is Ok),
{
    match sender.send(value) {
        Ok(()) => Ok(()),
        Err(e) => Err(e.to_string()),
    }
}

} // verus!
