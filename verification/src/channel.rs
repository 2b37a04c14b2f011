//! The bounded result channel of the search worker.
//!
//! Search results are streamed through a `crossbeam_channel` sender so that a
//! branchy search cannot buffer an unbounded number of matches in memory: a
//! send blocks while the channel is full, and fails once the consumer has
//! gone away. That failure terminates the worker's search; the rest of the
//! system is unaffected.

use vstd::prelude::*;

use crate::tvg_path::TvgPath;

verus! {

/// The consumer of a search has dropped its receiving end: fatal to this
/// worker's search, recoverable to the system.
#[derive(Clone, Copy, Debug, PartialEq, Eq, Structural)]
pub struct ChannelClosed;

#[verifier::external_type_specification]
#[verifier::external_body]
#[verifier::reject_recursive_types(T)]
pub struct ExSender<T>(crossbeam_channel::Sender<T>);

/// Relies on crossbeam_channel::Sender::send: blocks while the channel is
/// full, delivers the message once there is room, and returns an error
/// (carrying the message back) exactly when the receiving side has
/// disconnected. Nothing is promised of the result: whether the consumer is
/// still connected is outside state.
#[verifier::external_body]
pub(crate) fn send_result(
    paths: &crossbeam_channel::Sender<(String, TvgPath)>,
    label: String,
    path: TvgPath,
) -> Result<(), ChannelClosed> {
    match paths.send((label, path)) {
        Ok(()) => Ok(()),
        Err(_) => Err(ChannelClosed),
    }
}

} // verus!
