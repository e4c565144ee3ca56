//! The side-VM service's decision rules.
//!
//! The host runtime runs each VM instance in an event loop: commands
//! arrive on a channel, the VM future settles, messages are pushed into
//! the instance.  What the loop *decides* on each event — keep going,
//! forward a message, or exit with which reason — is pure, and stands
//! here; the asynchronous plumbing around it performs the actions.

use vstd::prelude::*;

verus! {

/// A VM instance's identity.
pub type VmId = [u8; 32];

/// What the service reports to its event handler.
#[derive(Debug, PartialEq, Eq)]
pub enum Report {
    VmTerminated { id: VmId, reason: ExitReason },
}

/// Why a VM instance's event loop ended.
#[derive(Debug, PartialEq, Eq)]
pub enum ExitReason {
    /// The instance exited normally with a code.
    Exited(i32),
    /// A stop command was received.
    Stopped,
    /// The command channel was closed.
    InputClosed,
    /// The instance or its message pipe failed.
    Panicked,
    /// The instance task was cancelled.
    Cancelled,
}

/// A command addressed to a running VM instance.
#[derive(Debug, PartialEq, Eq)]
pub enum Command {
    /// Stop the instance.
    Stop,
    /// Push a message into the instance.
    PushMessage(Vec<u8>),
}

/// An event the instance's event loop observes.
#[derive(Debug, PartialEq, Eq)]
pub enum VmEvent {
    /// The command channel was closed.
    CommandChannelClosed,
    /// A command arrived.
    CommandReceived(Command),
    /// A pushed message was accepted by the instance.
    MessagePushed,
    /// A pushed message was refused by the instance.
    MessagePushFailed,
    /// The VM future returned normally with an exit code.
    WasmReturned(i32),
    /// The VM future failed.
    WasmFailed,
}

/// What the event loop does next.
#[derive(Debug, PartialEq, Eq)]
pub enum VmAction {
    /// Keep waiting for the next event.
    Continue,
    /// Push this message into the instance.
    PushMessage(Vec<u8>),
    /// Leave the loop and report this reason.
    Exit(ExitReason),
}

/// The event loop's decision for one event.
pub fn step_vm(event: VmEvent) -> (r: VmAction)
    ensures
        match event {
            VmEvent::CommandChannelClosed => r == VmAction::Exit(ExitReason::InputClosed),
            VmEvent::CommandReceived(cmd) => match cmd {
                Command::Stop => r == VmAction::Exit(ExitReason::Stopped),
                Command::PushMessage(msg) => r == VmAction::PushMessage(msg),
            },
            VmEvent::MessagePushed => r == VmAction::Continue,
            VmEvent::MessagePushFailed => r == VmAction::Exit(ExitReason::Panicked),
            VmEvent::WasmReturned(code) => r == VmAction::Exit(ExitReason::Exited(code)),
            VmEvent::WasmFailed => r == VmAction::Exit(ExitReason::Panicked),
        },
{
    match event {
        VmEvent::CommandChannelClosed => VmAction::Exit(ExitReason::InputClosed),
        VmEvent::CommandReceived(Command::Stop) => VmAction::Exit(ExitReason::Stopped),
        VmEvent::CommandReceived(Command::PushMessage(msg)) => VmAction::PushMessage(msg),
        VmEvent::MessagePushed => VmAction::Continue,
        VmEvent::MessagePushFailed => VmAction::Exit(ExitReason::Panicked),
        VmEvent::WasmReturned(code) => VmAction::Exit(ExitReason::Exited(code)),
        VmEvent::WasmFailed => VmAction::Exit(ExitReason::Panicked),
    }
}

/// How a settled instance task is reported: a cancelled task is reported
/// as cancelled, any other failure as panicked.
pub fn join_exit_reason(cancelled: bool) -> (r: ExitReason)
    ensures
        cancelled ==> r == ExitReason::Cancelled,
        !cancelled ==> r == ExitReason::Panicked,
{
    if cancelled {
        ExitReason::Cancelled
    } else {
        ExitReason::Panicked
    }
}

} // verus!
