//! The reconnect policy around a dialog: up to a bounded number of
//! attempts, a fresh connection whenever one is missing, and a dropped
//! connection after any error or timeout.

use vstd::prelude::*;

verus! {

/// What the caller is told to do after one attempt ended.
#[derive(Debug, PartialEq, Eq, Structural)]
pub enum RetryAction {
    /// Hand the error out and go on with the next attempt.
    YieldErrorAndRetry,
    /// The dialog finished; stop.
    Stop,
}

/// The wrapper's state: how many attempts remain and whether a live
/// connection is held.
pub struct RetryState {
    pub attempts_left: usize,
    pub connected: bool,
}

impl RetryState {
    /// A fresh wrapper holds no connection.
    pub fn new(attempts: usize) -> (r: Self)
        ensures
            r.attempts_left == attempts,
            !r.connected,
    {
        RetryState { attempts_left: attempts, connected: false }
    }

    /// Whether another attempt may start; each started attempt uses one up.
    pub fn take_attempt(&mut self) -> (r: bool)
        ensures
            r == (old(self).attempts_left > 0),
            r ==> final(self).attempts_left == old(self).attempts_left - 1,
            !r ==> final(self).attempts_left == 0,
            final(self).connected == old(self).connected,
    {
        if self.attempts_left > 0 {
            self.attempts_left = self.attempts_left - 1;
            true
        } else {
            false
        }
    }

    /// A fresh connection came up.
    pub fn on_connected(&mut self)
        ensures
            final(self).connected,
            final(self).attempts_left == old(self).attempts_left,
    {
        self.connected = true;
    }

    /// Connecting failed: the error is handed out and the next attempt
    /// starts without a connection.
    pub fn on_connect_failed(&mut self) -> (r: RetryAction)
        ensures
            !final(self).connected,
            final(self).attempts_left == old(self).attempts_left,
            r == RetryAction::YieldErrorAndRetry,
    {
        self.connected = false;
        RetryAction::YieldErrorAndRetry
    }

    /// A frame inside the dialog failed: the error is handed out, and the
    /// connection is dropped before the next attempt sees it.
    pub fn on_sequence_error(&mut self) -> (r: RetryAction)
        ensures
            !final(self).connected,
            final(self).attempts_left == old(self).attempts_left,
            r == RetryAction::YieldErrorAndRetry,
    {
        self.connected = false;
        RetryAction::YieldErrorAndRetry
    }

    /// No frame arrived within the timeout: exactly one error is handed
    /// out, and the connection is dropped.
    pub fn on_timeout(&mut self) -> (r: RetryAction)
        ensures
            !final(self).connected,
            final(self).attempts_left == old(self).attempts_left,
            r == RetryAction::YieldErrorAndRetry,
    {
        self.connected = false;
        RetryAction::YieldErrorAndRetry
    }

    /// The dialog reached its terminal event: the wrapper stops and the
    /// connection stays up for the next dialog.
    pub fn on_finished(&mut self) -> (r: RetryAction)
        ensures
            final(self).connected == old(self).connected,
            final(self).attempts_left == old(self).attempts_left,
            r == RetryAction::Stop,
    {
        RetryAction::Stop
    }
}

/// How many attempts the wrapper makes by default.
pub fn default_attempts() -> (r: usize)
    ensures
        r == 20,
{
    20
}

/// The default per-frame timeout, in seconds.
pub fn default_timeout_secs() -> (r: u64)
    ensures
        r == 60,
{
    60
}

} // verus!
