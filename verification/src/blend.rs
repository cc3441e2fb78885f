//! Decisions around the Blender bridge: recognising `.blend` files, the
//! conversion time limit, and what to do at each poll of the converter.
//!
//! The conversion itself runs Blender as a separate process; the caller
//! performs each action and reports back what it saw.

use vstd::prelude::*;
use vstd::string::StringSliceAdditionalSpecFns;

verus! {

/// Seconds allowed for a conversion when no valid limit is set.
pub const DEFAULT_TIMEOUT_SECS: u64 = 180;

/// Milliseconds between polls of the converter.
pub const POLL_INTERVAL_MS: u64 = 100;

/// Reads and writes `.blend` files through Blender.
pub struct BlendLoader;

impl BlendLoader {
    /// Whether the first bytes read from a file (up to 12) open with the
    /// `BLENDER` header; the same test decides whether a file is loaded.
    pub fn detect(&self, head: &[u8]) -> (r: bool)
        ensures
            r == crate::text::begins_with(head@, "BLENDER".spec_bytes()),
    {
        crate::text::starts_with(head, "BLENDER".as_bytes())
    }
}

/// The time limit in seconds: the setting when it is a positive `u64`,
/// else the default.
pub open spec fn timeout_secs_spec(setting: Option<Seq<u8>>) -> u64 {
    match setting {
        Some(s) => match crate::text::parse_u64_spec(s) {
            Some(v) if v > 0 => v,
            _ => DEFAULT_TIMEOUT_SECS,
        },
        None => DEFAULT_TIMEOUT_SECS,
    }
}

pub fn blender_timeout_secs(setting: Option<&[u8]>) -> (r: u64)
    ensures
        r == timeout_secs_spec(match setting {
            Some(s) => Some(s@),
            None => None,
        }),
{
    match setting {
        Some(s) => match crate::text::parse_u64(s) {
            Some(v) => if v > 0 {
                v
            } else {
                DEFAULT_TIMEOUT_SECS
            },
            None => DEFAULT_TIMEOUT_SECS,
        },
        None => DEFAULT_TIMEOUT_SECS,
    }
}

/// What the bridge does after a poll.
#[derive(Debug, Clone, Copy, PartialEq, Eq, Structural)]
pub enum PollAction {
    /// The converter exited successfully.
    Finished,
    /// The converter exited with a failure status.
    Failed,
    /// The time is up: stop the converter and report the limit.
    TimedOut,
    /// Wait one interval and poll again.
    Wait,
}

/// The action for a poll: `exited` is the converter's exit (successful or
/// not) if it has exited; `elapsed_ms` the time since it started.
pub fn poll_action(exited: Option<bool>, elapsed_ms: u64, timeout_secs: u64) -> (r: PollAction)
    ensures
        r == match exited {
            Some(true) => PollAction::Finished,
            Some(false) => PollAction::Failed,
            None => if elapsed_ms >= timeout_secs * 1000 {
                PollAction::TimedOut
            } else {
                PollAction::Wait
            },
        },
{
    match exited {
        Some(true) => PollAction::Finished,
        Some(false) => PollAction::Failed,
        None => {
            if (elapsed_ms as u128) >= (timeout_secs as u128) * 1000 {
                PollAction::TimedOut
            } else {
                PollAction::Wait
            }
        },
    }
}

} // verus!
