//! Progress in a taskbar, for systems whose taskbar does not show any.

use vstd::prelude::*;

pub mod tbp_flags;

verus! {

/// What the progress in a taskbar looks like.
#[allow(non_camel_case_types)]
#[allow(clippy::upper_case_acronyms)]
#[derive(Clone, Copy, PartialEq, Eq, Structural, Debug)]
pub enum TBPFLAG {
    TBPF_NOPROGRESS,
    TBPF_INDETERMINATE,
    TBPF_NORMAL,
    TBPF_ERROR,
    TBPF_PAUSED,
}

impl TBPFLAG {
    /// The number of the flag: each flag that shows something is a bit of its own.
    pub fn value(&self) -> (r: u32)
        ensures
            r == match self {
                TBPFLAG::TBPF_NOPROGRESS => 0u32,
                TBPFLAG::TBPF_INDETERMINATE => 0x1u32,
                TBPFLAG::TBPF_NORMAL => 0x2u32,
                TBPFLAG::TBPF_ERROR => 0x4u32,
                TBPFLAG::TBPF_PAUSED => 0x8u32,
            },
    {
        match self {
            TBPFLAG::TBPF_NOPROGRESS => 0,
            TBPFLAG::TBPF_INDETERMINATE => 0x1,
            TBPFLAG::TBPF_NORMAL => 0x2,
            TBPFLAG::TBPF_ERROR => 0x4,
            TBPFLAG::TBPF_PAUSED => 0x8,
        }
    }
}

/// Progress that is not shown: nothing that is done with it has an effect.
#[derive(Debug)]
pub struct TaskbarProgress {}

impl TaskbarProgress {
    pub fn new() -> (r: TaskbarProgress)
        ensures
            r == (TaskbarProgress {  }),
    {
        TaskbarProgress {  }
    }

    pub fn set_progress_state(&self, _tbp_flags: TBPFLAG) {
    }

    pub fn set_progress_value(&self, _completed: u64, _total: u64) {
    }

    pub fn hide_progress(&self) {
    }

    pub fn show(&self) {
    }

    pub fn release(&mut self)
        ensures
            *final(self) == *old(self),
    {
    }
}

impl Drop for TaskbarProgress {
    fn drop(&mut self)
        opens_invariants none
        no_unwind
    {
    }
}

} // verus!
