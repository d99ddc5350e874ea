use vstd::prelude::*;

verus! {

/// The window that had the focus before the history was shown, so that it
/// can be given the focus back.
#[derive(Debug, Clone, Copy, PartialEq, Eq, Structural)]
pub struct WindowInfo {
    pub app_pid: i32,
    pub window_id: u32,
}

} // verus!
