//! The file watcher's decision core.
//!
//! The OS-facing side — a dedicated thread blocking on file-change
//! notifications — lives with the host. What it runs is this state
//! machine: while the handle stands, every detected write to the watched
//! path yields exactly one reload signal for the host event queue; once
//! the handle is closed (the widget was disposed, or a signal could not
//! be delivered because the UI side is gone), no write yields anything,
//! and the thread winds down instead of retrying.

use vstd::prelude::*;

use crate::style::clone_bytes;

verus! {

/// The selector tag under which reload commands are delivered into the
/// host event queue.
pub const RELOAD_STYLES: &'static str = "themeloader.reload_styles";

/// The reload command a watcher posts into the host event queue,
/// carrying the path that changed.
pub struct ReloadSignal {
    pub path: Vec<u8>,
}

/// A standing watch on one path; closing it stops all further signals.
pub struct WatchHandle {
    path: Vec<u8>,
    active: bool,
}

impl WatchHandle {
    /// The watched path.
    pub closed spec fn path_view(&self) -> Seq<u8> {
        self.path@
    }

    /// Whether the watch still stands.
    pub closed spec fn is_active(&self) -> bool {
        self.active
    }

    /// The signal a detected write produces: one while the watch stands,
    /// none after it is closed.
    pub open spec fn signal_spec(&self) -> Option<Seq<u8>> {
        if self.is_active() {
            Some(self.path_view())
        } else {
            None
        }
    }

    /// Establish a watch on a path.
    pub fn watch(path: Vec<u8>) -> (w: WatchHandle)
        ensures
            w.is_active(),
            w.path_view() == path@,
    {
        WatchHandle { path, active: true }
    }

    /// A write to the watched path was detected: the signal to post, if
    /// the watch still stands — exactly one per detected write, never any
    /// after the handle was closed.
    pub fn on_write(&self) -> (r: Option<ReloadSignal>)
        ensures
            match r {
                Some(sig) => self.signal_spec() == Some(sig.path@),
                None => self.signal_spec() is None,
            },
    {
        if self.active {
            Some(ReloadSignal { path: clone_bytes(&self.path) })
        } else {
            None
        }
    }

    /// Close the watch: the widget was disposed, or the UI side is gone.
    /// No signal is produced from here on; the monitoring thread sees the
    /// handle closed and terminates instead of retrying.
    pub fn close(&mut self)
        ensures
            !final(self).is_active(),
            final(self).path_view() == old(self).path_view(),
    {
        self.active = false;
    }
}

/// Once a watch is closed, a write to the file — however many — yields no
/// signal at all: teardown stops delivery for good.
pub proof fn lemma_closed_watch_is_silent(w: WatchHandle)
    requires
        !w.is_active(),
    ensures
        w.signal_spec() is None,
{
}

} // verus!
