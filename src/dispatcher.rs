use vstd::prelude::*;

verus! {

/// A debounced filesystem event, with its paths as text.
#[derive(Debug, PartialEq, Eq)]
pub enum FsEvent {
    /// A write to the path has started.
    NoticeWrite(String),
    /// The path is about to be removed.
    NoticeRemove(String),
    Create(String),
    /// The path's contents have finished changing.
    Write(String),
    /// The path's attributes changed.
    Chmod(String),
    Remove(String),
    /// From the first path to the second.
    Rename(String, String),
    /// The watcher lost events and asks for a rescan.
    Rescan,
    /// The watcher failed; the cause and, where known, the path.
    Error(String, Option<String>),
}

/// What the dispatch loop does next.
#[derive(Debug, PartialEq, Eq)]
pub enum Action {
    /// Back up the file at this path; a failure is logged and the loop goes on.
    Backup(String),
    /// Log the event at debug level only.
    LogDebug,
    /// Log the event at error level only.
    LogError,
    /// The event source is closed and no event can come any more.
    Halt,
}

/// Routes one received event (or `None` once the source has closed): only a
/// committed write leads to a backup.
pub fn dispatch(received: &Option<FsEvent>) -> (r: Action)
    ensures
        r is Halt <==> received is None,
        r is Backup <==> received matches Some(FsEvent::Write(_)),
        received matches Some(FsEvent::Write(p)) ==> (r matches Action::Backup(q) && q@ == p@),
        r is LogError <==> received matches Some(FsEvent::Error(_, _)),
{
    match received {
        None => Action::Halt,
        Some(FsEvent::Write(p)) => Action::Backup(p.clone()),
        Some(FsEvent::Error(_, _)) => Action::LogError,
        Some(_) => Action::LogDebug,
    }
}

} // verus!
