//! Following a log file: what is to be done when its size or identity changes.

use vstd::prelude::*;

verus! {

/// What is known of the file that is followed.
#[derive(Debug, Clone, Copy)]
pub struct TailState {
    /// Identity of the file that is open, if any.
    pub inode: Option<u64>,
    /// Size of the file when it was last looked at.
    pub last_size: u64,
}

/// What is to be done with the file.
#[derive(Debug, Clone, Copy, PartialEq, Eq, Structural)]
pub enum TailAction {
    /// Open the file and go to its end: old lines are not read.
    OpenAtEnd,
    /// Open the file that took the place of the old one, at its start.
    OpenAtStart,
    /// Read the lines that were added.
    ReadAdded,
    /// Go back to the start: the file was cut off.
    Rewind,
    /// Nothing has changed.
    Wait,
}

/// What is to be done with a file of that identity and size.
pub open spec fn tail_action(s: TailState, inode: u64, size: u64) -> TailAction {
    match s.inode {
        None => TailAction::OpenAtEnd,
        Some(i) => if i != inode {
            TailAction::OpenAtStart
        } else if size > s.last_size {
            TailAction::ReadAdded
        } else if size < s.last_size {
            TailAction::Rewind
        } else {
            TailAction::Wait
        },
    }
}

/// What is known of the file after that was done.
pub open spec fn tail_next(s: TailState, inode: u64, size: u64) -> TailState {
    match tail_action(s, inode, size) {
        TailAction::OpenAtEnd => TailState { inode: Some(inode), last_size: size },
        TailAction::OpenAtStart => TailState { inode: Some(inode), last_size: 0 },
        TailAction::ReadAdded => TailState { inode: s.inode, last_size: size },
        TailAction::Rewind => TailState { inode: s.inode, last_size: 0 },
        TailAction::Wait => s,
    }
}

impl TailState {
    /// No file is open yet.
    pub fn new() -> (r: Self)
        ensures
            r.inode is None,
            r.last_size == 0,
    {
        TailState { inode: None, last_size: 0 }
    }

    /// What is to be done with a file of that identity and size.
    pub fn action(&self, inode: u64, size: u64) -> (r: TailAction)
        ensures
            r == tail_action(*self, inode, size),
    {
        match self.inode {
            None => TailAction::OpenAtEnd,
            Some(i) => if i != inode {
                TailAction::OpenAtStart
            } else if size > self.last_size {
                TailAction::ReadAdded
            } else if size < self.last_size {
                TailAction::Rewind
            } else {
                TailAction::Wait
            },
        }
    }

    /// Notes that what `action` said was done. Where a file could not be opened
    /// nothing is noted, and it is tried again.
    pub fn done(&mut self, inode: u64, size: u64)
        ensures
            *final(self) == tail_next(*old(self), inode, size),
    {
        match self.action(inode, size) {
            TailAction::OpenAtEnd => {
                self.inode = Some(inode);
                self.last_size = size;
            },
            TailAction::OpenAtStart => {
                self.inode = Some(inode);
                self.last_size = 0;
            },
            TailAction::ReadAdded => {
                self.last_size = size;
            },
            TailAction::Rewind => {
                self.last_size = 0;
            },
            TailAction::Wait => {},
        }
    }
}

/// A replaced file is read from its start: the first step opens it there, and the
/// second one reads what it holds.
pub proof fn law_replaced_file_read(s: TailState, inode: u64, size: u64)
    requires
        s.inode is Some,
        s.inode != Some(inode),
        size > 0,
    ensures
        tail_action(s, inode, size) == TailAction::OpenAtStart,
        tail_action(tail_next(s, inode, size), inode, size) == TailAction::ReadAdded,
{
}

/// A file that was cut off is read from its start: the first step goes back, and
/// the second one reads what it holds.
pub proof fn law_cut_file_read(s: TailState, inode: u64, size: u64)
    requires
        s.inode == Some(inode),
        0 < size < s.last_size,
    ensures
        tail_action(s, inode, size) == TailAction::Rewind,
        tail_action(tail_next(s, inode, size), inode, size) == TailAction::ReadAdded,
{
}

/// Once what is to be done was done, nothing is left to do with the same file,
/// unless it has to be read from its start.
pub proof fn law_nothing_read_twice(s: TailState, inode: u64, size: u64)
    ensures
        ({
            let a: TailAction = tail_action(s, inode, size);
            a == TailAction::OpenAtEnd || a == TailAction::ReadAdded || a == TailAction::Wait
                ==> tail_action(tail_next(s, inode, size), inode, size) == TailAction::Wait
        }),
{
}

/// What was added to a file is read, and no more: a file that has grown is read
/// on, and one that has not is left alone.
pub proof fn law_growth_read(s: TailState, inode: u64, more: u64)
    requires
        s.inode == Some(inode),
        s.last_size + more <= u64::MAX,
    ensures
        more > 0 ==> tail_action(s, inode, (s.last_size + more) as u64) == TailAction::ReadAdded,
        more == 0 ==> tail_action(s, inode, (s.last_size + more) as u64) == TailAction::Wait,
        tail_next(s, inode, (s.last_size + more) as u64).last_size == s.last_size + more,
        tail_next(s, inode, (s.last_size + more) as u64).inode == Some(inode),
{
}

/// The lines that a file has when it is first opened are passed over.
pub proof fn law_old_lines_passed_over(s: TailState, inode: u64, size: u64, more: u64)
    requires
        s.inode is None,
        size + more <= u64::MAX,
    ensures
        tail_action(s, inode, size) == TailAction::OpenAtEnd,
        tail_next(s, inode, size).last_size == size,
        more > 0 ==> tail_action(tail_next(s, inode, size), inode, (size + more) as u64)
            == TailAction::ReadAdded,
{
}

} // verus!
