//! The tree lister. It enumerates a directory tree in depth-first
//! directory-read order — the root first, each directory's entries right
//! after the directory, a subdirectory's subtree before the entries that
//! follow it — without touching the filesystem itself: the caller reads
//! each directory the lister asks for and feeds the entries back.
use vstd::prelude::*;

use crate::file_ops::FileList;

verus! {

/// One directory entry as the filesystem reports it: its full path, and
/// whether it is itself a directory to descend into.
pub struct DirEntry {
    pub path: String,
    pub is_dir: bool,
}

/// The paths that processing the pending entries appends, newest pending
/// entry first, up to and including the next directory (the listing pauses
/// there to have that directory read).
pub open spec fn drain_out(stack: Seq<DirEntry>) -> Seq<Seq<char>>
    decreases stack.len(),
{
    if stack.len() == 0 {
        Seq::empty()
    } else if stack.last().is_dir {
        seq![stack.last().path@]
    } else {
        seq![stack.last().path@] + drain_out(stack.drop_last())
    }
}

/// The pending entries still left once processing pauses or ends.
pub open spec fn drain_rest(stack: Seq<DirEntry>) -> Seq<DirEntry>
    decreases stack.len(),
{
    if stack.len() == 0 {
        stack
    } else if stack.last().is_dir {
        stack.drop_last()
    } else {
        drain_rest(stack.drop_last())
    }
}

/// The directory processing pauses at, if any: the next one to be read.
pub open spec fn drain_next(stack: Seq<DirEntry>) -> Option<Seq<char>>
    decreases stack.len(),
{
    if stack.len() == 0 {
        None
    } else if stack.last().is_dir {
        Some(stack.last().path@)
    } else {
        drain_next(stack.drop_last())
    }
}

/// Builds the file list for one tree, one directory read at a time.
///
/// Protocol: while [`next_dir`](TreeLister::next_dir) yields a directory,
/// the caller reads that directory's immediate entries and hands them to
/// [`supply`](TreeLister::supply); when it yields nothing, the listing is
/// complete and [`finish`](TreeLister::finish) turns it into a
/// [`FileList`].
pub struct TreeLister {
    list: Vec<String>,
    stack: Vec<DirEntry>,
    waiting: Option<String>,
}

impl TreeLister {
    /// The paths listed so far, in depth-first order.
    pub closed spec fn listed(&self) -> Seq<Seq<char>> {
        self.list.deep_view()
    }

    /// The entries seen but not yet listed, the next one last.
    pub closed spec fn pending(&self) -> Seq<DirEntry> {
        self.stack@
    }

    /// The directory whose entries are needed before listing can go on.
    pub closed spec fn awaiting(&self) -> Option<Seq<char>> {
        match self.waiting {
            None => None,
            Some(ref p) => Some(p@),
        }
    }

    /// Starts a listing at `root`, which is its first path; a root that is
    /// a directory is the first one to be read.
    pub fn new(root: String, root_is_dir: bool) -> (r: TreeLister)
        ensures
            r.listed() == seq![root@],
            r.pending() == Seq::<DirEntry>::empty(),
            r.awaiting() == if root_is_dir {
                Some(root@)
            } else {
                None::<Seq<char>>
            },
    {
        let waiting = if root_is_dir {
            Some(root.clone())
        } else {
            None
        };
        let mut list: Vec<String> = Vec::new();
        list.push(root);
        let r = TreeLister { list, stack: Vec::new(), waiting };
        proof {
            assert(r.listed() =~= seq![r.list@[0]@]);
        }
        r
    }

    /// The directory whose immediate entries the caller is to read and feed
    /// back, or nothing when the listing is complete.
    pub fn next_dir(&self) -> (r: Option<String>)
        ensures
            match r {
                Some(p) => self.awaiting() == Some(p@),
                None => self.awaiting() is None,
            },
    {
        match &self.waiting {
            Some(p) => Some(p.clone()),
            None => None,
        }
    }

    /// Takes the awaited directory's immediate entries, in directory-read
    /// order, and lists on: each entry is appended in turn, and the first
    /// directory among them pauses the listing so its own entries come
    /// before whatever is left.
    pub fn supply(&mut self, entries: Vec<DirEntry>)
        requires
            old(self).awaiting() is Some,
        ensures
            final(self).listed() == old(self).listed() + drain_out(
                old(self).pending() + entries@.reverse(),
            ),
            final(self).pending() == drain_rest(old(self).pending() + entries@.reverse()),
            final(self).awaiting() == drain_next(old(self).pending() + entries@.reverse()),
    {
        let ghost st_full = old(self).pending() + entries@.reverse();
        let mut rest = entries;
        while rest.len() > 0
            invariant
                self.stack@ + rest@.reverse() == st_full,
                self.list == old(self).list,
            decreases rest@.len(),
        {
            let ghost before = self.stack@;
            let ghost rest_before = rest@;
            let e = rest.pop().unwrap();
            self.stack.push(e);
            proof {
                assert(rest_before.reverse() =~= seq![rest_before.last()] + rest@.reverse());
                assert(self.stack@ + rest@.reverse() =~= before + rest_before.reverse());
            }
        }
        proof {
            assert(self.stack@ =~= self.stack@ + rest@.reverse());
        }
        let ghost listed0 = self.listed();
        let mut next: Option<String> = None;
        loop
            invariant_except_break
                next is None,
                listed0 + drain_out(st_full) == self.listed() + drain_out(self.stack@),
                drain_rest(st_full) == drain_rest(self.stack@),
                drain_next(st_full) == drain_next(self.stack@),
            ensures
                self.listed() == listed0 + drain_out(st_full),
                self.stack@ == drain_rest(st_full),
                match next {
                    Some(p) => drain_next(st_full) == Some(p@),
                    None => drain_next(st_full) is None,
                },
            decreases self.stack@.len(),
        {
            let ghost stack_before = self.stack@;
            let ghost listed_before = self.listed();
            match self.stack.pop() {
                None => {
                    proof {
                        assert(listed_before + drain_out(stack_before) =~= listed_before);
                    }
                    break;
                },
                Some(e) => {
                    let is_dir = e.is_dir;
                    let p = e.path;
                    self.list.push(p.clone());
                    proof {
                        assert(self.listed() =~= listed_before + seq![p@]);
                    }
                    if is_dir {
                        next = Some(p);
                        break;
                    }
                    proof {
                        assert(listed_before + drain_out(stack_before) =~= self.listed()
                            + drain_out(self.stack@));
                    }
                },
            }
        }
        self.waiting = next;
    }

    /// The completed list: every path of the tree, in depth-first order.
    pub fn finish(self) -> (r: FileList)
        requires
            self.awaiting() is None,
        ensures
            r@ == self.listed(),
    {
        FileList::from_paths(self.list)
    }
}

} // verus!
