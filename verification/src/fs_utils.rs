//! The decisions of the packer's file-tree walks: what a recursive copy does
//! with each directory entry, when a tree holds a file newer than a build,
//! and which files a sysroot walk collects.
use vstd::prelude::*;

verus! {

/// What a recursive copy does with one directory entry.
#[derive(Clone, Copy, Debug, PartialEq, Eq, Structural)]
pub enum CopyAction {
    /// The filter rejected the entry.
    Skip,
    /// Recreate the symbolic link with the same target.
    Symlink,
    /// Copy the directory recursively.
    Recurse,
    /// Copy the file's contents.
    CopyFile,
}

/// Decides what a recursive copy does with an entry: entries the filter
/// rejects are skipped; symbolic links are recreated rather than followed;
/// directories are copied recursively; anything else is copied as a file.
pub fn copy_entry_action(selected: bool, is_symlink: bool, is_dir: bool) -> (r: CopyAction)
    ensures
        r == (if !selected {
            CopyAction::Skip
        } else if is_symlink {
            CopyAction::Symlink
        } else if is_dir {
            CopyAction::Recurse
        } else {
            CopyAction::CopyFile
        }),
{
    if !selected {
        CopyAction::Skip
    } else if is_symlink {
        CopyAction::Symlink
    } else if is_dir {
        CopyAction::Recurse
    } else {
        CopyAction::CopyFile
    }
}

/// What the search for a newer file does with one directory entry.
#[derive(Clone, Copy, Debug, PartialEq, Eq, Structural)]
pub enum NewerCheck {
    /// Search the subdirectory.
    Descend,
    /// The entry was modified after the reference time: the search ends.
    Newer,
    /// Go on with the next entry.
    Continue,
}

/// Decides what the search for a file newer than `reference` does with an
/// entry. Times are nanoseconds relative to the Unix epoch; an entry whose
/// modification time cannot be read is passed over.
pub fn newer_check(is_dir: bool, modified: Option<i128>, reference: i128) -> (r: NewerCheck)
    ensures
        r == (if is_dir {
            NewerCheck::Descend
        } else {
            match modified {
                Some(t) => if t > reference {
                    NewerCheck::Newer
                } else {
                    NewerCheck::Continue
                },
                None => NewerCheck::Continue,
            }
        }),
{
    if is_dir {
        NewerCheck::Descend
    } else {
        match modified {
            Some(t) => if t > reference {
                NewerCheck::Newer
            } else {
                NewerCheck::Continue
            },
            None => NewerCheck::Continue,
        }
    }
}

/// The kind of a directory entry, as its file type tells it (links are
/// not followed).
#[derive(Clone, Copy, Debug, PartialEq, Eq, Structural)]
pub enum EntryKind {
    Directory,
    File,
    Symlink,
    Other,
}

/// A depth-first walk that collects every regular file and symbolic link
/// under a root. The caller reads the directories it hands out and
/// reports their entries back; `P` is how the caller names a path.
pub struct FileWalk<P> {
    pending: Vec<P>,
    files: Vec<P>,
}

impl<P> FileWalk<P> {
    /// The directories still to read, the last one next.
    pub closed spec fn pending_dirs(&self) -> Seq<P> {
        self.pending@
    }

    /// The files collected so far, in the order they were found.
    pub closed spec fn collected(&self) -> Seq<P> {
        self.files@
    }

    /// Starts a walk at `root`.
    pub fn new(root: P) -> (r: Self)
        ensures
            r.pending_dirs() == seq![root],
            r.collected() == Seq::<P>::empty(),
    {
        let mut pending: Vec<P> = Vec::new();
        pending.push(root);
        FileWalk { pending, files: Vec::new() }
    }

    /// The next directory to read, taken from the top of the stack; none
    /// when the walk is over.
    pub fn next_directory(&mut self) -> (r: Option<P>)
        ensures
            old(self).pending_dirs().len() == 0 ==> r is None && final(self).pending_dirs()
                == old(self).pending_dirs(),
            old(self).pending_dirs().len() > 0 ==> r == Some(old(self).pending_dirs().last())
                && final(self).pending_dirs() == old(self).pending_dirs().drop_last(),
            final(self).collected() == old(self).collected(),
    {
        self.pending.pop()
    }

    /// Reports an entry of the directory last handed out: a directory is
    /// queued, a file or symbolic link is collected, anything else is
    /// passed over.
    pub fn visit(&mut self, path: P, kind: EntryKind)
        ensures
            final(self).pending_dirs() == (if kind == EntryKind::Directory {
                old(self).pending_dirs().push(path)
            } else {
                old(self).pending_dirs()
            }),
            final(self).collected() == (if kind == EntryKind::File || kind == EntryKind::Symlink {
                old(self).collected().push(path)
            } else {
                old(self).collected()
            }),
    {
        match kind {
            EntryKind::Directory => self.pending.push(path),
            EntryKind::File | EntryKind::Symlink => self.files.push(path),
            EntryKind::Other => {},
        }
    }

    /// The files collected by the walk.
    pub fn into_files(self) -> (r: Vec<P>)
        ensures
            r@ == self.collected(),
    {
        self.files
    }
}

} // verus!
