//! Storage abstraction.
//!
//! All file operations of the engine go through [`Io`] and the two traits it
//! extends, so that a test can put a backend in place that fails on demand.
//! A backend holds the files of one directory; a file is named by its bytes
//! within it. An operation that fails reports an I/O error and may leave
//! behind no more than its contract says.

use crate::error::Result;
use vstd::prelude::*;

pub mod mem;

verus! {

/// The name of a file.
pub type Name = Seq<u8>;

/// The files of a directory: the content of each, by name.
pub type Files = Map<Name, Seq<u8>>;

/// `after` differs from `before` at most in that some of `bytes` were
/// appended to `name`.
pub open spec fn torn_append(before: Files, name: Seq<u8>, bytes: Seq<u8>, after: Files) -> bool {
    after == before || exists|n: int|
        0 <= n <= bytes.len() && before.contains_key(name) && after == before.insert(
            name,
            before[name] + #[trigger] bytes.take(n),
        )
}

/// Random reads of files.
pub trait FileRead {
    /// The content of every file.
    spec fn files(&self) -> Files;

    /// The content of `name` is on stable storage.
    spec fn is_synced(&self, name: Name) -> bool;

    /// The directory entry of `name` is on stable storage.
    spec fn is_linked(&self, name: Name) -> bool;

    /// No operation fails but for the reasons that its contract gives. A
    /// backend on a disk never promises this.
    spec fn is_reliable(&self) -> bool;

    /// Reads exactly `len` bytes of `name` from byte `offset` on. A file that
    /// is shorter is an error.
    fn read_at(&self, name: &[u8], offset: u64, len: usize) -> (r: Result<Vec<u8>>)
        ensures
            match r {
                Ok(b) => {
                    &&& self.files().contains_key(name@)
                    &&& offset + len <= self.files()[name@].len()
                    &&& b@ == self.files()[name@].subrange(offset as int, offset + len)
                },
                Err(e) => {
                    &&& e is Io
                    &&& self.is_reliable() ==> !self.files().contains_key(name@) || offset + len
                        > self.files()[name@].len()
                },
            },
    ;

    /// Length of `name` in bytes.
    fn len(&self, name: &[u8]) -> (r: Result<u64>)
        ensures
            match r {
                Ok(n) => self.files().contains_key(name@) && n == self.files()[name@].len(),
                Err(e) => e is Io && (self.is_reliable() ==> !self.files().contains_key(name@)),
            },
    ;

    /// True if `name` has no bytes.
    fn is_empty(&self, name: &[u8]) -> (r: Result<bool>)
        ensures
            match r {
                Ok(b) => self.files().contains_key(name@) && b == (self.files()[name@].len() == 0),
                Err(e) => e is Io && (self.is_reliable() ==> !self.files().contains_key(name@)),
            },
    {
        match self.len(name) {
            Ok(n) => Ok(n == 0),
            Err(e) => Err(e),
        }
    }
}

/// Sequential writes at the end of files.
pub trait FileAppend: FileRead {
    /// Appends `bytes` to `name`. Nothing is durable before
    /// [`sync`](Self::sync) returns. A failed write may leave a part of
    /// `bytes` behind.
    fn append(&mut self, name: &[u8], bytes: &[u8]) -> (r: Result<()>)
        ensures
            match r {
                Ok(_) => {
                    &&& old(self).files().contains_key(name@)
                    &&& final(self).files() == old(self).files().insert(
                        name@,
                        old(self).files()[name@] + bytes@,
                    )
                },
                Err(e) => {
                    &&& e is Io
                    &&& torn_append(old(self).files(), name@, bytes@, final(self).files())
                    &&& old(self).is_reliable() ==> !old(self).files().contains_key(name@)
                },
            },
            final(self).is_reliable() == old(self).is_reliable(),
            forall|o: Seq<u8>|
                o != name@ && old(self).is_synced(o) ==> #[trigger] final(self).is_synced(o),
            forall|o: Seq<u8>| old(self).is_linked(o) ==> #[trigger] final(self).is_linked(o),
    ;

    /// Forces all bytes appended to `name` to stable storage.
    fn sync(&mut self, name: &[u8]) -> (r: Result<()>)
        ensures
            final(self).files() == old(self).files(),
            match r {
                Ok(_) => old(self).files().contains_key(name@) && final(self).is_synced(name@),
                Err(e) => e is Io && (old(self).is_reliable() ==> !old(self).files().contains_key(
                    name@,
                )),
            },
            final(self).is_reliable() == old(self).is_reliable(),
            forall|o: Seq<u8>| old(self).is_synced(o) ==> #[trigger] final(self).is_synced(o),
            forall|o: Seq<u8>| old(self).is_linked(o) ==> #[trigger] final(self).is_linked(o),
    ;
}

/// The files of a directory and the directory itself.
pub trait Io: FileAppend {
    /// Opens `name` for append; creates it empty if it does not exist.
    fn open_append(&mut self, name: &[u8]) -> (r: Result<()>)
        ensures
            r is Ok ==> final(self).files().contains_key(name@),
            final(self).files() == old(self).files() || (!old(self).files().contains_key(name@)
                && final(self).files() == old(self).files().insert(name@, Seq::empty())),
            r matches Err(e) ==> e is Io && !old(self).is_reliable(),
            final(self).is_reliable() == old(self).is_reliable(),
            forall|o: Seq<u8>|
                (o != name@ || old(self).files().contains_key(name@)) && old(self).is_synced(o)
                    ==> #[trigger] final(self).is_synced(o),
            forall|o: Seq<u8>|
                (o != name@ || old(self).files().contains_key(name@)) && old(self).is_linked(o)
                    ==> #[trigger] final(self).is_linked(o),
    ;

    /// Opens the existing file `name` for reads.
    fn open_read(&self, name: &[u8]) -> (r: Result<()>)
        ensures
            match r {
                Ok(_) => self.files().contains_key(name@),
                Err(e) => e is Io && (self.is_reliable() ==> !self.files().contains_key(name@)),
            },
    ;

    /// Forces the entries of the directory `dir` to stable storage.
    fn sync_dir(&mut self, dir: &str) -> (r: Result<()>)
        ensures
            final(self).files() == old(self).files(),
            match r {
                Ok(_) => forall|o: Seq<u8>|
                    old(self).files().contains_key(o) ==> #[trigger] final(self).is_linked(o),
                Err(e) => e is Io && !old(self).is_reliable(),
            },
            final(self).is_reliable() == old(self).is_reliable(),
            forall|o: Seq<u8>| old(self).is_synced(o) ==> #[trigger] final(self).is_synced(o),
            forall|o: Seq<u8>| old(self).is_linked(o) ==> #[trigger] final(self).is_linked(o),
    ;

    /// Creates the directory `dir` and its parents. Idempotent.
    fn create_dir_all(&mut self, dir: &str) -> (r: Result<()>)
        ensures
            final(self).files() == old(self).files(),
            r matches Err(e) ==> e is Io && !old(self).is_reliable(),
            final(self).is_reliable() == old(self).is_reliable(),
            forall|o: Seq<u8>| old(self).is_synced(o) ==> #[trigger] final(self).is_synced(o),
            forall|o: Seq<u8>| old(self).is_linked(o) ==> #[trigger] final(self).is_linked(o),
    ;

    /// Atomically renames `from` to `to`; a file named `to` is replaced.
    fn rename(&mut self, from: &[u8], to: &[u8]) -> (r: Result<()>)
        ensures
            match r {
                Ok(_) => {
                    &&& old(self).files().contains_key(from@)
                    &&& final(self).files() == old(self).files().remove(from@).insert(
                        to@,
                        old(self).files()[from@],
                    )
                    &&& old(self).is_synced(from@) ==> final(self).is_synced(to@)
                },
                Err(e) => {
                    &&& e is Io
                    &&& final(self).files() == old(self).files()
                    &&& old(self).is_reliable() ==> !old(self).files().contains_key(from@)
                },
            },
            final(self).is_reliable() == old(self).is_reliable(),
            forall|o: Seq<u8>|
                o != from@ && o != to@ && old(self).is_synced(o) ==>
                    #[trigger] final(self).is_synced(o),
            forall|o: Seq<u8>|
                o != from@ && o != to@ && old(self).is_linked(o) ==>
                    #[trigger] final(self).is_linked(o),
    ;

    /// Deletes `name`. A file that does not exist is an error.
    fn remove_file(&mut self, name: &[u8]) -> (r: Result<()>)
        ensures
            match r {
                Ok(_) => {
                    &&& old(self).files().contains_key(name@)
                    &&& final(self).files() == old(self).files().remove(name@)
                },
                Err(e) => {
                    &&& e is Io
                    &&& final(self).files() == old(self).files()
                    &&& old(self).is_reliable() ==> !old(self).files().contains_key(name@)
                },
            },
            final(self).is_reliable() == old(self).is_reliable(),
            forall|o: Seq<u8>|
                (o != name@ || r is Err) && old(self).is_synced(o) ==> #[trigger] final(self).is_synced(o),
            forall|o: Seq<u8>|
                (o != name@ || r is Err) && old(self).is_linked(o) ==> #[trigger] final(self).is_linked(o),
    ;

    /// The names of the files of the directory `dir`, each once.
    fn list_dir(&self, dir: &str) -> (r: Result<Vec<Vec<u8>>>)
        ensures
            match r {
                Ok(names) => lists(names@, self.files()),
                Err(e) => e is Io && !self.is_reliable(),
            },
    ;
}

/// `names` holds the name of every file, each once, and nothing else.
pub open spec fn lists(names: Seq<Vec<u8>>, files: Files) -> bool {
    &&& forall|i: int| 0 <= i < names.len() ==> files.contains_key((#[trigger] names[i])@)
    &&& forall|n: Seq<u8>| #[trigger]
        files.contains_key(n) ==> exists|i: int|
            0 <= i < names.len() && (#[trigger] names[i])@ == n
    &&& forall|i: int, j: int|
        0 <= i < j < names.len() ==> (#[trigger] names[i])@ != (#[trigger] names[j])@
}

} // verus!
