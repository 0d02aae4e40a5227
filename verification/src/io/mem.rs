//! A backend that keeps its files in memory.

use super::{FileAppend, FileRead, Files, Io};
use crate::assoc;
use crate::codec::{copy_bytes, copy_range, push_bytes};
use crate::error::{Error, Result};
use crate::keymap::KeyMap;
use crate::order;
use vstd::prelude::*;

verus! {

/// Makes a `std::io::Error` by `std::io::Error::from` of
/// `ErrorKind::NotFound`. Nothing is claimed of it.
#[verifier::external_body]
fn not_found() -> (e: std::io::Error) {
    std::io::Error::from(std::io::ErrorKind::NotFound)
}

/// Makes a `std::io::Error` by `std::io::Error::from` of
/// `ErrorKind::UnexpectedEof`. Nothing is claimed of it.
#[verifier::external_body]
fn unexpected_eof() -> (e: std::io::Error) {
    std::io::Error::from(std::io::ErrorKind::UnexpectedEof)
}

/// Files in memory. What was written is there until it is removed, so that
/// every file counts as synced and linked.
#[derive(Debug)]
pub struct MemFs {
    map: KeyMap<Vec<u8>>,
}

impl MemFs {
    #[verifier::type_invariant]
    closed spec fn inv(&self) -> bool {
        self.map.wf()
    }

    /// No files.
    pub fn new() -> (fs: MemFs)
        ensures
            fs.files() == Map::<Seq<u8>, Seq<u8>>::empty(),
    {
        let map = KeyMap::new();
        assert(assoc::pairs_map(map.pairs()) =~= Map::<Seq<u8>, Seq<u8>>::empty());
        MemFs { map }
    }

    /// The content of `name`.
    pub fn content(&self, name: &[u8]) -> (r: Option<Vec<u8>>)
        ensures
            match r {
                Some(b) => self.files().contains_key(name@) && b@ == self.files()[name@],
                None => !self.files().contains_key(name@),
            },
    {
        proof {
            use_type_invariant(self);
        }
        match self.map.get(name) {
            Some(b) => Some(copy_bytes(b.as_slice())),
            None => None,
        }
    }

    /// Replaces the content of `name`.
    pub fn store(&mut self, name: &[u8], bytes: Vec<u8>)
        ensures
            final(self).files() == old(self).files().insert(name@, bytes@),
    {
        proof {
            use_type_invariant(&*self);
        }
        let mut map = KeyMap::new();
        std::mem::swap(&mut map, &mut self.map);
        let ghost before = map.pairs();
        let ghost b = bytes@;
        let _replaced = map.insert(copy_bytes(name), bytes);
        proof {
            lemma_map_set(before, name@, b, map.pairs());
        }
        self.map = map;
    }

    /// Removes `name`; false if there is none.
    fn discard(&mut self, name: &[u8]) -> (r: bool)
        ensures
            r == old(self).files().contains_key(name@),
            final(self).files() == old(self).files().remove(name@),
    {
        proof {
            use_type_invariant(&*self);
        }
        let mut map = KeyMap::new();
        std::mem::swap(&mut map, &mut self.map);
        let ghost before = map.pairs();
        let removed = map.remove(name);
        proof {
            lemma_map_remove(before, name@, map.pairs());
        }
        self.map = map;
        removed.is_some()
    }
}

proof fn lemma_map_set<V>(s: Seq<(Seq<u8>, V)>, k: Seq<u8>, v: V, t: Seq<(Seq<u8>, V)>)
    requires
        forall|o: Seq<u8>| #[trigger]
            assoc::find(t, o) == (if o == k {
                Some(v)
            } else {
                assoc::find(s, o)
            }),
    ensures
        assoc::pairs_map(t) == assoc::pairs_map(s).insert(k, v),
{
    assert forall|o: Seq<u8>| #[trigger] assoc::has_key(t, o) == (o == k || assoc::has_key(s, o)) by {
        assert(assoc::find(t, o) is Some == assoc::has_key(t, o));
        assert(assoc::find(s, o) is Some == assoc::has_key(s, o));
    }
    assert(assoc::pairs_map(t) =~= assoc::pairs_map(s).insert(k, v));
}

proof fn lemma_map_remove<V>(s: Seq<(Seq<u8>, V)>, k: Seq<u8>, t: Seq<(Seq<u8>, V)>)
    requires
        forall|o: Seq<u8>| #[trigger]
            assoc::find(t, o) == (if o == k {
                None
            } else {
                assoc::find(s, o)
            }),
    ensures
        assoc::pairs_map(t) == assoc::pairs_map(s).remove(k),
{
    assert forall|o: Seq<u8>| #[trigger] assoc::has_key(t, o) == (o != k && assoc::has_key(s, o)) by {
        assert(assoc::find(t, o) is Some == assoc::has_key(t, o));
        assert(assoc::find(s, o) is Some == assoc::has_key(s, o));
    }
    assert(assoc::pairs_map(t) =~= assoc::pairs_map(s).remove(k));
}

impl Default for MemFs {
    fn default() -> (fs: Self)
        ensures
            fs.files() == Map::<Seq<u8>, Seq<u8>>::empty(),
    {
        MemFs::new()
    }
}

impl FileRead for MemFs {
    closed spec fn files(&self) -> Files {
        self.map.map()
    }

    open spec fn is_synced(&self, name: Seq<u8>) -> bool {
        true
    }

    open spec fn is_linked(&self, name: Seq<u8>) -> bool {
        true
    }

    /// Memory does not fail.
    open spec fn is_reliable(&self) -> bool {
        true
    }

    fn read_at(&self, name: &[u8], offset: u64, len: usize) -> (r: Result<Vec<u8>>) {
        proof {
            use_type_invariant(self);
        }
        match self.map.get(name) {
            Some(b) => {
                let n: u64 = b.len() as u64;
                if offset > n || len as u64 > n - offset {
                    return Err(Error::Io(unexpected_eof()));
                }
                let from: usize = offset as usize;
                Ok(copy_range(b.as_slice(), from, from + len))
            },
            None => Err(Error::Io(not_found())),
        }
    }

    fn len(&self, name: &[u8]) -> (r: Result<u64>) {
        proof {
            use_type_invariant(self);
        }
        match self.map.get(name) {
            Some(b) => Ok(b.len() as u64),
            None => Err(Error::Io(not_found())),
        }
    }
}

impl FileAppend for MemFs {
    fn append(&mut self, name: &[u8], bytes: &[u8]) -> (r: Result<()>) {
        match self.content(name) {
            Some(mut b) => {
                push_bytes(&mut b, bytes);
                self.store(name, b);
                Ok(())
            },
            None => Err(Error::Io(not_found())),
        }
    }

    fn sync(&mut self, name: &[u8]) -> (r: Result<()>) {
        match FileRead::len(&*self, name) {
            Ok(_) => Ok(()),
            Err(e) => Err(e),
        }
    }
}

impl Io for MemFs {
    fn open_append(&mut self, name: &[u8]) -> (r: Result<()>) {
        match self.content(name) {
            Some(_) => Ok(()),
            None => {
                self.store(name, Vec::new());
                Ok(())
            },
        }
    }

    fn open_read(&self, name: &[u8]) -> (r: Result<()>) {
        match FileRead::len(self, name) {
            Ok(_) => Ok(()),
            Err(e) => Err(e),
        }
    }

    fn sync_dir(&mut self, _dir: &str) -> (r: Result<()>) {
        Ok(())
    }

    fn create_dir_all(&mut self, _dir: &str) -> (r: Result<()>) {
        Ok(())
    }

    fn rename(&mut self, from: &[u8], to: &[u8]) -> (r: Result<()>) {
        match self.content(from) {
            Some(b) => {
                let _existed = self.discard(from);
                self.store(to, b);
                Ok(())
            },
            None => Err(Error::Io(not_found())),
        }
    }

    fn remove_file(&mut self, name: &[u8]) -> (r: Result<()>) {
        if self.discard(name) {
            Ok(())
        } else {
            assert(self.files() =~= old(self).files());
            Err(Error::Io(not_found()))
        }
    }

    fn list_dir(&self, _dir: &str) -> (r: Result<Vec<Vec<u8>>>) {
        proof {
            use_type_invariant(self);
        }
        let mut names: Vec<Vec<u8>> = Vec::new();
        let n = self.map.len();
        for i in 0..n
            invariant
                n == self.map.pairs().len(),
                names@.len() == i,
                forall|j: int| 0 <= j < i ==> (#[trigger] names@[j])@ == self.map.pairs()[j].0,
        {
            names.push(copy_bytes(self.map.key_at(i).as_slice()));
        }
        proof {
            let p = self.map.pairs();
            assert forall|i: int| 0 <= i < names@.len() implies self.files().contains_key(
                (#[trigger] names@[i])@,
            ) by {
                assert(p[i].0 == names@[i]@);
                assert(assoc::has_key(p, p[i].0));
            }
            assert forall|k: Seq<u8>| #[trigger] self.files().contains_key(k) implies exists|i: int|
                0 <= i < names@.len() && (#[trigger] names@[i])@ == k by {
                assert(assoc::has_key(p, k));
                let i = choose|i: int| 0 <= i < p.len() && (#[trigger] p[i]).0 == k;
                assert(names@[i]@ == k);
            }
            assert forall|i: int, j: int| 0 <= i < j < names@.len() implies (#[trigger] names@[i])@
                != (#[trigger] names@[j])@ by {
                order::lemma_key_irreflexive(p[i].0);
                assert(order::key_less(p[i].0, p[j].0));
            }
        }
        Ok(names)
    }
}

} // verus!
