//! Writing snapshots of the vector index.

use crate::engine::lsm;
use crate::engine::lsm::snapshots;
use crate::engine::lsm::snapshots::remove_snapshots;
use crate::engine::names;
use crate::engine::names::{snapshot_filename, tmp_filename};
use crate::engine::vector::VectorIndex;
use crate::error::Result;
use crate::hnsw::snapshot;
use crate::io;
use crate::io::Io;
use vstd::prelude::*;

verus! {

/// A file that belongs to the snapshots: one of them, or a temporary file with
/// their letter.
pub open spec fn is_snapshot_name(n: Seq<u8>) -> bool {
    &&& n.len() > 0
    &&& n[0] == 104u8
    &&& names::parse_snapshot(n) is Some || names::extension(n) == Some(names::tmp_ext())
}

/// Writes a snapshot of `index` to a temporary file and renames it; then
/// removes the snapshots with other numbers, as far as that works; a reliable
/// backend removes all of them. `next_sstable_id` says
/// which tables the snapshot reflects: those with smaller numbers.
pub(crate) fn write_snapshot<I: Io>(
    io: &mut I,
    dir: &str,
    index: &VectorIndex,
    next_sstable_id: u64,
) -> (r: Result<()>)
    ensures
        match r {
            Ok(_) => {
                let n = names::snapshot_name(next_sstable_id);
                let tmp = names::tmp_name(n);
                &&& final(io).files().contains_key(n)
                &&& final(io).files()[n] == (if old(io).files().contains_key(tmp) {
                    old(io).files()[tmp]
                } else {
                    Seq::empty()
                }) + snapshot::snapshot_bytes(index.graph().snapshot(next_sstable_id, index.keys()))
                &&& final(io).is_synced(n)
                &&& final(io).is_linked(n)
                &&& forall|o: Seq<u8>| #[trigger]
                    final(io).files().contains_key(o) && o != n ==> old(io).files().contains_key(o)
                        && final(io).files()[o] == old(io).files()[o]
                &&& forall|o: Seq<u8>| #[trigger]
                    old(io).files().contains_key(o) && !final(io).files().contains_key(o) ==> o
                        == tmp || snapshots::is_stale(o, n, Some(next_sstable_id))
                &&& !final(io).files().contains_key(tmp)
                &&& old(io).is_reliable() ==> snapshots::none_stale(
                    final(io).files(),
                    n,
                    Some(next_sstable_id),
                )
            },
            Err(e) => e is Io && !old(io).is_reliable(),
        },
        r is Err ==> forall|o: Seq<u8>|
            o != names::snapshot_name(next_sstable_id) && o != names::tmp_name(
                names::snapshot_name(next_sstable_id),
            ) ==> #[trigger] lsm::agree(old(io).files(), final(io).files(), o),
        final(io).is_reliable() == old(io).is_reliable(),
        forall|n: Seq<u8>|
            !is_snapshot_name(n) ==> #[trigger] lsm::agree(old(io).files(), final(io).files(), n),
        forall|o: Seq<u8>|
            !is_snapshot_name(o) && old(io).is_synced(o) ==> #[trigger] final(io).is_synced(o),
        forall|o: Seq<u8>|
            !is_snapshot_name(o) && old(io).is_linked(o) ==> #[trigger] final(io).is_linked(o),
{
    let ghost files = io.files();
    let bytes = index.encode(next_sstable_id);
    let filename = snapshot_filename(next_sstable_id);
    let tmp = tmp_filename(filename.as_slice());
    let ghost n = names::snapshot_name(next_sstable_id);
    proof {
        names::lemma_snapshot_name(next_sstable_id);
        names::lemma_tmp_name(n);
        names::lemma_names_differ(0, next_sstable_id, n);
        assert(n[0] == names::snapshot_prefix()[0]);
        assert(tmp@[0] == n[0]);
    }
    match io.open_append(tmp.as_slice()) {
        Ok(_) => {},
        Err(e) => {
            return Err(e);
        },
    }
    let ghost opened = io.files();
    proof {
        assert(opened[tmp@] == (if files.contains_key(tmp@) {
            files[tmp@]
        } else {
            Seq::empty()
        }));
    }
    match io.append(tmp.as_slice(), bytes.as_slice()) {
        Ok(_) => {},
        Err(e) => {
            return Err(e);
        },
    }
    match io.sync(tmp.as_slice()) {
        Ok(_) => {},
        Err(e) => {
            return Err(e);
        },
    }
    match io.rename(tmp.as_slice(), filename.as_slice()) {
        Ok(_) => {},
        Err(e) => {
            return Err(e);
        },
    }
    match io.sync_dir(dir) {
        Ok(_) => {},
        Err(e) => {
            return Err(e);
        },
    }
    let ghost written = io.files();
    proof {
        assert(written[n] == opened[tmp@] + bytes@);
        assert(!written.contains_key(tmp@));
        assert forall|o: Seq<u8>| #[trigger] files.contains_key(o) && o
            != tmp@ implies written.contains_key(o) by {
            assert(opened.contains_key(o));
        }
        assert forall|o: Seq<u8>| names::parse_snapshot(o) is Some implies #[trigger]
            is_snapshot_name(o) by {
            snapshots::lemma_snapshot_is_other(o);
        }
        assert forall|o: Seq<u8>| !is_snapshot_name(o) implies #[trigger] lsm::agree(
            files,
            written,
            o,
        ) by {}
    }
    match io.list_dir(dir) {
        Ok(listed) => {
            remove_snapshots(io, &listed, filename.as_slice(), Some(next_sstable_id));
            proof {
                assert(written.contains_key(n));
                assert(io.files().contains_key(n));
                assert forall|o: Seq<u8>| io.is_reliable() && #[trigger] snapshots::is_stale(
                    o,
                    n,
                    Some(next_sstable_id),
                ) implies !io.files().contains_key(o) by {
                    if io.files().contains_key(o) {
                        assert(written.contains_key(o));
                        let j = choose|j: int|
                            0 <= j < listed@.len() && (#[trigger] listed@[j])@ == o;
                    }
                }
                assert forall|o: Seq<u8>| !is_snapshot_name(o) implies #[trigger] lsm::agree(
                    files,
                    io.files(),
                    o,
                ) by {
                    assert(lsm::agree(files, written, o));
                    assert(names::parse_snapshot(o) is None);
                }
            }
        },
        Err(_) => {},
    }
    proof {
        assert forall|o: Seq<u8>| #[trigger] files.contains_key(o) && !io.files().contains_key(
            o,
        ) implies o == tmp@ || snapshots::is_stale(o, n, Some(next_sstable_id)) by {
            if o != tmp@ {
                assert(written.contains_key(o));
            }
        }
    }
    Ok(())
}

} // verus!
