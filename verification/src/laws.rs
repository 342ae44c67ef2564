//! Laws of the storage engine and the resolver, proved over the abstract
//! model that the executable functions are specified against.

use vstd::prelude::*;

use crate::path::{apply_seg, spec_resolve, walk_frag};
use crate::vfs::{read_window, write_bytes, RegModel, SlotModel};

verus! {

/// After a directory is created at `p`, `p` denotes a directory, and the
/// slot stored there is a directory marker — so a handle opened at `p`
/// refers to a directory slot, and reading or writing through it fails
/// with `PermissionDenied` by the read/write contracts.
pub proof fn lemma_create_dir_is_directory(m: RegModel, p: Seq<Seq<char>>)
    ensures
        m.create_dir(p).is_dir(p),
        m.create_dir(p).lookup(p) == Some(SlotModel::Dir),
        m.create_dir(p).table[p] == m.next,
{
}

/// A freshly created file is empty, and a read of an empty content yields
/// zero bytes whatever the cursor and destination capacity.
pub proof fn lemma_create_then_read_empty(m: RegModel, p: Seq<Seq<char>>, pos: int, cap: int)
    requires
        0 <= pos,
    ensures
        m.create_file(p).lookup(p) == Some(SlotModel::Bytes(Seq::<u8>::empty())),
        read_window(Seq::<u8>::empty(), pos, cap) == Seq::<u8>::empty(),
{
}

/// Writing then reading back: after creating a file at `p` and writing
/// `b` through the fresh handle (slot `m.next`, cursor 0), the slot at `p`
/// holds exactly `b`, and a read at cursor 0 into a destination of
/// capacity at least `b.len()` yields exactly `b`.
pub proof fn lemma_write_read_round_trip(m: RegModel, p: Seq<Seq<char>>, b: Seq<u8>, cap: int)
    requires
        cap >= b.len(),
    ensures
        m.create_file(p).write_at(m.next, 0, b).lookup(p) == Some(SlotModel::Bytes(b)),
        read_window(b, 0, cap) == b,
{
    assert(write_bytes(Seq::<u8>::empty(), 0, b) =~= b);
    assert(read_window(b, 0, cap) =~= b);
}

/// A second write at the same cursor replaces the tail the
/// first write left there, so the final length is `pos + b2.len()`
/// whenever the cursor is within the content the first write produced.
pub proof fn lemma_write_truncates(content: Seq<u8>, pos: int, b1: Seq<u8>, b2: Seq<u8>)
    requires
        0 <= pos,
        pos <= write_bytes(content, pos, b1).len(),
    ensures
        write_bytes(write_bytes(content, pos, b1), pos, b2).len() == pos + b2.len(),
{
}

/// When the cursor lies within the original content, a second write at the
/// same cursor erases the first entirely.
pub proof fn lemma_second_write_replaces(content: Seq<u8>, pos: int, b1: Seq<u8>, b2: Seq<u8>)
    requires
        0 <= pos <= content.len(),
    ensures
        write_bytes(write_bytes(content, pos, b1), pos, b2) == write_bytes(content, pos, b2),
{
    assert(write_bytes(content, pos, b1).take(pos) =~= content.take(pos));
    assert(write_bytes(write_bytes(content, pos, b1), pos, b2) =~= write_bytes(
        content,
        pos,
        b2,
    ));
}

/// Resolving the self fragment `.` leaves the current directory unchanged.
pub proof fn lemma_resolve_self(cwd: Seq<Seq<char>>)
    ensures
        spec_resolve(cwd, "."@) == cwd,
{
    reveal_strlit(".");
    let frag = "."@;
    let s1 = Seq::<char>::empty().push('.');
    assert(frag.skip(1) =~= Seq::<char>::empty());
    assert(spec_resolve(cwd, frag) == walk_frag(cwd, s1, frag.skip(1)));
    assert(s1 =~= seq!['.']);
    assert(apply_seg(cwd, s1) == cwd);
}

/// Resolving the parent fragment `..` removes the last segment, and is a
/// no-op at the root: it never underflows and never fails.
pub proof fn lemma_resolve_parent(cwd: Seq<Seq<char>>)
    ensures
        spec_resolve(cwd, ".."@) == (if cwd.len() == 0 {
            cwd
        } else {
            cwd.drop_last()
        }),
{
    reveal_strlit("..");
    let frag = ".."@;
    let s1 = Seq::<char>::empty().push('.');
    let s2 = s1.push('.');
    assert(frag.skip(1).skip(1) =~= Seq::<char>::empty());
    assert(frag.skip(1)[0] == frag[1]);
    assert(spec_resolve(cwd, frag) == walk_frag(cwd, s1, frag.skip(1)));
    assert(walk_frag(cwd, s1, frag.skip(1)) == walk_frag(cwd, s2, frag.skip(1).skip(1)));
    assert(s2 =~= seq!['.', '.']);
    assert(s2.len() != 1);
    assert(apply_seg(cwd, s2) == (if cwd.len() == 0 {
        cwd
    } else {
        cwd.drop_last()
    }));
}

/// At the root, resolving `..` leaves the current directory at the root.
pub proof fn lemma_resolve_parent_at_root()
    ensures
        spec_resolve(Seq::<Seq<char>>::empty(), ".."@) == Seq::<Seq<char>>::empty(),
{
    lemma_resolve_parent(Seq::<Seq<char>>::empty());
}

/// When the entry at `p` is replaced by a new file,
/// the slot the old entry owned dies — the registry held its only strong
/// reference — so a handle that named it fails with `NotFound` by the
/// read/write contracts, while the fresh slot is live at `p`.
pub proof fn lemma_create_expires_old_handles(m: RegModel, p: Seq<Seq<char>>)
    requires
        m.inv(),
        m.table.dom().contains(p),
    ensures
        !m.create_file(p).live(m.table[p]),
        m.create_file(p).table[p] == m.next,
        m.create_file(p).live(m.next),
{
}

/// Installing a slot at a nonempty canonical path preserves the model
/// invariant: this is the transition `create` and `create_directory` take.
pub proof fn lemma_upsert_preserves_inv(m: RegModel, p: Seq<Seq<char>>, s: SlotModel)
    requires
        m.inv(),
        crate::path::path_wf(p),
        p.len() > 0,
    ensures
        m.upsert(p, s).inv(),
{
    let m2 = m.upsert(p, s);
    assert forall|q: Seq<Seq<char>>| #[trigger] m2.table.dom().contains(q) implies
        crate::path::path_wf(q) && q.len() > 0 && 0 <= m2.table[q] < m2.next
        && m2.slots.dom().contains(m2.table[q]) by {
        if q != p {
            assert(m.table.dom().contains(q));
            if m.table.dom().contains(p) {
                assert(m.table[q] != m.table[p]);
            }
        }
    }
    assert forall|id: int| #[trigger] m2.slots.dom().contains(id) implies 0 <= id < m2.next
        && exists|q: Seq<Seq<char>>| #[trigger] m2.table.dom().contains(q) && m2.table[q]
        == id by {
        if id == m.next {
            assert(m2.table.dom().contains(p) && m2.table[p] == id);
        } else {
            assert(m.slots.dom().contains(id));
            let q = choose|q: Seq<Seq<char>>| #[trigger]
                m.table.dom().contains(q) && m.table[q] == id;
            assert(q != p);
            assert(m2.table.dom().contains(q) && m2.table[q] == id);
        }
    }
}

/// Overwriting the content of a live slot preserves the model invariant:
/// this is the transition a successful `write` takes.
pub proof fn lemma_write_preserves_inv(m: RegModel, id: int, pos: int, data: Seq<u8>)
    requires
        m.inv(),
        m.live(id),
    ensures
        m.write_at(id, pos, data).inv(),
{
    let m2 = m.write_at(id, pos, data);
    assert(m2.slots.dom() =~= m.slots.dom());
    assert forall|q: Seq<Seq<char>>| #[trigger] m2.table.dom().contains(q) implies
        crate::path::path_wf(q) && q.len() > 0 && 0 <= m2.table[q] < m2.next
        && m2.slots.dom().contains(m2.table[q]) by {
        assert(m.table.dom().contains(q));
    }
    assert forall|i: int| #[trigger] m2.slots.dom().contains(i) implies 0 <= i < m2.next
        && exists|q: Seq<Seq<char>>| #[trigger] m2.table.dom().contains(q) && m2.table[q]
        == i by {
        assert(m.slots.dom().contains(i));
        let q = choose|q: Seq<Seq<char>>| #[trigger] m.table.dom().contains(q) && m.table[q] == i;
        assert(m2.table.dom().contains(q) && m2.table[q] == i);
    }
}

} // verus!
