//! Roots and views. A root owns one document for the lifetime of one
//! pipeline step; a view is pure data — a root id plus a navigation path —
//! and every access walks the path at the moment of the call. A runtime
//! single-writer / multi-reader check guards each root.

use vstd::prelude::*;

use crate::Fault;
use crate::ops::{doc_get, doc_take, doc_write, opt_key_model, resolve_in, take_in, write_in};
use crate::path::{PathElement, PathModel, clone_path, path_model};
use crate::value::{DocModel, DocValue};

verus! {

broadcast use vstd::std_specs::vec::group_vec_axioms;

/// One root: an owned document plus its outstanding-borrow bookkeeping.
pub struct RootSlot {
    pub value: DocValue,
    pub readers: usize,
    pub writer: bool,
}

/// The arena of roots shared by all views of one pipeline invocation.
pub struct Store {
    pub slots: Vec<RootSlot>,
}

/// A handle into a shared root: a root id plus a path of navigation
/// steps. Aliasing is by data, never by pointers.
pub struct DocView {
    pub root: usize,
    pub path: Vec<PathElement>,
}

impl Store {
    /// How many roots this store holds.
    pub open spec fn num_roots(self) -> int {
        self.slots@.len() as int
    }

    /// The document owned by root `r`.
    pub open spec fn doc_at(self, r: int) -> DocModel {
        self.slots@[r].value@
    }

    /// Outstanding immutable borrows of root `r`.
    pub open spec fn readers_at(self, r: int) -> int {
        self.slots@[r].readers as int
    }

    /// Whether a mutable borrow of root `r` is outstanding.
    pub open spec fn writer_at(self, r: int) -> bool {
        self.slots@[r].writer
    }

    /// An empty store.
    pub fn new() -> (s: Store)
        ensures
            s.num_roots() == 0,
    {
        Store { slots: Vec::new() }
    }

    /// How many roots this store holds.
    pub fn root_count(&self) -> (n: usize)
        ensures
            n as int == self.num_roots(),
    {
        self.slots.len()
    }

    /// Wraps a document into a fresh root and hands back the top-level
    /// view onto it. Existing roots are untouched.
    pub fn new_root(&mut self, v: DocValue) -> (w: DocView)
        ensures
            final(self).num_roots() == old(self).num_roots() + 1,
            forall|q: int|
                0 <= q < old(self).num_roots()
                    ==> final(self).slots@[q] == old(self).slots@[q],
            w.root as int == old(self).num_roots(),
            w.path@.len() == 0,
            final(self).doc_at(w.root as int) == v@,
            final(self).readers_at(w.root as int) == 0,
            !final(self).writer_at(w.root as int),
    {
        let root = self.slots.len();
        self.slots.push(RootSlot { value: v, readers: 0, writer: false });
        DocView { root, path: Vec::new() }
    }

    /// Acquires an immutable borrow of root `r`: succeeds exactly when no
    /// mutable borrow is outstanding and the reader count has room.
    pub fn try_borrow(&mut self, r: usize) -> (ok: bool)
        requires
            (r as int) < old(self).num_roots(),
        ensures
            final(self).num_roots() == old(self).num_roots(),
            forall|q: int|
                0 <= q < old(self).num_roots() && q != r as int
                    ==> final(self).slots@[q] == old(self).slots@[q],
            ok == (!old(self).writer_at(r as int) && old(self).readers_at(r as int)
                < usize::MAX as int),
            final(self).doc_at(r as int) == old(self).doc_at(r as int),
            final(self).writer_at(r as int) == old(self).writer_at(r as int),
            ok ==> final(self).readers_at(r as int) == old(self).readers_at(r as int) + 1,
            !ok ==> final(self).readers_at(r as int) == old(self).readers_at(r as int),
    {
        let mut slot = self.slots.remove(r);
        let ok = !slot.writer && slot.readers < usize::MAX;
        if ok {
            slot.readers = slot.readers + 1;
        }
        self.slots.insert(r, slot);
        proof {
            assert(self.slots@ =~= if ok {
                old(self).slots@.update(
                    r as int,
                    RootSlot {
                        readers: (old(self).slots@[r as int].readers + 1) as usize,
                        ..old(self).slots@[r as int]
                    },
                )
            } else {
                old(self).slots@
            });
        }
        ok
    }

    /// Releases one immutable borrow of root `r`; a no-op when none is
    /// outstanding.
    pub fn release_borrow(&mut self, r: usize) -> (released: bool)
        requires
            (r as int) < old(self).num_roots(),
        ensures
            final(self).num_roots() == old(self).num_roots(),
            forall|q: int|
                0 <= q < old(self).num_roots() && q != r as int
                    ==> final(self).slots@[q] == old(self).slots@[q],
            released == (old(self).readers_at(r as int) > 0),
            final(self).doc_at(r as int) == old(self).doc_at(r as int),
            final(self).writer_at(r as int) == old(self).writer_at(r as int),
            released ==> final(self).readers_at(r as int) == old(self).readers_at(r as int) - 1,
            !released ==> final(self).readers_at(r as int) == old(self).readers_at(r as int),
    {
        let mut slot = self.slots.remove(r);
        let released = slot.readers > 0;
        if released {
            slot.readers = slot.readers - 1;
        }
        self.slots.insert(r, slot);
        proof {
            assert(self.slots@ =~= if released {
                old(self).slots@.update(
                    r as int,
                    RootSlot {
                        readers: (old(self).slots@[r as int].readers - 1) as usize,
                        ..old(self).slots@[r as int]
                    },
                )
            } else {
                old(self).slots@
            });
        }
        released
    }

    /// Acquires the mutable borrow of root `r`: succeeds exactly when no
    /// borrow of any kind is outstanding. A second attempt while one is
    /// held must fail — the single-writer discipline.
    pub fn try_borrow_mut(&mut self, r: usize) -> (ok: bool)
        requires
            (r as int) < old(self).num_roots(),
        ensures
            final(self).num_roots() == old(self).num_roots(),
            forall|q: int|
                0 <= q < old(self).num_roots() && q != r as int
                    ==> final(self).slots@[q] == old(self).slots@[q],
            ok == (!old(self).writer_at(r as int) && old(self).readers_at(r as int) == 0),
            final(self).doc_at(r as int) == old(self).doc_at(r as int),
            final(self).readers_at(r as int) == old(self).readers_at(r as int),
            ok ==> final(self).writer_at(r as int),
            !ok ==> final(self).writer_at(r as int) == old(self).writer_at(r as int),
    {
        let mut slot = self.slots.remove(r);
        let ok = !slot.writer && slot.readers == 0;
        if ok {
            slot.writer = true;
        }
        self.slots.insert(r, slot);
        proof {
            assert(self.slots@ =~= if ok {
                old(self).slots@.update(
                    r as int,
                    RootSlot { writer: true, ..old(self).slots@[r as int] },
                )
            } else {
                old(self).slots@
            });
        }
        ok
    }

    /// Releases the mutable borrow of root `r`.
    pub fn release_borrow_mut(&mut self, r: usize)
        requires
            (r as int) < old(self).num_roots(),
        ensures
            final(self).num_roots() == old(self).num_roots(),
            forall|q: int|
                0 <= q < old(self).num_roots() && q != r as int
                    ==> final(self).slots@[q] == old(self).slots@[q],
            final(self).doc_at(r as int) == old(self).doc_at(r as int),
            final(self).readers_at(r as int) == old(self).readers_at(r as int),
            !final(self).writer_at(r as int),
    {
        let mut slot = self.slots.remove(r);
        slot.writer = false;
        self.slots.insert(r, slot);
        proof {
            assert(self.slots@ =~= old(self).slots@.update(
                r as int,
                RootSlot { writer: false, ..old(self).slots@[r as int] },
            ));
        }
    }
}

/// Two stores agree observably: same roots, same documents, same
/// outstanding-borrow bookkeeping.
pub open spec fn same_state(a: Store, b: Store) -> bool {
    a.num_roots() == b.num_roots() && forall|r: int|
        0 <= r < a.num_roots()
            ==> #[trigger] a.doc_at(r) == b.doc_at(r) && a.readers_at(r) == b.readers_at(r)
                && a.writer_at(r) == b.writer_at(r)
}

impl DocView {
    /// The path of this view at the model level.
    pub open spec fn path_m(self) -> Seq<PathModel> {
        path_model(self.path@)
    }

    /// A view is valid for a store when its root id is in range.
    pub open spec fn valid(self, s: Store) -> bool {
        (self.root as int) < s.num_roots()
    }

    /// What this view resolves to against a store, at the model level.
    pub open spec fn resolved(self, s: Store) -> Option<DocModel> {
        doc_get(s.doc_at(self.root as int), self.path_m())
    }

    /// A new view one step deeper, sharing this view's root: pure
    /// bookkeeping, no document is copied.
    pub fn subview(&self, elem: PathElement) -> (w: DocView)
        ensures
            w.root == self.root,
            w.path_m() == self.path_m().push(elem@),
    {
        let mut path = clone_path(&self.path);
        path.push(elem);
        proof {
            assert(path_model(path@) =~= path_model(self.path@).push(elem@));
        }
        DocView { root: self.root, path }
    }

    /// A structural copy of this view: same root, same path.
    pub fn duplicate(&self) -> (w: DocView)
        ensures
            w.root == self.root,
            w.path_m() == self.path_m(),
    {
        DocView { root: self.root, path: clone_path(&self.path) }
    }

    /// Immutable resolution: a copy of the document under this view's
    /// path. Fails with `BorrowConflict` while a mutable borrow of the
    /// root is outstanding, and with `PathResolutionFailure` when the
    /// path no longer leads anywhere. The store is never changed.
    pub fn resolve(&self, s: &Store) -> (r: Result<DocValue, Fault>)
        requires
            self.valid(*s),
        ensures
            s.writer_at(self.root as int) ==> r == Err::<DocValue, Fault>(Fault::BorrowConflict),
            !s.writer_at(self.root as int) ==> match r {
                Ok(v) => self.resolved(*s) == Some(v@),
                Err(f) => f == Fault::PathResolutionFailure && self.resolved(*s) is None,
            },
    {
        let slot = self.slots_at(s);
        if slot.writer {
            return Err(Fault::BorrowConflict);
        }
        match resolve_in(&slot.value, &self.path) {
            Some(node) => Ok(node.duplicate()),
            None => Err(Fault::PathResolutionFailure),
        }
    }

    /// Shared access to this view's root slot.
    fn slots_at<'a>(&self, s: &'a Store) -> (slot: &'a RootSlot)
        requires
            self.valid(*s),
        ensures
            *slot == s.slots@[self.root as int],
    {
        &s.slots[self.root]
    }

    /// Mutable write through this view: walks the path, then creates or
    /// overwrites the child named by `key` as `node_write` describes.
    /// Fails with `BorrowConflict` while any borrow of the root is
    /// outstanding; on any fault the store is unchanged. Other roots and
    /// the borrow bookkeeping are never touched.
    pub fn write_at(&self, s: &mut Store, key: Option<PathElement>, val: DocValue) -> (r: Result<
        (),
        Fault,
    >)
        requires
            self.valid(*old(s)),
        ensures
            final(s).num_roots() == old(s).num_roots(),
            forall|q: int|
                0 <= q < old(s).num_roots() && q != self.root as int
                    ==> final(s).slots@[q] == old(s).slots@[q],
            final(s).readers_at(self.root as int) == old(s).readers_at(self.root as int),
            final(s).writer_at(self.root as int) == old(s).writer_at(self.root as int),
            ({
                let before = old(s).doc_at(self.root as int);
                let after = final(s).doc_at(self.root as int);
                if old(s).writer_at(self.root as int) || old(s).readers_at(self.root as int) > 0 {
                    r == Err::<(), Fault>(Fault::BorrowConflict) && after == before
                } else {
                    match doc_write(before, self.path_m(), opt_key_model(key), val@) {
                        Ok(nd) => r == Ok::<(), Fault>(()) && after == nd,
                        Err(f) => r == Err::<(), Fault>(f) && after == before,
                    }
                }
            }),
            crate::value::doc_wf(old(s).doc_at(self.root as int)) && crate::value::doc_wf(val@)
                ==> crate::value::doc_wf(final(s).doc_at(self.root as int)),
    {
        proof {
            if crate::value::doc_wf(old(s).doc_at(self.root as int)) && crate::value::doc_wf(
                val@,
            ) {
                crate::laws::lemma_doc_write_wf(
                    old(s).doc_at(self.root as int),
                    self.path_m(),
                    opt_key_model(key),
                    val@,
                );
            }
        }
        let mut slot = self.remove_slot(s);
        if slot.writer || slot.readers > 0 {
            self.slots_put(s, slot);
            proof {
                assert(s.slots@ =~= old(s).slots@);
            }
            return Err(Fault::BorrowConflict);
        }
        let (value, st) = write_in(slot.value, &self.path, 0, &key, val);
        slot.value = value;
        self.slots_put(s, slot);
        proof {
            assert(path_model(self.path@).skip(0) =~= self.path_m());
            assert(s.slots@ =~= old(s).slots@.update(self.root as int, s.slots@[self.root as int]));
        }
        st
    }

    /// Removes this view's root slot from the store, to work on it.
    fn remove_slot(&self, s: &mut Store) -> (slot: RootSlot)
        requires
            self.valid(*old(s)),
        ensures
            slot == old(s).slots@[self.root as int],
            final(s).slots@ == old(s).slots@.remove(self.root as int),
    {
        s.slots.remove(self.root)
    }

    /// Puts this view's root slot back where `remove_slot` took it.
    fn slots_put(&self, s: &mut Store, slot: RootSlot)
        requires
            self.root as int <= old(s).num_roots(),
        ensures
            final(s).slots@ == old(s).slots@.insert(self.root as int, slot),
    {
        s.slots.insert(self.root, slot);
    }

    /// Destructive extraction: consumes this view, removes the document
    /// under its path from the root — ancestors stay, truncated by one
    /// child; an empty path drains the whole root, leaving `Null` — and
    /// carries the extracted document out. Fails with `BorrowConflict`
    /// while any borrow of the root is outstanding; on any fault the
    /// store is unchanged.
    pub fn take(self, s: &mut Store) -> (r: Result<DocValue, Fault>)
        requires
            self.valid(*old(s)),
        ensures
            final(s).num_roots() == old(s).num_roots(),
            forall|q: int|
                0 <= q < old(s).num_roots() && q != self.root as int
                    ==> final(s).slots@[q] == old(s).slots@[q],
            final(s).readers_at(self.root as int) == old(s).readers_at(self.root as int),
            final(s).writer_at(self.root as int) == old(s).writer_at(self.root as int),
            ({
                let before = old(s).doc_at(self.root as int);
                let after = final(s).doc_at(self.root as int);
                if old(s).writer_at(self.root as int) || old(s).readers_at(self.root as int) > 0 {
                    r == Err::<DocValue, Fault>(Fault::BorrowConflict) && after == before
                } else {
                    match doc_take(before, self.path_m()) {
                        Ok(pair) => after == pair.0 && (r matches Ok(leaf) && leaf@ == pair.1),
                        Err(f) => r == Err::<DocValue, Fault>(f) && after == before,
                    }
                }
            }),
            crate::value::doc_wf(old(s).doc_at(self.root as int)) ==> crate::value::doc_wf(
                final(s).doc_at(self.root as int),
            ) && (r matches Ok(leaf) ==> crate::value::doc_wf(leaf@)),
    {
        proof {
            if crate::value::doc_wf(old(s).doc_at(self.root as int)) {
                crate::laws::lemma_doc_take_wf(old(s).doc_at(self.root as int), self.path_m());
            }
        }
        let mut slot = self.remove_slot(s);
        if slot.writer || slot.readers > 0 {
            self.slots_put(s, slot);
            proof {
                assert(s.slots@ =~= old(s).slots@);
            }
            return Err(Fault::BorrowConflict);
        }
        let (value, st) = take_in(slot.value, &self.path, 0);
        slot.value = value;
        self.slots_put(s, slot);
        proof {
            assert(path_model(self.path@).skip(0) =~= self.path_m());
            assert(s.slots@ =~= old(s).slots@.update(self.root as int, s.slots@[self.root as int]));
        }
        st
    }
}

} // verus!
