//! The scripting binding layer: a view exposed to script code as an
//! opaque object with indexed get, indexed set and snapshot iteration.

use vstd::prelude::*;

use crate::Fault;
use crate::convert::{
    ScriptModel, ScriptValue, doc_to_script_model, is_container, key_to_elem, key_to_elem_model,
    scalar_to_script, script_to_doc, script_to_doc_model,
};
use crate::ops::{child_of, doc_write, elem_get};
use crate::path::{PathElement, PathModel};
use crate::store::{DocView, Store};
use crate::value::{DocModel, DocValue};

verus! {

broadcast use vstd::std_specs::vec::group_vec_axioms;

/// What an indexed read hands back to the script: nothing, a scalar by
/// value, or a subview into the shared root for a container child.
pub enum GetOutcome {
    Missing,
    Scalar(ScriptValue),
    Child(DocView),
}

/// How one child converts for the script: scalars by value, containers
/// as a subview of `w` extended by `e`.
pub open spec fn child_outcome(o: GetOutcome, w: DocView, e: PathModel, c: DocModel) -> bool {
    if is_container(c) {
        o matches GetOutcome::Child(w2) && w2.root == w.root && w2.path_m() == w.path_m().push(e)
    } else {
        o matches GetOutcome::Scalar(v) && v@ == doc_to_script_model(c)
    }
}

/// Indexed read through a view: resolves the view, looks the key up in
/// the node it reaches — a string in an object, a 1-based integer in an
/// array — and hands back nothing when absent, a scalar child by value,
/// or a subview for a container child.
pub fn indexed_get(w: &DocView, s: &Store, key: &ScriptValue) -> (r: Result<GetOutcome, Fault>)
    requires
        w.valid(*s),
    ensures
        s.writer_at(w.root as int) ==> r == Err::<GetOutcome, Fault>(Fault::BorrowConflict),
        !s.writer_at(w.root as int) ==> match w.resolved(*s) {
            None => r == Err::<GetOutcome, Fault>(Fault::PathResolutionFailure),
            Some(node) => match key_to_elem_model(key@) {
                None => r == Ok::<GetOutcome, Fault>(GetOutcome::Missing),
                Some(e) => match elem_get(node, e) {
                    None => r == Ok::<GetOutcome, Fault>(GetOutcome::Missing),
                    Some(c) => r matches Ok(o) && child_outcome(o, *w, e, c),
                },
            },
        },
{
    let node = match w.resolve(s) {
        Ok(node) => node,
        Err(f) => {
            return Err(f);
        },
    };
    let elem = match key_to_elem(key) {
        Some(elem) => elem,
        None => {
            return Ok(GetOutcome::Missing);
        },
    };
    match child_of(&node, &elem) {
        None => Ok(GetOutcome::Missing),
        Some(child) => match child {
            DocValue::Arr(_) => Ok(GetOutcome::Child(w.subview(elem))),
            DocValue::Obj(_) => Ok(GetOutcome::Child(w.subview(elem))),
            other => Ok(GetOutcome::Scalar(scalar_to_script(other))),
        },
    }
}

/// Indexed write through a view: resolves the view mutably, converts the
/// script value into a document and writes it under the key as
/// `node_write` describes. Faults leave the store unchanged; borrow
/// bookkeeping and other roots are never touched.
pub fn indexed_set(w: &DocView, s: &mut Store, key: &ScriptValue, val: &ScriptValue) -> (r: Result<
    (),
    Fault,
>)
    requires
        w.valid(*old(s)),
    ensures
        final(s).num_roots() == old(s).num_roots(),
        forall|q: int|
            0 <= q < old(s).num_roots() && q != w.root as int
                ==> final(s).slots@[q] == old(s).slots@[q],
        final(s).readers_at(w.root as int) == old(s).readers_at(w.root as int),
        final(s).writer_at(w.root as int) == old(s).writer_at(w.root as int),
        ({
            let before = old(s).doc_at(w.root as int);
            let after = final(s).doc_at(w.root as int);
            if old(s).writer_at(w.root as int) || old(s).readers_at(w.root as int) > 0 {
                r == Err::<(), Fault>(Fault::BorrowConflict) && after == before
            } else {
                match doc_write(
                    before,
                    w.path_m(),
                    key_to_elem_model(key@),
                    script_to_doc_model(val@),
                ) {
                    Ok(nd) => r == Ok::<(), Fault>(()) && after == nd,
                    Err(f) => r == Err::<(), Fault>(f) && after == before,
                }
            }
        }),
{
    let elem = key_to_elem(key);
    let doc = script_to_doc(val);
    w.write_at(s, elem, doc)
}

/// The 1-based integer key under which an array element at 0-based index
/// `j` is yielded; indices past `i64::MAX` saturate (unreachable for an
/// in-memory array).
pub open spec fn iter_key(j: int) -> i64 {
    if j + 1 <= i64::MAX {
        (j + 1) as i64
    } else {
        i64::MAX
    }
}

/// Snapshot iteration entries: the view is resolved once, the node's
/// entries are copied, and each child is yielded as the script will see
/// it — scalars by value, containers as subviews rebuilt against the
/// live root, so writes through them reach the shared document while the
/// sequence of visited entries stays fixed. A scalar node yields no
/// entries.
pub fn iter_entries(w: &DocView, s: &Store) -> (r: Result<Vec<(ScriptValue, GetOutcome)>, Fault>)
    requires
        w.valid(*s),
    ensures
        s.writer_at(w.root as int) ==> r == Err::<Vec<(ScriptValue, GetOutcome)>, Fault>(
            Fault::BorrowConflict,
        ),
        !s.writer_at(w.root as int) ==> match w.resolved(*s) {
            None => r == Err::<Vec<(ScriptValue, GetOutcome)>, Fault>(
                Fault::PathResolutionFailure,
            ),
            Some(node) => r matches Ok(out) && match node {
                DocModel::Obj(entries) => out@.len() == entries.len() && forall|j: int|
                    0 <= j < entries.len()
                        ==> (#[trigger] out@[j]).0@ == ScriptModel::Str(entries[j].0)
                            && child_outcome(
                            out@[j].1,
                            *w,
                            PathModel::Key(entries[j].0),
                            entries[j].1,
                        ),
                DocModel::Arr(items) => out@.len() == items.len() && forall|j: int|
                    0 <= j < items.len()
                        ==> (#[trigger] out@[j]).0@ == ScriptModel::Int(iter_key(j))
                            && child_outcome(out@[j].1, *w, PathModel::Index(j), items[j]),
                _ => out@.len() == 0,
            },
        },
{
    let node = match w.resolve(s) {
        Ok(node) => node,
        Err(f) => {
            return Err(f);
        },
    };
    let mut out: Vec<(ScriptValue, GetOutcome)> = Vec::new();
    match &node {
        DocValue::Obj(entries) => {
            let ghost node_m = node@;
            let mut i: usize = 0;
            while i < entries.len()
                invariant
                    i <= entries.len(),
                    out@.len() == i as int,
                    w.valid(*s),
                    node_m == node@,
                    node == DocValue::Obj(*entries),
                    forall|j: int|
                        0 <= j < i as int
                            ==> (#[trigger] out@[j]).0@
                                == ScriptModel::Str(node_m->Obj_0[j].0)
                                && child_outcome(
                                out@[j].1,
                                *w,
                                PathModel::Key(node_m->Obj_0[j].0),
                                node_m->Obj_0[j].1,
                            ),
                decreases entries.len() - i,
            {
                proof {
                    assert(node_m->Obj_0[i as int]
                        == (entries@[i as int].0@, entries@[i as int].1@));
                }
                let key = entries[i].0.clone();
                let item = match &entries[i].1 {
                    DocValue::Arr(_) => GetOutcome::Child(
                        w.subview(PathElement::Key(key.clone())),
                    ),
                    DocValue::Obj(_) => GetOutcome::Child(
                        w.subview(PathElement::Key(key.clone())),
                    ),
                    other => GetOutcome::Scalar(scalar_to_script(other)),
                };
                out.push((ScriptValue::Str(key), item));
                i = i + 1;
            }
            Ok(out)
        },
        DocValue::Arr(items) => {
            let ghost node_m = node@;
            let mut i: usize = 0;
            while i < items.len()
                invariant
                    i <= items.len(),
                    out@.len() == i as int,
                    w.valid(*s),
                    node_m == node@,
                    node == DocValue::Arr(*items),
                    forall|j: int|
                        0 <= j < i as int
                            ==> (#[trigger] out@[j]).0@ == ScriptModel::Int(iter_key(j))
                                && child_outcome(
                                out@[j].1,
                                *w,
                                PathModel::Index(j),
                                node_m->Arr_0[j],
                            ),
                decreases items.len() - i,
            {
                proof {
                    assert(node_m->Arr_0[i as int] == items@[i as int]@);
                }
                let key: i64 = if (i as u64) < i64::MAX as u64 {
                    (i + 1) as i64
                } else {
                    i64::MAX
                };
                let item = match &items[i] {
                    DocValue::Arr(_) => GetOutcome::Child(w.subview(PathElement::Index(i))),
                    DocValue::Obj(_) => GetOutcome::Child(w.subview(PathElement::Index(i))),
                    other => GetOutcome::Scalar(scalar_to_script(other)),
                };
                out.push((ScriptValue::Int(key), item));
                i = i + 1;
            }
            Ok(out)
        },
        _ => Ok(out),
    }
}

} // verus!
