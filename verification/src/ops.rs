//! Path resolution, in-place writes and destructive extraction on
//! document trees.

use vstd::prelude::*;

use crate::Fault;
use crate::path::{PathElement, PathModel, path_model};
use crate::value::{DocModel, DocValue, arr_model, obj_model};

verus! {

broadcast use vstd::std_specs::vec::group_vec_axioms;

/// Index of the first entry with key `k`, or -1 when no entry has it.
pub open spec fn obj_index_of(entries: Seq<(Seq<char>, DocModel)>, k: Seq<char>) -> int
    decreases entries.len(),
{
    if entries.len() == 0 {
        -1
    } else if entries[0].0 == k {
        0
    } else {
        let r = obj_index_of(entries.drop_first(), k);
        if r < 0 {
            -1
        } else {
            r + 1
        }
    }
}

/// `obj_index_of` finds the first entry with key `k` when one exists.
pub proof fn lemma_obj_index_of(entries: Seq<(Seq<char>, DocModel)>, k: Seq<char>)
    ensures
        obj_index_of(entries, k) == -1 ==> forall|i: int|
            0 <= i < entries.len() ==> (#[trigger] entries[i]).0 != k,
        obj_index_of(entries, k) != -1 ==> 0 <= obj_index_of(entries, k) < entries.len()
            && entries[obj_index_of(entries, k)].0 == k
            && forall|i: int| 0 <= i < obj_index_of(entries, k) ==> (#[trigger] entries[i]).0 != k,
    decreases entries.len(),
{
    if entries.len() == 0 {
    } else if entries[0].0 == k {
    } else {
        let rest = entries.drop_first();
        lemma_obj_index_of(rest, k);
        let r = obj_index_of(entries, k);
        if r == -1 {
            assert forall|i: int| 0 <= i < entries.len() implies (#[trigger] entries[i]).0 != k by {
                if i > 0 {
                    assert(rest[i - 1] == entries[i]);
                    assert(rest[i - 1].0 != k);
                }
            }
        } else {
            assert(entries[r] == rest[r - 1]);
            assert forall|i: int| 0 <= i < r implies (#[trigger] entries[i]).0 != k by {
                if i > 0 {
                    assert(rest[i - 1] == entries[i]);
                    assert(rest[i - 1].0 != k);
                }
            }
        }
    }
}

/// Looks one step down from a node: an object key or an array index.
pub open spec fn elem_get(d: DocModel, e: PathModel) -> Option<DocModel> {
    match e {
        PathModel::Key(k) => match d {
            DocModel::Obj(entries) => {
                let i = obj_index_of(entries, k);
                if i >= 0 {
                    Some(entries[i].1)
                } else {
                    None
                }
            },
            _ => None,
        },
        PathModel::Index(i) => match d {
            DocModel::Arr(items) => if 0 <= i < items.len() {
                Some(items[i])
            } else {
                None
            },
            _ => None,
        },
    }
}

/// Walks a path from a node; `None` when some step cannot be found.
pub open spec fn doc_get(d: DocModel, p: Seq<PathModel>) -> Option<DocModel>
    decreases p.len(),
{
    if p.len() == 0 {
        Some(d)
    } else {
        match elem_get(d, p[0]) {
            Some(c) => doc_get(c, p.drop_first()),
            None => None,
        }
    }
}

/// Replaces the direct child at `e` with `c`; the node is unchanged when
/// `e` does not resolve.
pub open spec fn elem_replace(d: DocModel, e: PathModel, c: DocModel) -> DocModel {
    match e {
        PathModel::Key(k) => match d {
            DocModel::Obj(entries) => {
                let i = obj_index_of(entries, k);
                if i >= 0 {
                    DocModel::Obj(entries.update(i, (entries[i].0, c)))
                } else {
                    d
                }
            },
            _ => d,
        },
        PathModel::Index(i) => match d {
            DocModel::Arr(items) => if 0 <= i < items.len() {
                DocModel::Arr(items.update(i, c))
            } else {
                d
            },
            _ => d,
        },
    }
}

/// Inserts or overwrites the entry with key `k`, keeping first-insertion
/// order for keys already present.
pub open spec fn obj_insert_model(
    entries: Seq<(Seq<char>, DocModel)>,
    k: Seq<char>,
    v: DocModel,
) -> Seq<(Seq<char>, DocModel)> {
    let i = obj_index_of(entries, k);
    if i >= 0 {
        entries.update(i, (k, v))
    } else {
        entries.push((k, v))
    }
}

/// One write at a node. A string key requires an object and creates or
/// overwrites the slot; an array index only overwrites an existing slot
/// and is a silent no-op out of bounds or on a non-array; no key at all
/// is a silent no-op.
pub open spec fn node_write(d: DocModel, key: Option<PathModel>, val: DocModel) -> Result<
    DocModel,
    Fault,
> {
    match key {
        Option::None => Ok(d),
        Option::Some(PathModel::Key(k)) => match d {
            DocModel::Obj(entries) => Ok(DocModel::Obj(obj_insert_model(entries, k, val))),
            _ => Err(Fault::InvalidWrite),
        },
        Option::Some(PathModel::Index(i)) => match d {
            DocModel::Arr(items) => if 0 <= i < items.len() {
                Ok(DocModel::Arr(items.update(i, val)))
            } else {
                Ok(d)
            },
            _ => Ok(d),
        },
    }
}

/// Walks `p` from `d` and performs `node_write` at its end.
pub open spec fn doc_write(
    d: DocModel,
    p: Seq<PathModel>,
    key: Option<PathModel>,
    val: DocModel,
) -> Result<DocModel, Fault>
    decreases p.len(),
{
    if p.len() == 0 {
        node_write(d, key, val)
    } else {
        match elem_get(d, p[0]) {
            Some(c) => match doc_write(c, p.drop_first(), key, val) {
                Ok(c2) => Ok(elem_replace(d, p[0], c2)),
                Err(f) => Err(f),
            },
            None => Err(Fault::PathResolutionFailure),
        }
    }
}

/// Removes the direct child at `e`: object key removal or array element
/// removal with shift. Yields the truncated node and the removed child.
pub open spec fn elem_remove(d: DocModel, e: PathModel) -> Option<(DocModel, DocModel)> {
    match e {
        PathModel::Key(k) => match d {
            DocModel::Obj(entries) => {
                let i = obj_index_of(entries, k);
                if i >= 0 {
                    Some((DocModel::Obj(entries.remove(i)), entries[i].1))
                } else {
                    None
                }
            },
            _ => None,
        },
        PathModel::Index(i) => match d {
            DocModel::Arr(items) => if 0 <= i < items.len() {
                Some((DocModel::Arr(items.remove(i)), items[i]))
            } else {
                None
            },
            _ => None,
        },
    }
}

/// Destructive extraction along `p`: ancestors stay, truncated by one
/// child; the leaf is carried out. An empty path consumes the whole
/// document, leaving `Null`.
pub open spec fn doc_take(d: DocModel, p: Seq<PathModel>) -> Result<(DocModel, DocModel), Fault>
    decreases p.len(),
{
    if p.len() == 0 {
        Ok((DocModel::Null, d))
    } else if p.len() == 1 {
        match elem_remove(d, p[0]) {
            Some(pair) => Ok(pair),
            None => Err(Fault::PathResolutionFailure),
        }
    } else {
        match elem_get(d, p[0]) {
            Some(c) => match doc_take(c, p.drop_first()) {
                Ok(pair) => Ok((elem_replace(d, p[0], pair.0), pair.1)),
                Err(f) => Err(f),
            },
            None => Err(Fault::PathResolutionFailure),
        }
    }
}

/// Finds the first entry of `entries` whose key equals `k`.
pub fn obj_find(entries: &Vec<(String, DocValue)>, k: &String) -> (r: Option<usize>)
    ensures
        match r {
            Some(i) => obj_index_of(obj_model(entries@), k@) == i as int && i < entries@.len(),
            None => obj_index_of(obj_model(entries@), k@) == -1,
        },
{
    proof {
        lemma_obj_index_of(obj_model(entries@), k@);
    }
    let mut i: usize = 0;
    while i < entries.len()
        invariant
            i <= entries.len(),
            forall|j: int| 0 <= j < i as int ==> obj_model(entries@)[j].0 != k@,
            obj_index_of(obj_model(entries@), k@) == -1
                || obj_index_of(obj_model(entries@), k@) >= i as int,
        decreases entries.len() - i,
    {
        if entries[i].0 == *k {
            proof {
                assert(obj_model(entries@)[i as int].0 == k@);
                lemma_obj_index_of(obj_model(entries@), k@);
            }
            return Some(i);
        }
        proof {
            assert(obj_model(entries@)[i as int].0 != k@);
            lemma_obj_index_of(obj_model(entries@), k@);
        }
        i = i + 1;
    }
    proof {
        lemma_obj_index_of(obj_model(entries@), k@);
    }
    None
}

/// Immutable resolution: walks `path` from `d` and hands back the node it
/// reaches, or nothing when some step cannot be found.
#[verifier::loop_isolation(false)]
pub fn resolve_in<'a>(d: &'a DocValue, path: &Vec<PathElement>) -> (r: Option<&'a DocValue>)
    ensures
        match r {
            Some(c) => doc_get(d@, path_model(path@)) == Some(c@),
            None => doc_get(d@, path_model(path@)) is None,
        },
{
    let ghost pm = path_model(path@);
    proof {
        assert(pm.skip(0) =~= pm);
    }
    let mut cur: &DocValue = d;
    let mut i: usize = 0;
    while i < path.len()
        invariant
            i <= path.len(),
            doc_get(d@, pm) == doc_get(cur@, pm.skip(i as int)),
        decreases path.len() - i,
    {
        proof {
            assert(pm.skip(i as int)[0] == path@[i as int]@);
            assert(pm.skip(i as int).drop_first() =~= pm.skip(i as int + 1));
        }
        let step: Option<&DocValue> = match &path[i] {
            PathElement::Key(k) => match cur {
                DocValue::Obj(entries) => {
                    match obj_find(entries, k) {
                        Some(idx) => {
                            proof {
                                assert(obj_model(entries@)[idx as int].1 == entries@[idx as int].1@);
                            }
                            Some(&entries[idx].1)
                        },
                        None => None,
                    }
                },
                _ => None,
            },
            PathElement::Index(idx) => match cur {
                DocValue::Arr(items) => {
                    if *idx < items.len() {
                        Some(&items[*idx])
                    } else {
                        None
                    }
                },
                _ => None,
            },
        };
        match step {
            Some(c) => {
                proof {
                    assert(elem_get(cur@, pm.skip(i as int)[0]) == Some(c@));
                }
                cur = c;
            },
            None => {
                proof {
                    assert(elem_get(cur@, pm.skip(i as int)[0]) is None);
                }
                return None;
            },
        }
        i = i + 1;
    }
    proof {
        assert(pm.skip(path.len() as int) =~= Seq::<PathModel>::empty());
    }
    Some(cur)
}

/// Looks one step down from a node, executably; see `elem_get`.
pub fn child_of<'a>(d: &'a DocValue, e: &PathElement) -> (r: Option<&'a DocValue>)
    ensures
        match r {
            Some(c) => elem_get(d@, e@) == Some(c@),
            None => elem_get(d@, e@) is None,
        },
{
    match e {
        PathElement::Key(k) => match d {
            DocValue::Obj(entries) => match obj_find(entries, k) {
                Some(idx) => {
                    proof {
                        assert(obj_model(entries@)[idx as int].1 == entries@[idx as int].1@);
                    }
                    Some(&entries[idx].1)
                },
                None => None,
            },
            _ => None,
        },
        PathElement::Index(idx) => match d {
            DocValue::Arr(items) => {
                if *idx < items.len() {
                    Some(&items[*idx])
                } else {
                    None
                }
            },
            _ => None,
        },
    }
}

/// The in-range model of an optional write key.
pub open spec fn opt_key_model(key: Option<PathElement>) -> Option<PathModel> {
    match key {
        Some(e) => Some(e@),
        None => None,
    }
}

/// Mutable write: walks `path` from `from` and performs the keyed write at
/// its end, handing back the rewritten document. On a fault the document
/// comes back unchanged.
#[verifier::loop_isolation(false)]
pub fn write_in(
    d: DocValue,
    path: &Vec<PathElement>,
    from: usize,
    key: &Option<PathElement>,
    val: DocValue,
) -> (res: (DocValue, Result<(), Fault>))
    requires
        from <= path@.len(),
    ensures
        match doc_write(d@, path_model(path@).skip(from as int), opt_key_model(*key), val@) {
            Ok(nd) => res.1 == Ok::<(), Fault>(()) && res.0@ == nd,
            Err(f) => res.1 == Err::<(), Fault>(f) && res.0@ == d@,
        },
    decreases path@.len() - from,
{
    let ghost pm = path_model(path@).skip(from as int);
    if from == path.len() {
        proof {
            assert(pm =~= Seq::<PathModel>::empty());
        }
        return node_write_exec(d, key, val);
    }
    proof {
        assert(pm[0] == path@[from as int]@);
        assert(pm.drop_first() =~= path_model(path@).skip(from as int + 1));
    }
    match &path[from] {
        PathElement::Key(kstr) => match d {
            DocValue::Obj(mut entries) => {
                let ghost m = obj_model(entries@);
                match obj_find(&entries, kstr) {
                    None => {
                        proof {
                            assert(elem_get(DocModel::Obj(m), pm[0]) is None);
                        }
                        (DocValue::Obj(entries), Err(Fault::PathResolutionFailure))
                    },
                    Some(idx) => {
                        proof {
                            assert(m[idx as int] == (entries@[idx as int].0@, entries@[idx as int].1@));
                            assert(elem_get(DocModel::Obj(m), pm[0]) == Some(m[idx as int].1));
                        }
                        let key_copy = entries[idx].0.clone();
                        let child = entries[idx].1.duplicate();
                        let (child2, st) = write_in(child, path, from + 1, key, val);
                        entries[idx] = (key_copy, child2);
                        proof {
                            if st is Ok {
                                assert(obj_model(entries@)
                                    =~= m.update(idx as int, (m[idx as int].0, child2@)));
                            } else {
                                assert(obj_model(entries@) =~= m);
                            }
                        }
                        (DocValue::Obj(entries), st)
                    },
                }
            },
            other => {
                proof {
                    assert(elem_get(other@, pm[0]) is None);
                }
                (other, Err(Fault::PathResolutionFailure))
            },
        },
        PathElement::Index(idx) => match d {
            DocValue::Arr(mut items) => {
                let ghost m = arr_model(items@);
                if *idx < items.len() {
                    proof {
                        assert(elem_get(DocModel::Arr(m), pm[0]) == Some(m[*idx as int]));
                    }
                    let child = items[*idx].duplicate();
                    let (child2, st) = write_in(child, path, from + 1, key, val);
                    items[*idx] = child2;
                    proof {
                        if st is Ok {
                            assert(arr_model(items@) =~= m.update(*idx as int, child2@));
                        } else {
                            assert(arr_model(items@) =~= m);
                        }
                    }
                    (DocValue::Arr(items), st)
                } else {
                    proof {
                        assert(elem_get(DocModel::Arr(m), pm[0]) is None);
                    }
                    (DocValue::Arr(items), Err(Fault::PathResolutionFailure))
                }
            },
            other => {
                proof {
                    assert(elem_get(other@, pm[0]) is None);
                }
                (other, Err(Fault::PathResolutionFailure))
            },
        },
    }
}

/// One write at this node; see `node_write` for the cases.
fn node_write_exec(d: DocValue, key: &Option<PathElement>, val: DocValue) -> (res: (
    DocValue,
    Result<(), Fault>,
))
    ensures
        match node_write(d@, opt_key_model(*key), val@) {
            Ok(nd) => res.1 == Ok::<(), Fault>(()) && res.0@ == nd,
            Err(f) => res.1 == Err::<(), Fault>(f) && res.0@ == d@,
        },
{
    match key {
        Option::None => (d, Ok(())),
        Option::Some(PathElement::Key(kstr)) => match d {
            DocValue::Obj(mut entries) => {
                let ghost m = obj_model(entries@);
                match obj_find(&entries, kstr) {
                    Some(idx) => {
                        entries[idx] = (kstr.clone(), val);
                        proof {
                            assert(obj_model(entries@) =~= m.update(idx as int, (kstr@, val@)));
                        }
                        (DocValue::Obj(entries), Ok(()))
                    },
                    None => {
                        entries.push((kstr.clone(), val));
                        proof {
                            assert(obj_model(entries@) =~= m.push((kstr@, val@)));
                        }
                        (DocValue::Obj(entries), Ok(()))
                    },
                }
            },
            other => (other, Err(Fault::InvalidWrite)),
        },
        Option::Some(PathElement::Index(idx)) => match d {
            DocValue::Arr(mut items) => {
                let ghost m = arr_model(items@);
                if *idx < items.len() {
                    items[*idx] = val;
                    proof {
                        assert(arr_model(items@) =~= m.update(*idx as int, val@));
                    }
                    (DocValue::Arr(items), Ok(()))
                } else {
                    (DocValue::Arr(items), Ok(()))
                }
            },
            other => (other, Ok(())),
        },
    }
}

/// Destructive extraction: walks `path` from `from`, removing the final
/// child from its parent and carrying it out; ancestors stay, truncated.
/// On a fault the document comes back unchanged.
#[verifier::loop_isolation(false)]
pub fn take_in(d: DocValue, path: &Vec<PathElement>, from: usize) -> (res: (
    DocValue,
    Result<DocValue, Fault>,
))
    requires
        from <= path@.len(),
    ensures
        match doc_take(d@, path_model(path@).skip(from as int)) {
            Ok(pair) => res.0@ == pair.0 && (res.1 matches Ok(leaf) && leaf@ == pair.1),
            Err(f) => res.1 == Err::<DocValue, Fault>(f) && res.0@ == d@,
        },
    decreases path@.len() - from,
{
    let ghost pm = path_model(path@).skip(from as int);
    if from == path.len() {
        proof {
            assert(pm =~= Seq::<PathModel>::empty());
        }
        return (DocValue::Null, Ok(d));
    }
    proof {
        assert(pm[0] == path@[from as int]@);
        assert(pm.drop_first() =~= path_model(path@).skip(from as int + 1));
    }
    let last = from + 1 == path.len();
    match &path[from] {
        PathElement::Key(kstr) => match d {
            DocValue::Obj(mut entries) => {
                let ghost m = obj_model(entries@);
                match obj_find(&entries, kstr) {
                    None => {
                        proof {
                            assert(elem_get(DocModel::Obj(m), pm[0]) is None);
                            assert(elem_remove(DocModel::Obj(m), pm[0]) is None);
                        }
                        (DocValue::Obj(entries), Err(Fault::PathResolutionFailure))
                    },
                    Some(idx) => {
                        proof {
                            assert(m[idx as int] == (entries@[idx as int].0@, entries@[idx as int].1@));
                        }
                        if last {
                            let removed = entries.remove(idx);
                            proof {
                                assert(elem_remove(DocModel::Obj(m), pm[0])
                                    == Some((DocModel::Obj(m.remove(idx as int)), m[idx as int].1)));
                                assert(obj_model(entries@) =~= m.remove(idx as int));
                            }
                            (DocValue::Obj(entries), Ok(removed.1))
                        } else {
                            proof {
                                assert(elem_get(DocModel::Obj(m), pm[0]) == Some(m[idx as int].1));
                            }
                            let key_copy = entries[idx].0.clone();
                            let child = entries[idx].1.duplicate();
                            let (child2, st) = take_in(child, path, from + 1);
                            entries[idx] = (key_copy, child2);
                            proof {
                                if st is Ok {
                                    assert(obj_model(entries@)
                                        =~= m.update(idx as int, (m[idx as int].0, child2@)));
                                } else {
                                    assert(obj_model(entries@) =~= m);
                                }
                            }
                            (DocValue::Obj(entries), st)
                        }
                    },
                }
            },
            other => {
                proof {
                    assert(elem_get(other@, pm[0]) is None);
                    assert(elem_remove(other@, pm[0]) is None);
                }
                (other, Err(Fault::PathResolutionFailure))
            },
        },
        PathElement::Index(idx) => match d {
            DocValue::Arr(mut items) => {
                let ghost m = arr_model(items@);
                if *idx < items.len() {
                    if last {
                        let removed = items.remove(*idx);
                        proof {
                            assert(elem_remove(DocModel::Arr(m), pm[0])
                                == Some((DocModel::Arr(m.remove(*idx as int)), m[*idx as int])));
                            assert(arr_model(items@) =~= m.remove(*idx as int));
                        }
                        (DocValue::Arr(items), Ok(removed))
                    } else {
                        proof {
                            assert(elem_get(DocModel::Arr(m), pm[0]) == Some(m[*idx as int]));
                        }
                        let child = items[*idx].duplicate();
                        let (child2, st) = take_in(child, path, from + 1);
                        items[*idx] = child2;
                        proof {
                            if st is Ok {
                                assert(arr_model(items@) =~= m.update(*idx as int, child2@));
                            } else {
                                assert(arr_model(items@) =~= m);
                            }
                        }
                        (DocValue::Arr(items), st)
                    }
                } else {
                    proof {
                        assert(elem_get(DocModel::Arr(m), pm[0]) is None);
                        assert(elem_remove(DocModel::Arr(m), pm[0]) is None);
                    }
                    (DocValue::Arr(items), Err(Fault::PathResolutionFailure))
                }
            },
            other => {
                proof {
                    assert(elem_get(other@, pm[0]) is None);
                    assert(elem_remove(other@, pm[0]) is None);
                }
                (other, Err(Fault::PathResolutionFailure))
            },
        },
    }
}

} // verus!
