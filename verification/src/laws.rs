//! Laws the library keeps, stated and proved over the spec-level models:
//! the conversion round trip, and how destructive extraction affects
//! other paths into the same document.

use vstd::prelude::*;

use crate::convert::{ScriptModel, classify, dec_str, digit_char, doc_to_script_model, flip_entries, script_to_doc_model};
use crate::ops::{
    doc_get, doc_take, doc_write, elem_get, elem_remove, elem_replace, lemma_obj_index_of,
    obj_index_of, obj_insert_model,
};
use crate::path::PathModel;
use crate::value::{DocModel, doc_wf, float_bits_finite, lemma_arr_wf, lemma_obj_wf, obj_keys_unique};

verus! {

/// A document the conversion round trip can reproduce exactly: floats
/// finite, object keys distinct, no empty objects (an empty container
/// converts to an empty table, which classifies back as an empty array),
/// and arrays short enough for 1-based `i64` keys.
pub open spec fn doc_round_trippable(d: DocModel) -> bool
    decreases d,
{
    match d {
        DocModel::Float(bits) => float_bits_finite(bits),
        DocModel::Arr(items) => items.len() <= i64::MAX && forall|i: int|
            0 <= i < items.len() ==> doc_round_trippable(#[trigger] items[i]),
        DocModel::Obj(entries) => entries.len() > 0 && obj_keys_unique(entries) && forall|i: int|
            0 <= i < entries.len() ==> doc_round_trippable(#[trigger] entries[i].1),
        _ => true,
    }
}

/// The values of a table's suffix, converted in order.
pub open spec fn vals_from(entries: Seq<(crate::convert::ScriptModel, crate::convert::ScriptModel)>, i: int) -> Seq<DocModel> {
    Seq::new(
        if entries.len() >= i { (entries.len() - i) as nat } else { 0 },
        |j: int|
            if 0 <= j && i + j < entries.len() {
                script_to_doc_model(entries[i + j].1)
            } else {
                DocModel::Null
            },
    )
}

/// The string-keyed pairs of a table's suffix, converted in order.
pub open spec fn kvs_from(entries: Seq<(crate::convert::ScriptModel, crate::convert::ScriptModel)>, i: int) -> Seq<
    (Seq<char>, DocModel),
> {
    Seq::new(
        if entries.len() >= i { (entries.len() - i) as nat } else { 0 },
        |j: int|
            if 0 <= j && i + j < entries.len() {
                (entries[i + j].0->Str_0, script_to_doc_model(entries[i + j].1))
            } else {
                (Seq::empty(), DocModel::Null)
            },
    )
}

/// A table whose keys continue the run `i+1 .. n` classifies as the
/// array of its converted values.
proof fn lemma_classify_array(
    entries: Seq<(crate::convert::ScriptModel, crate::convert::ScriptModel)>,
    i: int,
    arr: Seq<DocModel>,
    obj: Seq<(Seq<char>, DocModel)>,
)
    requires
        0 <= i <= entries.len(),
        entries.len() <= i64::MAX,
        arr.len() == i,
        forall|j: int|
            i <= j < entries.len() ==> (#[trigger] entries[j]).0 == crate::convert::ScriptModel::Int(
                (j + 1) as i64,
            ),
    ensures
        classify(entries, i, arr, obj, true) == DocModel::Arr(arr + vals_from(entries, i)),
    decreases entries.len() - i,
{
    if i == entries.len() {
        assert(arr + vals_from(entries, i) =~= arr);
    } else {
        let v = script_to_doc_model(entries[i].1);
        assert(entries[i].0 == crate::convert::ScriptModel::Int((i + 1) as i64));
        assert((i + 1) as i64 >= 1);
        lemma_classify_array(entries, i + 1, arr.push(v), obj);
        assert(arr.push(v) + vals_from(entries, i + 1) =~= arr + vals_from(entries, i));
    }
}

/// A table whose remaining keys are distinct strings, none already in
/// `obj`, classifies as `obj` extended by its converted pairs in order.
proof fn lemma_classify_object(
    entries: Seq<(crate::convert::ScriptModel, crate::convert::ScriptModel)>,
    i: int,
    obj: Seq<(Seq<char>, DocModel)>,
)
    requires
        0 <= i <= entries.len(),
        forall|j: int| i <= j < entries.len() ==> (#[trigger] entries[j]).0 is Str,
        forall|j1: int, j2: int|
            i <= j1 < j2 < entries.len() ==> (#[trigger] entries[j1]).0 != (#[trigger] entries[j2]).0,
        forall|j: int, t: int|
            i <= j < entries.len() && 0 <= t < obj.len() ==> (#[trigger] entries[j]).0->Str_0 != (
            #[trigger] obj[t]).0,
    ensures
        classify(entries, i, Seq::empty(), obj, false) == DocModel::Obj(obj + kvs_from(entries, i)),
    decreases entries.len() - i,
{
    if i == entries.len() {
        assert(obj + kvs_from(entries, i) =~= obj);
    } else {
        let s = entries[i].0->Str_0;
        let v = script_to_doc_model(entries[i].1);
        lemma_obj_index_of(obj, s);
        assert(obj_index_of(obj, s) == -1) by {
            if obj_index_of(obj, s) != -1 {
                assert(obj[obj_index_of(obj, s)].0 == s);
            }
        }
        assert(obj_insert_model(obj, s, v) == obj.push((s, v)));
        lemma_classify_object(entries, i + 1, obj.push((s, v)));
        assert(obj.push((s, v)) + kvs_from(entries, i + 1) =~= obj + kvs_from(entries, i));
    }
}

/// The conversion round trip: converting a representable document to the
/// script shape and back reproduces it exactly.
pub proof fn lemma_round_trip(d: DocModel)
    requires
        doc_round_trippable(d),
    ensures
        script_to_doc_model(doc_to_script_model(d)) == d,
    decreases d,
{
    match d {
        DocModel::Arr(items) => {
            let t = doc_to_script_model(d)->Table_0;
            assert(t.len() == items.len());
            lemma_classify_array(t, 0, Seq::empty(), Seq::empty());
            assert forall|j: int| 0 <= j < items.len() implies vals_from(t, 0)[j]
                == items[j] by {
                assert(t[j].1 == doc_to_script_model(items[j]));
                lemma_round_trip(items[j]);
            }
            assert(Seq::empty() + vals_from(t, 0) =~= vals_from(t, 0));
            assert(vals_from(t, 0) =~= items);
        },
        DocModel::Obj(entries) => {
            let t = doc_to_script_model(d)->Table_0;
            assert(t.len() == entries.len());
            let s0 = entries[0].0;
            let v0 = script_to_doc_model(t[0].1);
            let obj1 = Seq::<(Seq<char>, DocModel)>::empty().push((s0, v0));
            assert(crate::convert::flip_entries(Seq::empty())
                =~= Seq::<(Seq<char>, DocModel)>::empty());
            lemma_obj_index_of(Seq::<(Seq<char>, DocModel)>::empty(), s0);
            assert(classify(t, 0, Seq::empty(), Seq::empty(), true)
                == classify(t, 1, Seq::empty(), obj1, false));
            lemma_classify_object(t, 1, obj1);
            assert forall|j: int| 0 <= j < entries.len() implies (obj1 + kvs_from(t, 1))[j]
                == entries[j] by {
                assert(t[j].0 == crate::convert::ScriptModel::Str(entries[j].0));
                assert(t[j].1 == doc_to_script_model(entries[j].1));
                lemma_round_trip(entries[j].1);
                if j >= 1 {
                    assert(kvs_from(t, 1)[j - 1]
                        == (entries[j].0, script_to_doc_model(doc_to_script_model(entries[j].1))));
                }
            }
            assert(obj1 + kvs_from(t, 1) =~= entries);
        },
        _ => {},
    }
}

/// Removal and replacement leave an object's key sequence intact or
/// shifted; `obj_index_of` tracks the first occurrence.
proof fn lemma_obj_index_of_same_keys(
    e1: Seq<(Seq<char>, DocModel)>,
    e2: Seq<(Seq<char>, DocModel)>,
    k: Seq<char>,
)
    requires
        e1.len() == e2.len(),
        forall|t: int| 0 <= t < e1.len() ==> (#[trigger] e1[t]).0 == (#[trigger] e2[t]).0,
    ensures
        obj_index_of(e1, k) == obj_index_of(e2, k),
    decreases e1.len(),
{
    if e1.len() > 0 {
        assert(e1[0].0 == e2[0].0);
        lemma_obj_index_of_same_keys(e1.drop_first(), e2.drop_first(), k);
        assert(forall|t: int|
            0 <= t < e1.drop_first().len() ==> (#[trigger] e1.drop_first()[t]).0 == e1[t + 1].0);
        assert(forall|t: int|
            0 <= t < e2.drop_first().len() ==> (#[trigger] e2.drop_first()[t]).0 == e2[t + 1].0);
    }
}

/// The first occurrence of a key: its position is pinned by having the
/// key there and nowhere earlier.
proof fn lemma_obj_index_at(entries: Seq<(Seq<char>, DocModel)>, k: Seq<char>, x: int)
    requires
        0 <= x < entries.len(),
        entries[x].0 == k,
        forall|t: int| 0 <= t < x ==> (#[trigger] entries[t]).0 != k,
    ensures
        obj_index_of(entries, k) == x,
{
    lemma_obj_index_of(entries, k);
}

/// One step after a replacement or removal at a diverging element: the
/// other element resolves exactly as before.
proof fn lemma_elem_divergent(d: DocModel, e1: PathModel, e2: PathModel, c: DocModel)
    requires
        elem_get(d, e1) is Some,
        diverges(e1, e2),
    ensures
        elem_get(elem_replace(d, e1, c), e2) == elem_get(d, e2),
        elem_remove(d, e1) matches Some(pair) ==> elem_get(pair.0, e2) == elem_get(d, e2),
{
    match (d, e1) {
        (DocModel::Obj(entries), PathModel::Key(k1)) => {
            let i1 = obj_index_of(entries, k1);
            lemma_obj_index_of(entries, k1);
            match e2 {
                PathModel::Key(k2) => {
                    let up = entries.update(i1, (entries[i1].0, c));
                    lemma_obj_index_of_same_keys(entries, up, k2);
                    lemma_obj_index_of(entries, k2);
                    let i2 = obj_index_of(entries, k2);
                    if i2 >= 0 {
                        assert(up[i2].1 == entries[i2].1);
                    }
                    let rm = entries.remove(i1);
                    assert(forall|t: int| 0 <= t < i1 ==> #[trigger] rm[t] == entries[t]);
                    assert(forall|t: int|
                        i1 <= t < rm.len() ==> #[trigger] rm[t] == entries[t + 1]);
                    if i2 == -1 {
                        lemma_obj_index_of(rm, k2);
                        if obj_index_of(rm, k2) != -1 {
                            assert(rm[obj_index_of(rm, k2)].0 == k2);
                        }
                        assert(obj_index_of(rm, k2) == -1);
                    } else {
                        let i2r = if i2 < i1 { i2 } else { i2 - 1 };
                        assert(rm[i2r].0 == k2);
                        assert forall|t: int| 0 <= t < i2r implies (#[trigger] rm[t]).0 != k2 by {
                            if t < i1 {
                                assert(rm[t] == entries[t]);
                            } else {
                                assert(rm[t] == entries[t + 1]);
                            }
                        }
                        lemma_obj_index_at(rm, k2, i2r);
                        assert(rm[i2r].1 == entries[i2].1);
                    }
                },
                _ => {},
            }
        },
        (DocModel::Arr(items), PathModel::Index(a)) => {
            match e2 {
                PathModel::Index(b) => {
                    if 0 <= b {
                        assert(b < a);
                        assert(items.update(a, c)[b] == items[b]);
                        assert(items.remove(a)[b] == items[b]);
                    }
                },
                _ => {},
            }
        },
        _ => {},
    }
}

/// Two path elements that cannot name the same child: distinct keys,
/// an index strictly below the one extracted, or different kinds.
pub open spec fn diverges(e1: PathModel, e2: PathModel) -> bool {
    match (e1, e2) {
        (PathModel::Key(k1), PathModel::Key(k2)) => k1 != k2,
        (PathModel::Index(a), PathModel::Index(b)) => b < a,
        _ => true,
    }
}

/// Extraction succeeds exactly where resolution does, and carries out
/// exactly the document that resolution saw.
pub proof fn lemma_take_resolves(d: DocModel, p: Seq<PathModel>)
    ensures
        doc_take(d, p) is Ok <==> doc_get(d, p) is Some,
        doc_take(d, p) matches Ok(pair) ==> doc_get(d, p) == Some(pair.1),
    decreases p.len(),
{
    if p.len() == 0 {
    } else if p.len() == 1 {
        assert(p.drop_first() =~= Seq::<PathModel>::empty());
        match elem_get(d, p[0]) {
            Some(c) => {
                assert(elem_remove(d, p[0]) matches Some(pair) && pair.1 == c);
                assert(doc_get(c, p.drop_first()) == Some(c));
                assert(doc_get(d, p) == Some(c));
            },
            None => {
                assert(elem_remove(d, p[0]) is None);
            },
        }
    } else {
        match elem_get(d, p[0]) {
            Some(c) => {
                lemma_take_resolves(c, p.drop_first());
                assert(doc_get(d, p) == doc_get(c, p.drop_first()));
                match doc_take(c, p.drop_first()) {
                    Ok(sp) => {
                        assert(doc_take(d, p) matches Ok(pair) && pair.1 == sp.1);
                    },
                    Err(f) => {
                        assert(doc_take(d, p) is Err);
                    },
                }
            },
            None => {},
        }
    }
}

/// Resolving a concatenated path walks the first part, then the second.
pub proof fn lemma_doc_get_append(d: DocModel, p: Seq<PathModel>, q: Seq<PathModel>)
    ensures
        doc_get(d, p + q) == match doc_get(d, p) {
            Some(c) => doc_get(c, q),
            None => None::<DocModel>,
        },
    decreases p.len(),
{
    if p.len() == 0 {
        assert(p + q =~= q);
    } else {
        assert((p + q)[0] == p[0]);
        assert((p + q).drop_first() =~= p.drop_first() + q);
        match elem_get(d, p[0]) {
            Some(c) => {
                lemma_doc_get_append(c, p.drop_first(), q);
            },
            None => {},
        }
    }
}

/// Extraction at `p` leaves every diverging path untouched: a path that
/// splits off `p` at a distinct object key, at an array index below the
/// extracted one, or at a different element kind resolves to exactly
/// what it resolved to before. (An array index above the extracted one
/// is shifted by the removal and is not covered.)
pub proof fn lemma_take_disjoint(d: DocModel, p: Seq<PathModel>, q: Seq<PathModel>, j: int)
    requires
        doc_take(d, p) is Ok,
        0 <= j < p.len(),
        j < q.len(),
        p.take(j) == q.take(j),
        diverges(p[j], q[j]),
    ensures
        doc_take(d, p) matches Ok(pair) ==> doc_get(pair.0, q) == doc_get(d, q),
    decreases j,
{
    let pair = doc_take(d, p)->Ok_0;
    if j == 0 {
        let e1 = p[0];
        let e2 = q[0];
        let c1 = elem_get(d, e1)->Some_0;
        if p.len() == 1 {
            assert(elem_get(d, e1) is Some) by {
                lemma_take_resolves(d, p);
                assert(doc_get(d, p) is Some);
            }
            lemma_elem_divergent(d, e1, e2, pair.0);
            assert(elem_remove(d, e1) matches Some(pr) && pr.0 == pair.0);
            assert(elem_get(pair.0, e2) == elem_get(d, e2));
        } else {
            assert(elem_get(d, e1) is Some);
            lemma_elem_divergent(d, e1, e2, doc_take(c1, p.drop_first())->Ok_0.0);
            assert(pair.0 == elem_replace(d, e1, doc_take(c1, p.drop_first())->Ok_0.0));
            assert(elem_get(pair.0, e2) == elem_get(d, e2));
        }
        match elem_get(d, e2) {
            Some(c2) => {
                assert(doc_get(pair.0, q) == doc_get(c2, q.drop_first()));
                assert(doc_get(d, q) == doc_get(c2, q.drop_first()));
            },
            None => {},
        }
    } else {
        assert(p[0] == q[0]) by {
            assert(p.take(j)[0] == p[0]);
            assert(q.take(j)[0] == q[0]);
        }
        let e = p[0];
        assert(elem_get(d, e) is Some);
        let c = elem_get(d, e)->Some_0;
        let sub = doc_take(c, p.drop_first());
        assert(p.len() >= 2);
        assert(sub is Ok);
        let c2 = sub->Ok_0.0;
        assert(pair.0 == elem_replace(d, e, c2));
        assert(p.drop_first().take(j - 1) =~= q.drop_first().take(j - 1)) by {
            assert(forall|t: int|
                0 <= t < j - 1 ==> #[trigger] p.drop_first().take(j - 1)[t] == p.take(j)[t + 1]);
            assert(forall|t: int|
                0 <= t < j - 1 ==> #[trigger] q.drop_first().take(j - 1)[t] == q.take(j)[t + 1]);
        }
        assert(p.drop_first()[j - 1] == p[j]);
        assert(q.drop_first()[j - 1] == q[j]);
        lemma_take_disjoint(c, p.drop_first(), q.drop_first(), j - 1);
        lemma_elem_same(d, e, c2);
        assert(elem_get(pair.0, e) == Some(c2));
        assert(doc_get(pair.0, q) == doc_get(c2, q.drop_first()));
        assert(doc_get(d, q) == doc_get(c, q.drop_first()));
    }
}

/// After replacing the child at `e`, that same element resolves to the
/// replacement.
proof fn lemma_elem_same(d: DocModel, e: PathModel, c: DocModel)
    requires
        elem_get(d, e) is Some,
    ensures
        elem_get(elem_replace(d, e, c), e) == Some(c),
{
    match (d, e) {
        (DocModel::Obj(entries), PathModel::Key(k)) => {
            let i = obj_index_of(entries, k);
            lemma_obj_index_of(entries, k);
            let up = entries.update(i, (entries[i].0, c));
            lemma_obj_index_of_same_keys(entries, up, k);
        },
        _ => {},
    }
}

/// Extraction at `p` severs `p` itself: when the last step removes an
/// object key (keys are unique in a well-formed document) or the last
/// element of an array, re-resolving `p`, or any longer path through it,
/// fails. (Removing a non-final array element shifts later siblings
/// into its place instead and is not covered.)
pub proof fn lemma_take_traversed(d: DocModel, p: Seq<PathModel>, rest: Seq<PathModel>)
    requires
        doc_wf(d),
        p.len() > 0,
        doc_take(d, p) is Ok,
        p.last() is Key || (doc_get(d, p.drop_last()) matches Some(par) && par matches
            DocModel::Arr(items) && p.last() == PathModel::Index(items.len() - 1)),
    ensures
        doc_take(d, p) matches Ok(pair) ==> doc_get(pair.0, p + rest) is None,
    decreases p.len(),
{
    let pair = doc_take(d, p)->Ok_0;
    if p.len() == 1 {
        lemma_doc_get_append(pair.0, p, rest);
        assert(p.drop_last() =~= Seq::<PathModel>::empty());
        match (d, p[0]) {
            (DocModel::Obj(entries), PathModel::Key(k)) => {
                let i = obj_index_of(entries, k);
                lemma_obj_index_of(entries, k);
                let rm = entries.remove(i);
                assert(forall|t: int| 0 <= t < i ==> #[trigger] rm[t] == entries[t]);
                assert(forall|t: int| i <= t < rm.len() ==> #[trigger] rm[t] == entries[t + 1]);
                lemma_obj_index_of(rm, k);
                assert(obj_index_of(rm, k) == -1) by {
                    if obj_index_of(rm, k) != -1 {
                        let t = obj_index_of(rm, k);
                        assert(rm[t].0 == k);
                        if t < i {
                            assert(entries[t].0 == k);
                        } else {
                            assert(entries[t + 1].0 == k);
                        }
                    }
                }
                assert(elem_get(pair.0, p[0]) is None);
            },
            (DocModel::Arr(items), PathModel::Index(a)) => {
                assert(a == items.len() - 1);
                assert(items.remove(a).len() == a);
                assert(elem_get(pair.0, p[0]) is None);
            },
            _ => {},
        }
        assert(doc_get(pair.0, p) is None);
    } else {
        let e = p[0];
        let c = elem_get(d, e)->Some_0;
        let sub = doc_take(c, p.drop_first());
        assert(sub is Ok);
        let c2 = sub->Ok_0.0;
        assert(pair.0 == elem_replace(d, e, c2));
        assert(doc_wf(c)) by {
            lemma_wf_child(d, e);
        }
        assert(p.drop_first().len() > 0);
        assert(p.drop_first().last() == p.last());
        if !(p.last() is Key) {
            assert(p.drop_last().len() >= 1);
            assert(p.drop_last()[0] == e);
            assert(p.drop_last().drop_first() =~= p.drop_first().drop_last());
            assert(doc_get(d, p.drop_last()) == doc_get(c, p.drop_first().drop_last()));
        }
        lemma_take_traversed(c, p.drop_first(), rest);
        lemma_elem_same(d, e, c2);
        assert(elem_get(pair.0, e) == Some(c2));
        assert((p + rest)[0] == e);
        assert((p + rest).drop_first() =~= p.drop_first() + rest);
        assert(doc_get(pair.0, p + rest) == doc_get(c2, p.drop_first() + rest));
    }
}

/// A well-formed document has well-formed children.
proof fn lemma_wf_child(d: DocModel, e: PathModel)
    requires
        doc_wf(d),
        elem_get(d, e) is Some,
    ensures
        doc_wf(elem_get(d, e)->Some_0),
{
    match (d, e) {
        (DocModel::Obj(entries), PathModel::Key(k)) => {
            lemma_obj_index_of(entries, k);
        },
        _ => {},
    }
}

/// Distinct numbers have distinct decimal renderings.
pub proof fn lemma_dec_str_injective(a: nat, b: nat)
    requires
        a != b,
    ensures
        dec_str(a) != dec_str(b),
    decreases a + b,
{
    if a < 10 && b < 10 {
        assert(dec_str(a)[0] == digit_char(a as int));
        assert(dec_str(b)[0] == digit_char(b as int));
        assert(digit_char(a as int) != digit_char(b as int));
    } else if a < 10 {
        assert(dec_str(a).len() == 1);
        assert(dec_str(b).len() == dec_str(b / 10).len() + 1);
        assert(dec_str(b / 10).len() >= 1);
    } else if b < 10 {
        assert(dec_str(b).len() == 1);
        assert(dec_str(a).len() == dec_str(a / 10).len() + 1);
        assert(dec_str(a / 10).len() >= 1);
    } else {
        if dec_str(a) == dec_str(b) {
            let la = dec_str(a).len();
            assert(dec_str(a).last() == digit_char((a % 10) as int));
            assert(dec_str(b).last() == digit_char((b % 10) as int));
            assert(a % 10 == b % 10) by {
                if a % 10 != b % 10 {
                    assert(digit_char((a % 10) as int) != digit_char((b % 10) as int));
                }
            }
            assert(dec_str(a).drop_last() =~= dec_str(a / 10));
            assert(dec_str(b).drop_last() =~= dec_str(b / 10));
            if a / 10 != b / 10 {
                lemma_dec_str_injective(a / 10, b / 10);
                assert(false);
            }
            assert(a == (a / 10) * 10 + a % 10) by (nonlinear_arith);
            assert(b == (b / 10) * 10 + b % 10) by (nonlinear_arith);
            assert(false);
        }
    }
}

/// The re-keyed elements of a flipped array carry pairwise distinct
/// keys, since distinct indices render to distinct decimal strings.
proof fn lemma_flip_keys_unique(arr: Seq<DocModel>)
    ensures
        obj_keys_unique(flip_entries(arr)),
{
    assert forall|i: int, j: int| 0 <= i < j < flip_entries(arr).len()
        implies flip_entries(arr)[i].0 != flip_entries(arr)[j].0 by {
        lemma_dec_str_injective((i + 1) as nat, (j + 1) as nat);
    }
}

/// Insertion keeps an object's keys pairwise distinct and its entry
/// documents well-formed.
proof fn lemma_obj_insert_wf(obj: Seq<(Seq<char>, DocModel)>, k: Seq<char>, v: DocModel)
    requires
        obj_keys_unique(obj),
        forall|t: int| 0 <= t < obj.len() ==> doc_wf((#[trigger] obj[t]).1),
        doc_wf(v),
    ensures
        obj_keys_unique(obj_insert_model(obj, k, v)),
        forall|t: int|
            0 <= t < obj_insert_model(obj, k, v).len() ==> doc_wf(
                (#[trigger] obj_insert_model(obj, k, v)[t]).1,
            ),
{
    lemma_obj_index_of(obj, k);
    let i = obj_index_of(obj, k);
    let out = obj_insert_model(obj, k, v);
    if i >= 0 {
        assert(obj[i].0 == k);
        assert forall|p: int, q: int| 0 <= p < q < out.len() implies out[p].0 != out[q].0 by {
            assert(out[p].0 == obj[p].0);
            assert(out[q].0 == obj[q].0);
        }
    } else {
        assert forall|p: int, q: int| 0 <= p < q < out.len() implies out[p].0 != out[q].0 by {
            if q == out.len() - 1 {
                assert(out[p].0 == obj[p].0);
                if obj[p].0 == k {
                    assert(false);
                }
            }
        }
    }
}

/// Whatever a script value holds, its conversion is a well-formed
/// document: finite floats only, pairwise distinct object keys.
pub proof fn lemma_script_to_doc_wf(v: ScriptModel)
    ensures
        doc_wf(script_to_doc_model(v)),
    decreases v, 0int,
{
    match v {
        ScriptModel::Table(entries) => {
            lemma_classify_wf(entries, 0, Seq::empty(), Seq::empty(), true);
        },
        _ => {},
    }
}

/// The classification scan keeps its state well-formed, so its result is.
proof fn lemma_classify_wf(
    entries: Seq<(ScriptModel, ScriptModel)>,
    i: int,
    arr: Seq<DocModel>,
    obj: Seq<(Seq<char>, DocModel)>,
    is_array: bool,
)
    requires
        forall|t: int| 0 <= t < arr.len() ==> doc_wf(#[trigger] arr[t]),
        obj_keys_unique(obj),
        forall|t: int| 0 <= t < obj.len() ==> doc_wf((#[trigger] obj[t]).1),
    ensures
        doc_wf(classify(entries, i, arr, obj, is_array)),
    decreases entries, entries.len() - i, 1int,
{
    if i < 0 || i >= entries.len() {
    } else {
        let v = script_to_doc_model(entries[i].1);
        lemma_script_to_doc_wf(entries[i].1);
        let base = if is_array {
            flip_entries(arr)
        } else {
            obj
        };
        assert(obj_keys_unique(base) && forall|t: int|
            0 <= t < base.len() ==> doc_wf((#[trigger] base[t]).1)) by {
            if is_array {
                lemma_flip_keys_unique(arr);
            }
        }
        match entries[i].0 {
            ScriptModel::Int(k) => {
                if k >= 1 {
                    if is_array && k - 1 == arr.len() {
                        lemma_classify_wf(entries, i + 1, arr.push(v), obj, true);
                    } else {
                        lemma_obj_insert_wf(base, dec_str(k as nat), v);
                        lemma_classify_wf(
                            entries,
                            i + 1,
                            Seq::empty(),
                            obj_insert_model(base, dec_str(k as nat), v),
                            false,
                        );
                    }
                } else {
                    lemma_classify_wf(entries, i + 1, Seq::empty(), base, false);
                }
            },
            ScriptModel::Str(ks) => {
                lemma_obj_insert_wf(base, ks, v);
                lemma_classify_wf(
                    entries,
                    i + 1,
                    Seq::empty(),
                    obj_insert_model(base, ks, v),
                    false,
                );
            },
            _ => {
                lemma_classify_wf(entries, i + 1, Seq::empty(), base, false);
            },
        }
    }
}

/// Replacing one child of a well-formed node with a well-formed document
/// keeps the node well-formed.
proof fn lemma_elem_replace_wf(d: DocModel, e: PathModel, c: DocModel)
    requires
        doc_wf(d),
        doc_wf(c),
    ensures
        doc_wf(elem_replace(d, e, c)),
{
    match (d, e) {
        (DocModel::Obj(entries), PathModel::Key(k)) => {
            lemma_obj_index_of(entries, k);
            let i = obj_index_of(entries, k);
            if i >= 0 {
                let up = entries.update(i, (entries[i].0, c));
                lemma_obj_wf(entries);
                lemma_obj_wf(up);
                assert(obj_keys_unique(up)) by {
                    assert(forall|t: int| 0 <= t < up.len() ==> (#[trigger] up[t]).0 == entries[t].0);
                }
            }
        },
        (DocModel::Arr(items), PathModel::Index(i)) => {
            if 0 <= i < items.len() {
                lemma_arr_wf(items);
                lemma_arr_wf(items.update(i, c));
            }
        },
        _ => {},
    }
}

/// Removing one child of a well-formed node leaves a well-formed node
/// and carries out a well-formed document.
proof fn lemma_elem_remove_wf(d: DocModel, e: PathModel)
    requires
        doc_wf(d),
    ensures
        elem_remove(d, e) matches Some(pair) ==> doc_wf(pair.0) && doc_wf(pair.1),
{
    match (d, e) {
        (DocModel::Obj(entries), PathModel::Key(k)) => {
            lemma_obj_index_of(entries, k);
            let i = obj_index_of(entries, k);
            if i >= 0 {
                let rm = entries.remove(i);
                lemma_obj_wf(entries);
                lemma_obj_wf(rm);
                assert(forall|t: int| 0 <= t < i ==> #[trigger] rm[t] == entries[t]);
                assert(forall|t: int| i <= t < rm.len() ==> #[trigger] rm[t] == entries[t + 1]);
                assert(obj_keys_unique(rm)) by {
                    assert forall|p: int, q: int| 0 <= p < q < rm.len() implies rm[p].0
                        != rm[q].0 by {
                        let p0 = if p < i { p } else { p + 1 };
                        let q0 = if q < i { q } else { q + 1 };
                        assert(rm[p] == entries[p0]);
                        assert(rm[q] == entries[q0]);
                    }
                }
            }
        },
        (DocModel::Arr(items), PathModel::Index(i)) => {
            if 0 <= i < items.len() {
                lemma_arr_wf(items);
                lemma_arr_wf(items.remove(i));
                assert(forall|t: int| 0 <= t < i ==> #[trigger] items.remove(i)[t] == items[t]);
                assert(forall|t: int|
                    i <= t < items.remove(i).len() ==> #[trigger] items.remove(i)[t] == items[t
                        + 1]);
            }
        },
        _ => {},
    }
}

/// A keyed write into a well-formed document, with a well-formed value,
/// keeps the document well-formed.
pub proof fn lemma_doc_write_wf(
    d: DocModel,
    p: Seq<PathModel>,
    key: Option<PathModel>,
    val: DocModel,
)
    requires
        doc_wf(d),
        doc_wf(val),
    ensures
        doc_write(d, p, key, val) matches Ok(nd) ==> doc_wf(nd),
    decreases p.len(),
{
    if p.len() == 0 {
        match key {
            Some(PathModel::Key(k)) => {
                match d {
                    DocModel::Obj(entries) => {
                        lemma_obj_wf(entries);
                        lemma_obj_insert_wf(entries, k, val);
                        lemma_obj_wf(obj_insert_model(entries, k, val));
                    },
                    _ => {},
                }
            },
            Some(PathModel::Index(i)) => {
                match d {
                    DocModel::Arr(items) => {
                        if 0 <= i < items.len() {
                            lemma_arr_wf(items);
                            lemma_arr_wf(items.update(i, val));
                        }
                    },
                    _ => {},
                }
            },
            None => {},
        }
    } else {
        match elem_get(d, p[0]) {
            Some(c) => {
                lemma_wf_child(d, p[0]);
                lemma_doc_write_wf(c, p.drop_first(), key, val);
                match doc_write(c, p.drop_first(), key, val) {
                    Ok(c2) => {
                        lemma_elem_replace_wf(d, p[0], c2);
                    },
                    Err(_) => {},
                }
            },
            None => {},
        }
    }
}

/// Extraction from a well-formed document leaves a well-formed document
/// behind and carries out a well-formed document.
pub proof fn lemma_doc_take_wf(d: DocModel, p: Seq<PathModel>)
    requires
        doc_wf(d),
    ensures
        doc_take(d, p) matches Ok(pair) ==> doc_wf(pair.0) && doc_wf(pair.1),
    decreases p.len(),
{
    if p.len() == 0 {
    } else if p.len() == 1 {
        lemma_elem_remove_wf(d, p[0]);
    } else {
        match elem_get(d, p[0]) {
            Some(c) => {
                lemma_wf_child(d, p[0]);
                lemma_doc_take_wf(c, p.drop_first());
                match doc_take(c, p.drop_first()) {
                    Ok(pair) => {
                        lemma_elem_replace_wf(d, p[0], pair.0);
                    },
                    Err(_) => {},
                }
            },
            None => {},
        }
    }
}

} // verus!
