//! Conversion between document values and the embedded language's value
//! shape, including the array/object classification of generic tables.

use vstd::prelude::*;
use vstd::string::StringExecFns;

use crate::ops::obj_insert_model;
use crate::path::PathElement;
use crate::value::{DocModel, DocValue, arr_model, float_bits_finite, obj_model};

verus! {

broadcast use vstd::std_specs::vec::group_vec_axioms;

/// Mathematical model of a script-side value.
pub enum ScriptModel {
    Nil,
    Bool(bool),
    Int(i64),
    /// A floating-point number, carried as its raw bit pattern.
    Num(u64),
    Str(Seq<char>),
    /// A generic container: an ordered sequence of key/value pairs.
    Table(Seq<(ScriptModel, ScriptModel)>),
    /// Anything the document model cannot carry (functions, foreign
    /// objects); it converts to `Null`.
    Opaque,
}

/// A script-side value handed across the binding layer.
pub enum ScriptValue {
    Nil,
    Bool(bool),
    Int(i64),
    /// A floating-point number, carried as its raw bit pattern.
    Num(u64),
    Str(String),
    /// A generic container: an ordered sequence of key/value pairs.
    Table(Vec<(ScriptValue, ScriptValue)>),
    /// Anything the document model cannot carry; it converts to `Null`.
    Opaque,
}

/// Models each pair of a table's backing vector.
pub open spec fn tbl_model(entries: Seq<(ScriptValue, ScriptValue)>) -> Seq<
    (ScriptModel, ScriptModel),
>
    decreases entries,
{
    Seq::new(
        entries.len(),
        |i: int|
            if 0 <= i < entries.len() {
                (entries[i].0.model(), entries[i].1.model())
            } else {
                (ScriptModel::Nil, ScriptModel::Nil)
            },
    )
}

impl ScriptValue {
    /// The mathematical script value this value represents.
    pub open spec fn model(self) -> ScriptModel
        decreases self,
    {
        match self {
            ScriptValue::Nil => ScriptModel::Nil,
            ScriptValue::Bool(b) => ScriptModel::Bool(b),
            ScriptValue::Int(i) => ScriptModel::Int(i),
            ScriptValue::Num(bits) => ScriptModel::Num(bits),
            ScriptValue::Str(s) => ScriptModel::Str(s@),
            ScriptValue::Table(entries) => ScriptModel::Table(tbl_model(entries@)),
            ScriptValue::Opaque => ScriptModel::Opaque,
        }
    }
}

impl View for ScriptValue {
    type V = ScriptModel;

    open spec fn view(&self) -> ScriptModel {
        self.model()
    }
}

/// The decimal digit `d` as a character.
pub open spec fn digit_char(d: int) -> char {
    if d == 0 { '0' }
    else if d == 1 { '1' }
    else if d == 2 { '2' }
    else if d == 3 { '3' }
    else if d == 4 { '4' }
    else if d == 5 { '5' }
    else if d == 6 { '6' }
    else if d == 7 { '7' }
    else if d == 8 { '8' }
    else { '9' }
}

/// The decimal digits of `n`, most significant first.
pub open spec fn dec_str(n: nat) -> Seq<char>
    decreases n,
{
    if n < 10 {
        seq![digit_char(n as int)]
    } else {
        dec_str(n / 10) + seq![digit_char((n % 10) as int)]
    }
}

/// The decimal digit `d` as a one-character string slice.
fn digit_str(d: u64) -> (r: &'static str)
    requires
        d < 10,
    ensures
        r@ == seq![digit_char(d as int)],
{
    proof {
        reveal_strlit("0");
        reveal_strlit("1");
        reveal_strlit("2");
        reveal_strlit("3");
        reveal_strlit("4");
        reveal_strlit("5");
        reveal_strlit("6");
        reveal_strlit("7");
        reveal_strlit("8");
        reveal_strlit("9");
    }
    let r: &'static str = if d == 0 { "0" }
    else if d == 1 { "1" }
    else if d == 2 { "2" }
    else if d == 3 { "3" }
    else if d == 4 { "4" }
    else if d == 5 { "5" }
    else if d == 6 { "6" }
    else if d == 7 { "7" }
    else if d == 8 { "8" }
    else { "9" };
    proof {
        assert(r@ =~= seq![digit_char(d as int)]);
    }
    r
}

/// Renders `n` in decimal.
pub fn u64_to_string(n: u64) -> (s: String)
    ensures
        s@ == dec_str(n as nat),
    decreases n,
{
    if n < 10 {
        let d = digit_str(n);
        let s = d.to_owned();
        proof {
            assert(s@ =~= dec_str(n as nat));
        }
        s
    } else {
        let mut s = u64_to_string(n / 10);
        s.append(digit_str(n % 10));
        proof {
            assert(s@ =~= dec_str(n as nat));
        }
        s
    }
}

/// How a script value converts into a document. Non-finite numbers and
/// opaque values collapse to `Null`; tables go through the array/object
/// classification.
pub open spec fn script_to_doc_model(v: ScriptModel) -> DocModel
    decreases v, 0int,
{
    match v {
        ScriptModel::Nil => DocModel::Null,
        ScriptModel::Bool(b) => DocModel::Bool(b),
        ScriptModel::Int(i) => DocModel::Int(i),
        ScriptModel::Num(bits) => if float_bits_finite(bits) {
            DocModel::Float(bits)
        } else {
            DocModel::Null
        },
        ScriptModel::Str(s) => DocModel::Str(s),
        ScriptModel::Table(entries) => classify(entries, 0, Seq::empty(), Seq::empty(), true),
        ScriptModel::Opaque => DocModel::Null,
    }
}

/// Array elements already collected, re-keyed by their 1-based index in
/// decimal, for the moment a table stops being an array.
pub open spec fn flip_entries(arr: Seq<DocModel>) -> Seq<(Seq<char>, DocModel)> {
    Seq::new(
        arr.len(),
        |i: int|
            if 0 <= i < arr.len() {
                (dec_str((i + 1) as nat), arr[i])
            } else {
                (Seq::empty(), DocModel::Null)
            },
    )
}

/// The classification scan over a table's pairs. While the keys seen are
/// the contiguous run 1..n the value stays an array; the first key that
/// breaks the run flips it to an object for the remainder: the collected
/// elements are re-inserted under their stringified 1-based index, then
/// every later pair is inserted in order (a later duplicate key
/// overwrites the earlier value in place). Keys that are neither strings
/// nor positive integers flip the value and are dropped with their
/// entries.
pub open spec fn classify(
    entries: Seq<(ScriptModel, ScriptModel)>,
    i: int,
    arr: Seq<DocModel>,
    obj: Seq<(Seq<char>, DocModel)>,
    is_array: bool,
) -> DocModel
    decreases entries, entries.len() - i,
{
    if i < 0 || i >= entries.len() {
        if is_array {
            DocModel::Arr(arr)
        } else {
            DocModel::Obj(obj)
        }
    } else {
        let v = script_to_doc_model(entries[i].1);
        let base = if is_array {
            flip_entries(arr)
        } else {
            obj
        };
        match entries[i].0 {
            ScriptModel::Int(k) => if k >= 1 {
                if is_array && k - 1 == arr.len() {
                    classify(entries, i + 1, arr.push(v), obj, true)
                } else {
                    classify(
                        entries,
                        i + 1,
                        Seq::empty(),
                        obj_insert_model(base, dec_str(k as nat), v),
                        false,
                    )
                }
            } else {
                classify(entries, i + 1, Seq::empty(), base, false)
            },
            ScriptModel::Str(s) => classify(
                entries,
                i + 1,
                Seq::empty(),
                obj_insert_model(base, s, v),
                false,
            ),
            _ => classify(entries, i + 1, Seq::empty(), base, false),
        }
    }
}

/// Inserts or overwrites one object entry, keeping first-insertion order.
pub fn obj_insert(obj: &mut Vec<(String, DocValue)>, k: String, v: DocValue)
    ensures
        obj_model(final(obj)@) == obj_insert_model(obj_model(old(obj)@), k@, v@),
{
    match crate::ops::obj_find(obj, &k) {
        Some(i) => {
            obj[i] = (k, v);
            proof {
                assert(obj_model(obj@) =~= obj_insert_model(obj_model(old(obj)@), k@, v@));
            }
        },
        None => {
            obj.push((k, v));
            proof {
                assert(obj_model(obj@) =~= obj_insert_model(obj_model(old(obj)@), k@, v@));
            }
        },
    }
}

/// Re-keys collected array elements by their 1-based decimal index.
fn flip_to_entries(arr: Vec<DocValue>) -> (obj: Vec<(String, DocValue)>)
    ensures
        obj_model(obj@) == flip_entries(arr_model(arr@)),
{
    let ghost orig = arr@;
    let mut rest = arr;
    let total = rest.len();
    let mut obj: Vec<(String, DocValue)> = Vec::new();
    while rest.len() > 0
        invariant
            orig.len() == total as int,
            obj@.len() + rest@.len() == orig.len(),
            rest@ =~= orig.skip(obj@.len() as int),
            forall|j: int|
                0 <= j < obj@.len()
                    ==> #[trigger] obj@[j].0@ == dec_str((j + 1) as nat) && obj@[j].1@ == orig[j]@,
        decreases rest@.len(),
    {
        let next = obj.len() + 1;
        let key = u64_to_string(next as u64);
        let v = rest.remove(0);
        proof {
            assert(v == orig[obj@.len() as int]);
        }
        obj.push((key, v));
        proof {
            assert(rest@ =~= orig.skip(obj@.len() as int));
        }
    }
    proof {
        assert(obj_model(obj@) =~= flip_entries(arr_model(orig)));
    }
    obj
}

/// Converts a script value into a document value; see
/// `script_to_doc_model` for the cases. Whatever the script hands over,
/// the result is a well-formed document.
pub fn script_to_doc(v: &ScriptValue) -> (r: DocValue)
    ensures
        r@ == script_to_doc_model(v@),
        crate::value::doc_wf(r@),
    decreases v, 0int,
{
    proof {
        crate::laws::lemma_script_to_doc_wf(v@);
    }
    match v {
        ScriptValue::Nil => DocValue::Null,
        ScriptValue::Bool(b) => DocValue::Bool(*b),
        ScriptValue::Int(i) => DocValue::Int(*i),
        ScriptValue::Num(bits) => {
            if (*bits >> 52) & 0x7ff != 0x7ff {
                DocValue::Float(*bits)
            } else {
                DocValue::Null
            }
        },
        ScriptValue::Str(s) => DocValue::Str(s.clone()),
        ScriptValue::Table(entries) => {
            proof {
                assert(arr_model(Seq::<DocValue>::empty()) =~= Seq::<DocModel>::empty());
                assert(obj_model(Seq::<(String, DocValue)>::empty())
                    =~= Seq::<(Seq<char>, DocModel)>::empty());
            }
            classify_exec(entries, 0, Vec::new(), Vec::new(), true)
        },
        ScriptValue::Opaque => DocValue::Null,
    }
}

/// The classification scan, executably; see `classify`.
fn classify_exec(
    entries: &Vec<(ScriptValue, ScriptValue)>,
    i: usize,
    arr: Vec<DocValue>,
    obj: Vec<(String, DocValue)>,
    is_array: bool,
) -> (r: DocValue)
    requires
        i <= entries@.len(),
    ensures
        r@ == classify(tbl_model(entries@), i as int, arr_model(arr@), obj_model(obj@), is_array),
    decreases entries, entries@.len() - i,
{
    if i == entries.len() {
        if is_array {
            DocValue::Arr(arr)
        } else {
            DocValue::Obj(obj)
        }
    } else {
        proof {
            assert(tbl_model(entries@)[i as int]
                == (entries@[i as int].0@, entries@[i as int].1@));
            assert(arr_model(Seq::<DocValue>::empty()) =~= Seq::<DocModel>::empty());
            assert(obj_model(Seq::<(String, DocValue)>::empty())
                =~= Seq::<(Seq<char>, DocModel)>::empty());
        }
        let v = script_to_doc(&entries[i].1);
        match &entries[i].0 {
            ScriptValue::Int(k) => {
                let k = *k;
                if k >= 1 {
                    if is_array && (k - 1) as u64 == arr.len() as u64 {
                        let ghost a0 = arr@;
                        let mut arr2 = arr;
                        arr2.push(v);
                        proof {
                            assert(arr_model(arr2@) =~= arr_model(a0).push(v@));
                        }
                        classify_exec(entries, i + 1, arr2, obj, true)
                    } else {
                        let mut base = if is_array {
                            flip_to_entries(arr)
                        } else {
                            obj
                        };
                        obj_insert(&mut base, u64_to_string(k as u64), v);
                        classify_exec(entries, i + 1, Vec::new(), base, false)
                    }
                } else {
                    let base = if is_array {
                        flip_to_entries(arr)
                    } else {
                        obj
                    };
                    classify_exec(entries, i + 1, Vec::new(), base, false)
                }
            },
            ScriptValue::Str(s) => {
                let mut base = if is_array {
                    flip_to_entries(arr)
                } else {
                    obj
                };
                obj_insert(&mut base, s.clone(), v);
                classify_exec(entries, i + 1, Vec::new(), base, false)
            },
            _ => {
                let base = if is_array {
                    flip_to_entries(arr)
                } else {
                    obj
                };
                classify_exec(entries, i + 1, Vec::new(), base, false)
            },
        }
    }
}

/// Whether a document is an array or an object.
pub open spec fn is_container(d: DocModel) -> bool {
    d is Arr || d is Obj
}

/// Every array in the document fits an `i64` count of elements — the
/// machine limit under which 1-based integer keys can be handed to the
/// script.
pub open spec fn doc_bounded(d: DocModel) -> bool
    decreases d,
{
    match d {
        DocModel::Arr(items) => items.len() <= i64::MAX
            && forall|i: int| 0 <= i < items.len() ==> doc_bounded(#[trigger] items[i]),
        DocModel::Obj(entries) => forall|i: int|
            0 <= i < entries.len() ==> doc_bounded(#[trigger] entries[i].1),
        _ => true,
    }
}

/// How a document converts into a script value: scalars directly, an
/// array into a table keyed 1..n, an object into a table keyed by its
/// strings, in order.
pub open spec fn doc_to_script_model(d: DocModel) -> ScriptModel
    decreases d,
{
    match d {
        DocModel::Null => ScriptModel::Nil,
        DocModel::Bool(b) => ScriptModel::Bool(b),
        DocModel::Int(i) => ScriptModel::Int(i),
        DocModel::Float(bits) => ScriptModel::Num(bits),
        DocModel::Str(s) => ScriptModel::Str(s),
        DocModel::Arr(items) => ScriptModel::Table(
            Seq::new(
                items.len(),
                |i: int|
                    if 0 <= i < items.len() {
                        (ScriptModel::Int((i + 1) as i64), doc_to_script_model(items[i]))
                    } else {
                        (ScriptModel::Nil, ScriptModel::Nil)
                    },
            ),
        ),
        DocModel::Obj(entries) => ScriptModel::Table(
            Seq::new(
                entries.len(),
                |i: int|
                    if 0 <= i < entries.len() {
                        (ScriptModel::Str(entries[i].0), doc_to_script_model(entries[i].1))
                    } else {
                        (ScriptModel::Nil, ScriptModel::Nil)
                    },
            ),
        ),
    }
}

/// Converts a scalar document value into its script value.
pub fn scalar_to_script(d: &DocValue) -> (r: ScriptValue)
    requires
        !is_container(d@),
    ensures
        r@ == doc_to_script_model(d@),
{
    match d {
        DocValue::Null => ScriptValue::Nil,
        DocValue::Bool(b) => ScriptValue::Bool(*b),
        DocValue::Int(i) => ScriptValue::Int(*i),
        DocValue::Float(bits) => ScriptValue::Num(*bits),
        DocValue::Str(s) => ScriptValue::Str(s.clone()),
        DocValue::Arr(_) => ScriptValue::Nil,
        DocValue::Obj(_) => ScriptValue::Nil,
    }
}

/// Converts a document value into a script value; see
/// `doc_to_script_model`.
#[verifier::loop_isolation(false)]
pub fn doc_to_script(d: &DocValue) -> (r: ScriptValue)
    requires
        doc_bounded(d@),
    ensures
        r@ == doc_to_script_model(d@),
    decreases d,
{
    match d {
        DocValue::Null => ScriptValue::Nil,
        DocValue::Bool(b) => ScriptValue::Bool(*b),
        DocValue::Int(i) => ScriptValue::Int(*i),
        DocValue::Float(bits) => ScriptValue::Num(*bits),
        DocValue::Str(s) => ScriptValue::Str(s.clone()),
        DocValue::Arr(items) => {
            let mut tbl: Vec<(ScriptValue, ScriptValue)> = Vec::new();
            let mut i: usize = 0;
            while i < items.len()
                invariant
                    i <= items.len(),
                    tbl@.len() == i as int,
                    forall|j: int|
                        0 <= j < i as int
                            ==> #[trigger] tbl@[j].0@ == ScriptModel::Int((j + 1) as i64)
                                && tbl@[j].1@ == doc_to_script_model(items@[j]@),
                decreases items.len() - i,
            {
                proof {
                    assert(doc_bounded(arr_model(items@)[i as int]));
                }
                let key = ScriptValue::Int((i + 1) as i64);
                let val = doc_to_script(&items[i]);
                tbl.push((key, val));
                i = i + 1;
            }
            proof {
                let target = doc_to_script_model(d@)->Table_0;
                assert forall|j: int| 0 <= j < tbl@.len() implies tbl_model(tbl@)[j]
                    == target[j] by {
                    assert(arr_model(items@)[j] == items@[j]@);
                    assert(tbl@[j].0@ == ScriptModel::Int((j + 1) as i64));
                    assert(tbl@[j].1@ == doc_to_script_model(items@[j]@));
                }
                assert(tbl_model(tbl@) =~= target);
            }
            ScriptValue::Table(tbl)
        },
        DocValue::Obj(entries) => {
            let mut tbl: Vec<(ScriptValue, ScriptValue)> = Vec::new();
            let mut i: usize = 0;
            while i < entries.len()
                invariant
                    i <= entries.len(),
                    tbl@.len() == i as int,
                    forall|j: int|
                        0 <= j < i as int
                            ==> #[trigger] tbl@[j].0@ == ScriptModel::Str(entries@[j].0@)
                                && tbl@[j].1@ == doc_to_script_model(entries@[j].1@),
                decreases entries.len() - i,
            {
                proof {
                    assert(doc_bounded(obj_model(entries@)[i as int].1));
                }
                let key = ScriptValue::Str(entries[i].0.clone());
                let val = doc_to_script(&entries[i].1);
                tbl.push((key, val));
                i = i + 1;
            }
            proof {
                let target = doc_to_script_model(d@)->Table_0;
                assert forall|j: int| 0 <= j < tbl@.len() implies tbl_model(tbl@)[j]
                    == target[j] by {
                    assert(obj_model(entries@)[j] == (entries@[j].0@, entries@[j].1@));
                    assert(tbl@[j].0@ == ScriptModel::Str(entries@[j].0@));
                    assert(tbl@[j].1@ == doc_to_script_model(entries@[j].1@));
                }
                assert(tbl_model(tbl@) =~= target);
            }
            ScriptValue::Table(tbl)
        },
    }
}

/// The write key a script-side key denotes: a string names an object
/// slot, a positive integer names the 0-based array slot one below it,
/// anything else names nothing.
pub open spec fn key_to_elem_model(key: ScriptModel) -> Option<crate::path::PathModel> {
    match key {
        ScriptModel::Str(s) => Some(crate::path::PathModel::Key(s)),
        ScriptModel::Int(i) => if 1 <= i && i - 1 <= usize::MAX {
            Some(crate::path::PathModel::Index(i - 1))
        } else {
            None
        },
        _ => None,
    }
}

/// Converts a script-side key into a navigation step, 1-based integers
/// becoming 0-based indices; see `key_to_elem_model`.
pub fn key_to_elem(key: &ScriptValue) -> (r: Option<PathElement>)
    ensures
        crate::ops::opt_key_model(r) == key_to_elem_model(key@),
{
    match key {
        ScriptValue::Str(s) => Some(PathElement::Key(s.clone())),
        ScriptValue::Int(i) => {
            if 1 <= *i && (*i - 1) as u64 <= usize::MAX as u64 {
                Some(PathElement::Index((*i - 1) as usize))
            } else {
                None
            }
        },
        _ => None,
    }
}

} // verus!
