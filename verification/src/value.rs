//! The document value model: a tagged tree of null, booleans, numbers,
//! strings, arrays and string-keyed objects.

use vstd::prelude::*;

verus! {

broadcast use vstd::std_specs::vec::group_vec_axioms;

/// Mathematical model of a document value. Floating-point numbers are
/// carried as their raw bit pattern, so the model itself stays free of
/// floating-point arithmetic.
pub enum DocModel {
    Null,
    Bool(bool),
    Int(i64),
    Float(u64),
    Str(Seq<char>),
    Arr(Seq<DocModel>),
    Obj(Seq<(Seq<char>, DocModel)>),
}

/// A document value: the tagged tree this library transforms. Objects keep
/// their entries in insertion order, with pairwise distinct keys.
pub enum DocValue {
    Null,
    Bool(bool),
    Int(i64),
    /// A finite floating-point number, carried as its raw bit pattern.
    Float(u64),
    Str(String),
    Arr(Vec<DocValue>),
    Obj(Vec<(String, DocValue)>),
}

/// Models each element of an array's backing vector.
pub open spec fn arr_model(items: Seq<DocValue>) -> Seq<DocModel>
    decreases items,
{
    Seq::new(
        items.len(),
        |i: int|
            if 0 <= i < items.len() {
                items[i].model()
            } else {
                DocModel::Null
            },
    )
}

/// Models each entry of an object's backing vector.
pub open spec fn obj_model(entries: Seq<(String, DocValue)>) -> Seq<(Seq<char>, DocModel)>
    decreases entries,
{
    Seq::new(
        entries.len(),
        |i: int|
            if 0 <= i < entries.len() {
                (entries[i].0@, entries[i].1.model())
            } else {
                (Seq::empty(), DocModel::Null)
            },
    )
}

impl DocValue {
    /// The mathematical document this value represents.
    pub open spec fn model(self) -> DocModel
        decreases self,
    {
        match self {
            DocValue::Null => DocModel::Null,
            DocValue::Bool(b) => DocModel::Bool(b),
            DocValue::Int(i) => DocModel::Int(i),
            DocValue::Float(bits) => DocModel::Float(bits),
            DocValue::Str(s) => DocModel::Str(s@),
            DocValue::Arr(items) => DocModel::Arr(arr_model(items@)),
            DocValue::Obj(entries) => DocModel::Obj(obj_model(entries@)),
        }
    }
}

impl View for DocValue {
    type V = DocModel;

    open spec fn view(&self) -> DocModel {
        self.model()
    }
}

/// A floating-point bit pattern is finite when its exponent field is not
/// all ones (all-ones marks infinities and NaNs).
pub open spec fn float_bits_finite(bits: u64) -> bool {
    (bits >> 52) & 0x7ff != 0x7ff
}

/// Object entries carry pairwise distinct keys.
pub open spec fn obj_keys_unique(entries: Seq<(Seq<char>, DocModel)>) -> bool {
    forall|i: int, j: int|
        0 <= i < j < entries.len() ==> entries[i].0 != entries[j].0
}

/// Well-formedness of a document: every float is finite, and every object
/// has pairwise distinct keys.
pub open spec fn doc_wf(d: DocModel) -> bool
    decreases d,
{
    match d {
        DocModel::Float(bits) => float_bits_finite(bits),
        DocModel::Arr(items) => forall|i: int|
            0 <= i < items.len() ==> doc_wf(#[trigger] items[i]),
        DocModel::Obj(entries) => obj_keys_unique(entries)
            && forall|i: int| 0 <= i < entries.len() ==> doc_wf(#[trigger] entries[i].1),
        _ => true,
    }
}

/// Unfolds well-formedness of an array document to its elements.
pub proof fn lemma_arr_wf(s: Seq<DocModel>)
    ensures
        doc_wf(DocModel::Arr(s)) == (forall|i: int| 0 <= i < s.len() ==> doc_wf(#[trigger] s[i])),
{
    let d = DocModel::Arr(s);
    assert(d->Arr_0 == s);
    if forall|i: int| 0 <= i < s.len() ==> doc_wf(#[trigger] s[i]) {
        assert forall|i: int| 0 <= i < d->Arr_0.len() implies doc_wf(#[trigger] d->Arr_0[i]) by {
            assert(d->Arr_0[i] == s[i]);
        }
        assert(doc_wf(d));
    }
    if doc_wf(d) {
        assert forall|i: int| 0 <= i < s.len() implies doc_wf(#[trigger] s[i]) by {
            assert(doc_wf(d->Arr_0[i]));
        }
    }
}

/// Unfolds well-formedness of an object document to its entries.
pub proof fn lemma_obj_wf(s: Seq<(Seq<char>, DocModel)>)
    ensures
        doc_wf(DocModel::Obj(s)) == (obj_keys_unique(s) && (forall|i: int|
            0 <= i < s.len() ==> doc_wf(#[trigger] s[i].1))),
{
    let d = DocModel::Obj(s);
    assert(d->Obj_0 == s);
    if obj_keys_unique(s) && (forall|i: int| 0 <= i < s.len() ==> doc_wf(#[trigger] s[i].1)) {
        assert forall|i: int| 0 <= i < d->Obj_0.len() implies doc_wf(#[trigger] d->Obj_0[i].1) by {
            assert(d->Obj_0[i] == s[i]);
        }
        assert(doc_wf(d));
    }
    if doc_wf(d) {
        assert forall|i: int| 0 <= i < s.len() implies doc_wf(#[trigger] s[i].1) by {
            assert(doc_wf(d->Obj_0[i].1));
        }
    }
}

impl DocValue {
    /// A structural deep copy: the result models the same document.
    #[verifier::loop_isolation(false)]
    pub fn duplicate(&self) -> (r: DocValue)
        ensures
            r@ == self@,
        decreases self,
    {
        match self {
            DocValue::Null => DocValue::Null,
            DocValue::Bool(b) => DocValue::Bool(*b),
            DocValue::Int(i) => DocValue::Int(*i),
            DocValue::Float(bits) => DocValue::Float(*bits),
            DocValue::Str(s) => DocValue::Str(s.clone()),
            DocValue::Arr(items) => {
                let mut out: Vec<DocValue> = Vec::new();
                let mut i: usize = 0;
                while i < items.len()
                    invariant
                        i <= items.len(),
                        out@.len() == i as int,
                        forall|j: int| 0 <= j < i as int ==> out@[j]@ == items@[j]@,
                    decreases items.len() - i,
                {
                    out.push(items[i].duplicate());
                    i = i + 1;
                }
                proof {
                    assert(arr_model(out@) =~= arr_model(items@));
                }
                DocValue::Arr(out)
            }
            DocValue::Obj(entries) => {
                let mut out: Vec<(String, DocValue)> = Vec::new();
                let mut i: usize = 0;
                while i < entries.len()
                    invariant
                        i <= entries.len(),
                        out@.len() == i as int,
                        forall|j: int| 0 <= j < i as int ==> out@[j].0@ == entries@[j].0@
                            && out@[j].1@ == entries@[j].1@,
                    decreases entries.len() - i,
                {
                    let key = entries[i].0.clone();
                    let val = entries[i].1.duplicate();
                    out.push((key, val));
                    i = i + 1;
                }
                proof {
                    assert(obj_model(out@) =~= obj_model(entries@));
                }
                DocValue::Obj(out)
            }
        }
    }

    /// Structural equality of two documents, decided at the model level.
    pub fn doc_eq(&self, other: &DocValue) -> (r: bool)
        ensures
            r == (self@ == other@),
        decreases self,
    {
        match self {
            DocValue::Null => match other {
                DocValue::Null => true,
                _ => false,
            },
            DocValue::Bool(a) => match other {
                DocValue::Bool(b) => *a == *b,
                _ => false,
            },
            DocValue::Int(a) => match other {
                DocValue::Int(b) => *a == *b,
                _ => false,
            },
            DocValue::Float(a) => match other {
                DocValue::Float(b) => *a == *b,
                _ => false,
            },
            DocValue::Str(a) => match other {
                DocValue::Str(b) => *a == *b,
                _ => false,
            },
            DocValue::Arr(xs) => match other {
                DocValue::Arr(ys) => arr_eq(xs, ys),
                _ => false,
            },
            DocValue::Obj(xs) => match other {
                DocValue::Obj(ys) => obj_eq(xs, ys),
                _ => false,
            },
        }
    }

    /// Decides well-formedness of a document value.
    pub fn check_wf(&self) -> (r: bool)
        ensures
            r == doc_wf(self@),
        decreases self,
    {
        match self {
            DocValue::Null => true,
            DocValue::Bool(_) => true,
            DocValue::Int(_) => true,
            DocValue::Float(bits) => (*bits >> 52) & 0x7ff != 0x7ff,
            DocValue::Str(_) => true,
            DocValue::Arr(items) => arr_check_wf(items),
            DocValue::Obj(entries) => obj_check_wf(entries),
        }
    }
}

/// Compares two array backing vectors elementwise at the model level.
#[verifier::loop_isolation(false)]
fn arr_eq(xs: &Vec<DocValue>, ys: &Vec<DocValue>) -> (r: bool)
    ensures
        r == (arr_model(xs@) == arr_model(ys@)),
    decreases xs,
{
    if xs.len() != ys.len() {
        proof {
            assert(arr_model(xs@).len() != arr_model(ys@).len());
        }
        false
    } else {
        let mut i: usize = 0;
        let mut same = true;
        while i < xs.len()
            invariant
                i <= xs.len(),
                xs@.len() == ys@.len(),
                same ==> forall|j: int| 0 <= j < i as int ==> xs@[j]@ == ys@[j]@,
                !same ==> arr_model(xs@) != arr_model(ys@),
            decreases xs.len() - i,
        {
            if same && !xs[i].doc_eq(&ys[i]) {
                proof {
                    assert(arr_model(xs@)[i as int] != arr_model(ys@)[i as int]);
                }
                same = false;
            }
            i = i + 1;
        }
        proof {
            if same {
                assert(arr_model(xs@) =~= arr_model(ys@));
            }
        }
        same
    }
}

/// Compares two object backing vectors entrywise at the model level.
#[verifier::loop_isolation(false)]
fn obj_eq(xs: &Vec<(String, DocValue)>, ys: &Vec<(String, DocValue)>) -> (r: bool)
    ensures
        r == (obj_model(xs@) == obj_model(ys@)),
    decreases xs,
{
    if xs.len() != ys.len() {
        proof {
            assert(obj_model(xs@).len() != obj_model(ys@).len());
        }
        false
    } else {
        let mut i: usize = 0;
        let mut same = true;
        while i < xs.len()
            invariant
                i <= xs.len(),
                xs@.len() == ys@.len(),
                same ==> forall|j: int| 0 <= j < i as int ==> xs@[j].0@ == ys@[j].0@
                    && xs@[j].1@ == ys@[j].1@,
                !same ==> obj_model(xs@) != obj_model(ys@),
            decreases xs.len() - i,
        {
            if same {
                let keys_eq = xs[i].0 == ys[i].0;
                let vals_eq = xs[i].1.doc_eq(&ys[i].1);
                if !keys_eq || !vals_eq {
                    proof {
                        assert(obj_model(xs@)[i as int] != obj_model(ys@)[i as int]);
                    }
                    same = false;
                }
            }
            i = i + 1;
        }
        proof {
            if same {
                assert(obj_model(xs@) =~= obj_model(ys@));
            }
        }
        same
    }
}

/// Decides well-formedness of every element of an array backing vector.
#[verifier::loop_isolation(false)]
fn arr_check_wf(items: &Vec<DocValue>) -> (r: bool)
    ensures
        r == doc_wf(DocModel::Arr(arr_model(items@))),
    decreases items,
{
    let mut i: usize = 0;
    let mut ok = true;
    while i < items.len()
        invariant
            i <= items.len(),
            ok == (forall|j: int| 0 <= j < i as int ==> doc_wf(#[trigger] items@[j]@)),
        decreases items.len() - i,
    {
        if !items[i].check_wf() {
            proof {
                assert(!doc_wf(items@[i as int]@));
            }
            ok = false;
        }
        i = i + 1;
    }
    proof {
        let m = arr_model(items@);
        assert(forall|j: int| 0 <= j < m.len() ==> #[trigger] m[j] == items@[j]@);
        lemma_arr_wf(m);
        if ok {
            assert(forall|j: int| 0 <= j < m.len() ==> doc_wf(#[trigger] m[j]));
        } else {
            let j = choose|j: int| 0 <= j < items@.len() && !doc_wf(#[trigger] items@[j]@);
            assert(!doc_wf(m[j]));
        }
    }
    ok
}

/// Decides well-formedness of an object backing vector: well-formed entry
/// values and pairwise distinct keys.
#[verifier::loop_isolation(false)]
fn obj_check_wf(entries: &Vec<(String, DocValue)>) -> (r: bool)
    ensures
        r == doc_wf(DocModel::Obj(obj_model(entries@))),
    decreases entries,
{
    let mut i: usize = 0;
    let mut ok = true;
    while i < entries.len()
        invariant
            i <= entries.len(),
            ok == (forall|j: int| 0 <= j < i as int ==> doc_wf(#[trigger] entries@[j].1@)),
        decreases entries.len() - i,
    {
        if !entries[i].1.check_wf() {
            proof {
                assert(!doc_wf(entries@[i as int].1@));
            }
            ok = false;
        }
        i = i + 1;
    }
    let unique = check_keys_unique(entries);
    proof {
        let m = obj_model(entries@);
        assert(forall|j: int| 0 <= j < m.len()
            ==> #[trigger] m[j] == (entries@[j].0@, entries@[j].1@));
        if obj_keys_unique(m) {
            assert forall|p: int, q: int| 0 <= p < q < entries@.len()
                implies entries@[p].0@ != entries@[q].0@ by {
                assert(m[p].0 != m[q].0);
            }
            assert(spec_entries_unique(entries@));
        }
        if spec_entries_unique(entries@) {
            assert forall|p: int, q: int| 0 <= p < q < m.len() implies m[p].0 != m[q].0 by {
                assert(entries@[p].0@ != entries@[q].0@);
            }
            assert(obj_keys_unique(m));
        }
        lemma_obj_wf(m);
        if ok {
            assert(forall|j: int| 0 <= j < m.len() ==> doc_wf(#[trigger] m[j].1));
        } else {
            let j = choose|j: int| 0 <= j < entries@.len() && !doc_wf(#[trigger] entries@[j].1@);
            assert(!doc_wf(m[j].1));
        }
    }
    ok && unique
}

/// Pairwise-distinct keys, stated over the executable entry vector.
pub open spec fn spec_entries_unique(entries: Seq<(String, DocValue)>) -> bool {
    forall|i: int, j: int|
        0 <= i < j < entries.len() ==> entries[i].0@ != entries[j].0@
}

/// Decides whether the keys of an entry vector are pairwise distinct.
pub fn check_keys_unique(entries: &Vec<(String, DocValue)>) -> (r: bool)
    ensures
        r == spec_entries_unique(entries@),
{
    let mut i: usize = 0;
    let mut ok = true;
    while i < entries.len()
        invariant
            i <= entries.len(),
            ok == (forall|p: int, q: int|
                0 <= p < q < entries@.len() && p < i as int ==> entries@[p].0@ != entries@[q].0@),
        decreases entries.len() - i,
    {
        let mut j: usize = i + 1;
        while j < entries.len()
            invariant
                i < j <= entries.len(),
                ok == (forall|p: int, q: int|
                    0 <= p < q < entries@.len()
                        && (p < i as int || (p == i as int && q < j as int))
                        ==> entries@[p].0@ != entries@[q].0@),
            decreases entries.len() - j,
        {
            if ok && entries[i].0 == entries[j].0 {
                ok = false;
            }
            j = j + 1;
        }
        i = i + 1;
    }
    ok
}

} // verus!
