use docpipe::Fault;
use docpipe::binding::{GetOutcome, indexed_get, indexed_set, iter_entries};
use docpipe::convert::{ScriptValue, doc_to_script, script_to_doc, u64_to_string};
use docpipe::pipeline::{EmitArg, Pipeline};
use docpipe::path::PathElement;
use docpipe::store::Store;
use docpipe::value::DocValue;

fn s(x: &str) -> String {
    x.to_string()
}

fn obj(entries: Vec<(&str, DocValue)>) -> DocValue {
    DocValue::Obj(entries.into_iter().map(|(k, v)| (s(k), v)).collect())
}

fn arr(items: Vec<DocValue>) -> DocValue {
    DocValue::Arr(items)
}

fn sv_str(x: &str) -> ScriptValue {
    ScriptValue::Str(s(x))
}

#[test]
fn decimal_rendering() {
    assert_eq!(u64_to_string(0), "0");
    assert_eq!(u64_to_string(7), "7");
    assert_eq!(u64_to_string(10), "10");
    assert_eq!(u64_to_string(1234567890), "1234567890");
    assert_eq!(u64_to_string(u64::MAX), "18446744073709551615");
}

#[test]
fn table_with_gap_becomes_object() {
    let t = ScriptValue::Table(vec![
        (ScriptValue::Int(1), sv_str("a")),
        (ScriptValue::Int(3), sv_str("b")),
    ]);
    let d = script_to_doc(&t);
    let expected = obj(vec![("1", DocValue::Str(s("a"))), ("3", DocValue::Str(s("b")))]);
    assert!(d.doc_eq(&expected));
}

#[test]
fn contiguous_table_becomes_array() {
    let t = ScriptValue::Table(vec![
        (ScriptValue::Int(1), sv_str("a")),
        (ScriptValue::Int(2), sv_str("b")),
        (ScriptValue::Int(3), sv_str("c")),
    ]);
    let d = script_to_doc(&t);
    let expected = arr(vec![
        DocValue::Str(s("a")),
        DocValue::Str(s("b")),
        DocValue::Str(s("c")),
    ]);
    assert!(d.doc_eq(&expected));
}

#[test]
fn empty_table_becomes_empty_array() {
    let d = script_to_doc(&ScriptValue::Table(Vec::new()));
    assert!(d.doc_eq(&arr(Vec::new())));
}

#[test]
fn non_finite_number_collapses_to_null() {
    let d = script_to_doc(&ScriptValue::Num(f64::NAN.to_bits()));
    assert!(d.doc_eq(&DocValue::Null));
    let d = script_to_doc(&ScriptValue::Num(f64::INFINITY.to_bits()));
    assert!(d.doc_eq(&DocValue::Null));
    let d = script_to_doc(&ScriptValue::Num(2.5f64.to_bits()));
    assert!(d.doc_eq(&DocValue::Float(2.5f64.to_bits())));
}

#[test]
fn string_key_flips_collected_elements() {
    let t = ScriptValue::Table(vec![
        (ScriptValue::Int(1), sv_str("a")),
        (sv_str("x"), ScriptValue::Int(5)),
    ]);
    let d = script_to_doc(&t);
    let expected = obj(vec![("1", DocValue::Str(s("a"))), ("x", DocValue::Int(5))]);
    assert!(d.doc_eq(&expected));
}

#[test]
fn round_trip_concrete() {
    let d = obj(vec![
        ("foo", DocValue::Int(1)),
        ("nested", obj(vec![("bar", DocValue::Str(s("baz")))])),
        ("arr", arr(vec![DocValue::Int(10), DocValue::Float(1.5f64.to_bits())])),
        ("flag", DocValue::Bool(true)),
        ("none", DocValue::Null),
    ]);
    let back = script_to_doc(&doc_to_script(&d));
    assert!(back.doc_eq(&d));
}

#[test]
fn round_trip_scalars() {
    for d in [
        DocValue::Null,
        DocValue::Bool(false),
        DocValue::Int(-7),
        DocValue::Float(0.25f64.to_bits()),
        DocValue::Str(s("hi")),
        arr(vec![DocValue::Int(1), DocValue::Int(2)]),
    ] {
        let back = script_to_doc(&doc_to_script(&d));
        assert!(back.doc_eq(&d));
    }
}

#[test]
fn indexed_get_scalar_and_subview() {
    let mut store = Store::new();
    let w = store.new_root(obj(vec![
        ("foo", DocValue::Int(1)),
        ("nested", obj(vec![("bar", DocValue::Str(s("baz")))])),
    ]));
    match indexed_get(&w, &store, &sv_str("foo")).unwrap() {
        GetOutcome::Scalar(ScriptValue::Int(1)) => {}
        _ => panic!("expected the scalar 1"),
    }
    match indexed_get(&w, &store, &sv_str("nested")).unwrap() {
        GetOutcome::Child(sub) => match indexed_get(&sub, &store, &sv_str("bar")).unwrap() {
            GetOutcome::Scalar(ScriptValue::Str(x)) => assert_eq!(x, "baz"),
            _ => panic!("expected a string"),
        },
        _ => panic!("expected a subview"),
    }
    match indexed_get(&w, &store, &sv_str("absent")).unwrap() {
        GetOutcome::Missing => {}
        _ => panic!("expected missing"),
    }
}

#[test]
fn indexed_set_rules() {
    let mut store = Store::new();
    let w = store.new_root(obj(vec![("arr", arr(vec![DocValue::Int(1), DocValue::Int(2)]))]));
    let aw = match indexed_get(&w, &store, &sv_str("arr")).unwrap() {
        GetOutcome::Child(aw) => aw,
        _ => panic!("expected a subview"),
    };
    // in-bounds 1-based overwrite
    indexed_set(&aw, &mut store, &ScriptValue::Int(2), &ScriptValue::Int(99)).unwrap();
    match indexed_get(&aw, &store, &ScriptValue::Int(2)).unwrap() {
        GetOutcome::Scalar(ScriptValue::Int(99)) => {}
        _ => panic!("expected 99"),
    }
    // out-of-bounds integer write is a silent no-op; the array does not grow
    indexed_set(&aw, &mut store, &ScriptValue::Int(3), &ScriptValue::Int(7)).unwrap();
    match indexed_get(&aw, &store, &ScriptValue::Int(3)).unwrap() {
        GetOutcome::Missing => {}
        _ => panic!("expected the array unchanged"),
    }
    // a string key on an array node is rejected
    assert!(matches!(
        indexed_set(&aw, &mut store, &sv_str("k"), &ScriptValue::Int(1)),
        Err(Fault::InvalidWrite)
    ));
    // a string key on an object creates the slot
    indexed_set(&w, &mut store, &sv_str("new"), &ScriptValue::Int(5)).unwrap();
    match indexed_get(&w, &store, &sv_str("new")).unwrap() {
        GetOutcome::Scalar(ScriptValue::Int(5)) => {}
        _ => panic!("expected 5"),
    }
}

#[test]
fn borrow_discipline_conflicts() {
    let mut store = Store::new();
    let w = store.new_root(obj(vec![("a", DocValue::Int(1))]));
    let r = w.root;
    // two mutable borrow attempts on the same root must conflict
    assert!(store.try_borrow_mut(r));
    assert!(!store.try_borrow_mut(r));
    // a reader cannot join while the writer is out
    assert!(!store.try_borrow(r));
    // resolving while a writer is outstanding conflicts
    assert!(matches!(w.resolve(&store), Err(Fault::BorrowConflict)));
    store.release_borrow_mut(r);
    // concurrent readers are fine, in any order
    assert!(store.try_borrow(r));
    assert!(store.try_borrow(r));
    // but a writer cannot start while readers are out
    assert!(!store.try_borrow_mut(r));
    assert!(w.resolve(&store).is_ok());
    // writes conflict while readers are out
    assert!(matches!(
        indexed_set(&w, &mut store, &sv_str("a"), &ScriptValue::Int(2)),
        Err(Fault::BorrowConflict)
    ));
    assert!(store.release_borrow(r));
    assert!(store.release_borrow(r));
    assert!(!store.release_borrow(r));
    assert!(store.try_borrow_mut(r));
}

#[test]
fn emit_clone_leaves_source_untouched() {
    let doc = obj(vec![("foo", DocValue::Int(1))]);
    let mut p = Pipeline::new(vec![doc.duplicate()]);
    let w = match p.get_next() {
        GetOutcome::Child(w) => w,
        _ => panic!("expected a view"),
    };
    let before = w.resolve(&p.store).unwrap();
    p.emit_clone(&EmitArg::Handle(w.duplicate())).unwrap();
    let after = w.resolve(&p.store).unwrap();
    assert!(before.doc_eq(&after));
    assert!(after.doc_eq(&doc));
    assert_eq!(p.output.len(), 1);
    assert!(p.output[0].doc_eq(&doc));
}

#[test]
fn emit_removes_exactly_the_subtree() {
    let doc = obj(vec![
        ("gone", obj(vec![("x", DocValue::Int(1))])),
        ("stays", DocValue::Int(2)),
    ]);
    let mut p = Pipeline::new(vec![doc]);
    let w = match p.get_next() {
        GetOutcome::Child(w) => w,
        _ => panic!("expected a view"),
    };
    let sub = match indexed_get(&w, &p.store, &sv_str("gone")).unwrap() {
        GetOutcome::Child(sub) => sub,
        _ => panic!("expected a subview"),
    };
    let through = match indexed_get(&sub, &p.store, &sv_str("x")) {
        Ok(GetOutcome::Scalar(ScriptValue::Int(1))) => sub.subview(PathElement::Key(s("x"))),
        _ => panic!("expected 1"),
    };
    p.emit(EmitArg::Handle(sub.duplicate())).unwrap();
    // the emitted document is the extracted subtree
    assert!(p.output[0].doc_eq(&obj(vec![("x", DocValue::Int(1))])));
    // the sibling is unaffected
    match indexed_get(&w, &p.store, &sv_str("stays")).unwrap() {
        GetOutcome::Scalar(ScriptValue::Int(2)) => {}
        _ => panic!("expected the sibling untouched"),
    }
    // a view that traversed the removed subtree now fails
    assert!(matches!(sub.resolve(&p.store), Err(Fault::PathResolutionFailure)));
    assert!(matches!(through.resolve(&p.store), Err(Fault::PathResolutionFailure)));
    // taking it again is the fault the script is told about
    assert!(matches!(p.emit(EmitArg::Handle(sub)), Err(Fault::PathResolutionFailure)));
}

#[test]
fn iteration_snapshot_is_stable_but_writes_through() {
    let mut store = Store::new();
    let w = store.new_root(obj(vec![
        ("a", DocValue::Int(1)),
        ("b", obj(vec![("c", DocValue::Int(2))])),
    ]));
    let entries = iter_entries(&w, &store).unwrap();
    assert_eq!(entries.len(), 2);
    match &entries[0] {
        (ScriptValue::Str(k), GetOutcome::Scalar(ScriptValue::Int(1))) => assert_eq!(k, "a"),
        _ => panic!("expected (a, 1)"),
    }
    let subview = match &entries[1] {
        (ScriptValue::Str(k), GetOutcome::Child(sub)) => {
            assert_eq!(k, "b");
            sub
        }
        _ => panic!("expected (b, subview)"),
    };
    // a write through the yielded subview reaches the live document
    indexed_set(subview, &mut store, &sv_str("c"), &ScriptValue::Int(9)).unwrap();
    match indexed_get(subview, &store, &sv_str("c")).unwrap() {
        GetOutcome::Scalar(ScriptValue::Int(9)) => {}
        _ => panic!("expected the write to land"),
    }
    // iterating a scalar yields no entries
    let w2 = store.new_root(DocValue::Int(3));
    assert_eq!(iter_entries(&w2, &store).unwrap().len(), 0);
    // array iteration yields 1-based integer keys
    let w3 = store.new_root(arr(vec![DocValue::Int(5), DocValue::Int(6)]));
    let entries = iter_entries(&w3, &store).unwrap();
    match (&entries[0], &entries[1]) {
        (
            (ScriptValue::Int(1), GetOutcome::Scalar(ScriptValue::Int(5))),
            (ScriptValue::Int(2), GetOutcome::Scalar(ScriptValue::Int(6))),
        ) => {}
        _ => panic!("expected 1-based keys"),
    }
}

fn input_doc(foo: i64, bar: &str, a: [i64; 3]) -> DocValue {
    obj(vec![
        ("foo", DocValue::Int(foo)),
        ("nested", obj(vec![("bar", DocValue::Str(s(bar)))])),
        (
            "arr",
            arr(vec![DocValue::Int(a[0]), DocValue::Int(a[1]), DocValue::Int(a[2])]),
        ),
    ])
}

#[test]
fn end_to_end_two_documents() {
    let mut p = Pipeline::new(vec![
        input_doc(1, "baz", [10, 20, 30]),
        input_doc(2, "BAZ", [100, 200, 300]),
    ]);
    let mut sum: i64 = 0;
    loop {
        let doc = match p.get_next() {
            GetOutcome::Child(w) => w,
            GetOutcome::Missing => break,
            _ => panic!("expected container documents"),
        };
        indexed_set(&doc, &mut p.store, &sv_str("foo"), &ScriptValue::Int(42)).unwrap();
        let nested = match indexed_get(&doc, &p.store, &sv_str("nested")).unwrap() {
            GetOutcome::Child(w) => w,
            _ => panic!("expected nested"),
        };
        indexed_set(&nested, &mut p.store, &sv_str("bar"), &sv_str("changed")).unwrap();
        let a = match indexed_get(&doc, &p.store, &sv_str("arr")).unwrap() {
            GetOutcome::Child(w) => w,
            _ => panic!("expected arr"),
        };
        indexed_set(&a, &mut p.store, &ScriptValue::Int(2), &ScriptValue::Int(99)).unwrap();
        match indexed_get(&a, &p.store, &ScriptValue::Int(3)).unwrap() {
            GetOutcome::Scalar(ScriptValue::Int(x)) => sum += x,
            _ => panic!("expected a number"),
        }
        p.emit(EmitArg::Handle(doc)).unwrap();
    }
    p.emit(EmitArg::Plain(ScriptValue::Table(vec![(sv_str("sum"), ScriptValue::Int(sum))])))
        .unwrap();
    assert_eq!(sum, 330);
    assert_eq!(p.output.len(), 3);
    assert!(p.output[0].doc_eq(&input_doc(42, "changed", [10, 99, 30])));
    assert!(p.output[1].doc_eq(&input_doc(42, "changed", [100, 99, 300])));
    assert!(p.output[2].doc_eq(&obj(vec![("sum", DocValue::Int(330))])));
}

#[test]
fn get_next_scalars_and_exhaustion() {
    let mut p = Pipeline::new(vec![DocValue::Int(7), DocValue::Null]);
    match p.get_next() {
        GetOutcome::Scalar(ScriptValue::Int(7)) => {}
        _ => panic!("expected 7"),
    }
    // a stored null is indistinguishable from the end-of-input sentinel
    match p.get_next() {
        GetOutcome::Scalar(ScriptValue::Nil) => {}
        _ => panic!("expected nil"),
    }
    match p.get_next() {
        GetOutcome::Missing => {}
        _ => panic!("expected the sentinel"),
    }
}

#[test]
fn emit_whole_root_drains_it() {
    let mut p = Pipeline::new(vec![arr(vec![DocValue::Int(1)])]);
    let w = match p.get_next() {
        GetOutcome::Child(w) => w,
        _ => panic!("expected a view"),
    };
    let again = w.duplicate();
    p.emit(EmitArg::Handle(w)).unwrap();
    assert!(p.output[0].doc_eq(&arr(vec![DocValue::Int(1)])));
    // the root is consumed: what is left resolves as null
    assert!(again.resolve(&p.store).unwrap().doc_eq(&DocValue::Null));
}

#[test]
fn well_formedness_checker() {
    let good = obj(vec![
        ("a", DocValue::Int(1)),
        ("b", DocValue::Float(1.5f64.to_bits())),
    ]);
    assert!(good.check_wf());
    let dup_keys = DocValue::Obj(vec![
        (s("k"), DocValue::Int(1)),
        (s("k"), DocValue::Int(2)),
    ]);
    assert!(!dup_keys.check_wf());
    let bad_float = arr(vec![DocValue::Float(f64::NAN.to_bits())]);
    assert!(!bad_float.check_wf());
}

#[test]
fn structural_equality_distinguishes() {
    let a = obj(vec![("k", arr(vec![DocValue::Int(1), DocValue::Int(2)]))]);
    let b = obj(vec![("k", arr(vec![DocValue::Int(1), DocValue::Int(3)]))]);
    let c = a.duplicate();
    assert!(a.doc_eq(&c));
    assert!(!a.doc_eq(&b));
    assert!(!a.doc_eq(&DocValue::Null));
}

#[test]
fn emit_conflicts_while_borrowed() {
    let mut p = Pipeline::new(vec![obj(vec![("a", DocValue::Int(1))])]);
    let w = match p.get_next() {
        GetOutcome::Child(w) => w,
        _ => panic!("expected a view"),
    };
    assert!(p.store.try_borrow(w.root));
    assert!(matches!(
        p.emit(EmitArg::Handle(w.duplicate())),
        Err(Fault::BorrowConflict)
    ));
    assert!(p.store.release_borrow(w.root));
    p.emit(EmitArg::Handle(w)).unwrap();
    assert_eq!(p.output.len(), 1);
}

#[test]
fn emit_clone_of_plain_table_classifies() {
    let mut p = Pipeline::new(Vec::new());
    let t = ScriptValue::Table(vec![
        (ScriptValue::Int(1), ScriptValue::Int(10)),
        (ScriptValue::Int(2), ScriptValue::Int(20)),
    ]);
    p.emit_clone(&EmitArg::Plain(t)).unwrap();
    assert!(p.output[0].doc_eq(&arr(vec![DocValue::Int(10), DocValue::Int(20)])));
}
