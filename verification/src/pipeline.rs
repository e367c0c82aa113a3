//! The pipeline driver's state: a finite, ordered input of documents
//! consumed one at a time, the store of roots the script works on, and
//! the ordered output of emitted documents. The script runtime around it
//! calls `get_next`, `emit` and `emit_clone`.

use vstd::prelude::*;

use crate::Fault;
use crate::binding::GetOutcome;
use crate::convert::{ScriptValue, doc_to_script_model, is_container, scalar_to_script,
    script_to_doc, script_to_doc_model};
use crate::ops::doc_take;
use crate::store::{DocView, Store, same_state};
use crate::value::{DocModel, DocValue};

verus! {

broadcast use vstd::std_specs::vec::group_vec_axioms;

/// What `emit` and `emit_clone` accept: a plain script value, or a live
/// view into a shared root.
pub enum EmitArg {
    Plain(ScriptValue),
    Handle(DocView),
}

/// One pipeline invocation's state.
pub struct Pipeline {
    pub store: Store,
    pub input: Vec<DocValue>,
    pub cursor: usize,
    pub output: Vec<DocValue>,
}

impl Pipeline {
    /// The documents emitted so far, in emission order.
    pub open spec fn out_docs(self) -> Seq<DocModel> {
        crate::value::arr_model(self.output@)
    }

    /// A fresh pipeline over an input sequence.
    pub fn new(input: Vec<DocValue>) -> (p: Pipeline)
        ensures
            p.store.num_roots() == 0,
            p.input@ == input@,
            p.cursor == 0,
            p.output@.len() == 0,
    {
        Pipeline { store: Store::new(), input, cursor: 0, output: Vec::new() }
    }

    /// Pulls the next document. A container becomes a fresh root with a
    /// top-level view onto it; a scalar converts by value; after the last
    /// document the missing sentinel comes back, indistinguishable from
    /// a stored null. The input itself and the output are never touched.
    pub fn get_next(&mut self) -> (r: GetOutcome)
        ensures
            final(self).input@ == old(self).input@,
            final(self).output@ == old(self).output@,
            old(self).cursor >= old(self).input@.len() ==> r == GetOutcome::Missing
                && *final(self) == *old(self),
            old(self).cursor < old(self).input@.len() ==> {
                let d = old(self).input@[old(self).cursor as int]@;
                &&& final(self).cursor == old(self).cursor + 1
                &&& if is_container(d) {
                    &&& r matches GetOutcome::Child(w)
                        && w.root as int == old(self).store.num_roots()
                        && w.path_m().len() == 0
                    &&& final(self).store.num_roots() == old(self).store.num_roots() + 1
                    &&& forall|q: int|
                        0 <= q < old(self).store.num_roots()
                            ==> final(self).store.slots@[q] == old(self).store.slots@[q]
                    &&& final(self).store.doc_at(old(self).store.num_roots()) == d
                    &&& final(self).store.readers_at(old(self).store.num_roots()) == 0
                    &&& !final(self).store.writer_at(old(self).store.num_roots())
                } else {
                    &&& r matches GetOutcome::Scalar(v) && v@ == doc_to_script_model(d)
                    &&& final(self).store == old(self).store
                }
            },
    {
        if self.cursor >= self.input.len() {
            return GetOutcome::Missing;
        }
        let d = self.fetch_input();
        self.cursor = self.cursor + 1;
        match &d {
            DocValue::Arr(_) => GetOutcome::Child(self.store.new_root(d)),
            DocValue::Obj(_) => GetOutcome::Child(self.store.new_root(d)),
            _ => GetOutcome::Scalar(scalar_to_script(&d)),
        }
    }

    /// A copy of the input document under the cursor.
    fn fetch_input(&self) -> (d: DocValue)
        requires
            self.cursor < self.input@.len(),
        ensures
            d@ == self.input@[self.cursor as int]@,
    {
        self.input[self.cursor].duplicate()
    }

    /// Appends one converted document to the output.
    fn push_out(&mut self, d: DocValue)
        ensures
            final(self).store == old(self).store,
            final(self).input@ == old(self).input@,
            final(self).cursor == old(self).cursor,
            final(self).output@ == old(self).output@.push(d),
    {
        self.output.push(d);
    }

    /// Non-destructive emission. A plain value converts and is appended;
    /// a view is resolved and a deep copy of the referenced document is
    /// appended. The store — every root, every view's target — is left
    /// exactly as it was: re-resolving any view afterwards yields what it
    /// yielded before.
    pub fn emit_clone(&mut self, arg: &EmitArg) -> (r: Result<(), Fault>)
        requires
            match *arg {
                EmitArg::Handle(w) => w.valid(old(self).store),
                EmitArg::Plain(_) => true,
            },
        ensures
            final(self).store == old(self).store,
            final(self).input@ == old(self).input@,
            final(self).cursor == old(self).cursor,
            forall|w2: DocView|
                w2.valid(old(self).store) ==> #[trigger] w2.resolved(final(self).store)
                    == w2.resolved(old(self).store),
            match *arg {
                EmitArg::Plain(v) => r == Ok::<(), Fault>(()) && final(self).out_docs()
                    == old(self).out_docs().push(script_to_doc_model(v@)),
                EmitArg::Handle(w) => {
                    if old(self).store.writer_at(w.root as int) {
                        r == Err::<(), Fault>(Fault::BorrowConflict) && final(self).output@
                            == old(self).output@
                    } else {
                        match w.resolved(old(self).store) {
                            Some(d) => r == Ok::<(), Fault>(()) && final(self).out_docs()
                                == old(self).out_docs().push(d),
                            None => r == Err::<(), Fault>(Fault::PathResolutionFailure)
                                && final(self).output@ == old(self).output@,
                        }
                    }
                },
            },
    {
        let ghost out0 = self.output@;
        match arg {
            EmitArg::Plain(v) => {
                let d = script_to_doc(v);
                self.push_out(d);
                proof {
                    assert(self.out_docs() =~= crate::value::arr_model(out0).push(
                        script_to_doc_model(v@),
                    ));
                }
                Ok(())
            },
            EmitArg::Handle(w) => {
                match w.resolve(&self.store) {
                    Ok(d) => {
                        let ghost dm = d@;
                        self.push_out(d);
                        proof {
                            assert(self.out_docs() =~= crate::value::arr_model(out0).push(dm));
                        }
                        Ok(())
                    },
                    Err(f) => Err(f),
                }
            },
        }
    }

    /// Destructive emission. A plain value converts and is appended; a
    /// view is consumed by `take`: the document under its path is removed
    /// from its root — ancestors stay, truncated — and appended. On a
    /// fault nothing is appended and the store is unchanged.
    pub fn emit(&mut self, arg: EmitArg) -> (r: Result<(), Fault>)
        requires
            match arg {
                EmitArg::Handle(w) => w.valid(old(self).store),
                EmitArg::Plain(_) => true,
            },
        ensures
            final(self).input@ == old(self).input@,
            final(self).cursor == old(self).cursor,
            match arg {
                EmitArg::Plain(v) => r == Ok::<(), Fault>(()) && final(self).store == old(
                    self,
                ).store && final(self).out_docs() == old(self).out_docs().push(
                    script_to_doc_model(v@),
                ),
                EmitArg::Handle(w) => {
                    &&& final(self).store.num_roots() == old(self).store.num_roots()
                    &&& forall|q: int|
                        0 <= q < old(self).store.num_roots() && q != w.root as int
                            ==> final(self).store.slots@[q] == old(self).store.slots@[q]
                    &&& if old(self).store.writer_at(w.root as int) || old(self).store.readers_at(
                        w.root as int,
                    ) > 0 {
                        r == Err::<(), Fault>(Fault::BorrowConflict) && same_state(
                            final(self).store,
                            old(self).store,
                        ) && final(self).output@ == old(self).output@
                    } else {
                        match doc_take(old(self).store.doc_at(w.root as int), w.path_m()) {
                            Ok(pair) => r == Ok::<(), Fault>(()) && final(self).store.doc_at(
                                w.root as int,
                            ) == pair.0 && final(self).out_docs() == old(self).out_docs().push(
                                pair.1,
                            ),
                            Err(f) => r == Err::<(), Fault>(f) && same_state(
                                final(self).store,
                                old(self).store,
                            ) && final(self).output@ == old(self).output@,
                        }
                    }
                },
            },
    {
        let ghost out0 = self.output@;
        match arg {
            EmitArg::Plain(v) => {
                let d = script_to_doc(&v);
                self.push_out(d);
                proof {
                    assert(self.out_docs() =~= crate::value::arr_model(out0).push(
                        script_to_doc_model(v@),
                    ));
                }
                Ok(())
            },
            EmitArg::Handle(w) => {
                match self.take_from(w) {
                    Ok(d) => {
                        let ghost dm = d@;
                        self.push_out(d);
                        proof {
                            assert(self.out_docs() =~= crate::value::arr_model(out0).push(dm));
                        }
                        Ok(())
                    },
                    Err(f) => Err(f),
                }
            },
        }
    }

    /// Consumes a view against this pipeline's store.
    fn take_from(&mut self, w: DocView) -> (r: Result<DocValue, Fault>)
        requires
            w.valid(old(self).store),
        ensures
            final(self).input@ == old(self).input@,
            final(self).cursor == old(self).cursor,
            final(self).output@ == old(self).output@,
            final(self).store.num_roots() == old(self).store.num_roots(),
            forall|q: int|
                0 <= q < old(self).store.num_roots() && q != w.root as int
                    ==> final(self).store.slots@[q] == old(self).store.slots@[q],
            final(self).store.readers_at(w.root as int) == old(self).store.readers_at(
                w.root as int,
            ),
            final(self).store.writer_at(w.root as int) == old(self).store.writer_at(w.root as int),
            ({
                let before = old(self).store.doc_at(w.root as int);
                let after = final(self).store.doc_at(w.root as int);
                if old(self).store.writer_at(w.root as int) || old(self).store.readers_at(
                    w.root as int,
                ) > 0 {
                    r == Err::<DocValue, Fault>(Fault::BorrowConflict) && same_state(
                        final(self).store,
                        old(self).store,
                    )
                } else {
                    match doc_take(before, w.path_m()) {
                        Ok(pair) => after == pair.0 && (r matches Ok(leaf) && leaf@ == pair.1),
                        Err(f) => r == Err::<DocValue, Fault>(f) && same_state(
                            final(self).store,
                            old(self).store,
                        ),
                    }
                }
            }),
    {
        w.take(&mut self.store)
    }
}

} // verus!
