//! Navigation steps: an object key or a 0-based array index.

use vstd::prelude::*;

verus! {

/// Mathematical model of one navigation step.
pub enum PathModel {
    Key(Seq<char>),
    Index(int),
}

/// One navigation step from a container to a direct child.
pub enum PathElement {
    Key(String),
    Index(usize),
}

impl View for PathElement {
    type V = PathModel;

    open spec fn view(&self) -> PathModel {
        match self {
            PathElement::Key(k) => PathModel::Key(k@),
            PathElement::Index(i) => PathModel::Index(*i as int),
        }
    }
}

/// Models each step of a path vector.
pub open spec fn path_model(path: Seq<PathElement>) -> Seq<PathModel> {
    Seq::new(
        path.len(),
        |i: int|
            if 0 <= i < path.len() {
                path[i]@
            } else {
                PathModel::Index(0)
            },
    )
}

impl PathElement {
    /// A structural copy of one navigation step.
    pub fn duplicate(&self) -> (r: PathElement)
        ensures
            r@ == self@,
    {
        match self {
            PathElement::Key(k) => PathElement::Key(k.clone()),
            PathElement::Index(i) => PathElement::Index(*i),
        }
    }
}

/// A structural copy of a path vector.
pub fn clone_path(path: &Vec<PathElement>) -> (r: Vec<PathElement>)
    ensures
        path_model(r@) == path_model(path@),
{
    let mut out: Vec<PathElement> = Vec::new();
    let mut i: usize = 0;
    while i < path.len()
        invariant
            i <= path.len(),
            out@.len() == i as int,
            forall|j: int| 0 <= j < i as int ==> out@[j]@ == path@[j]@,
        decreases path.len() - i,
    {
        out.push(path[i].duplicate());
        i = i + 1;
    }
    proof {
        assert(path_model(out@) =~= path_model(path@));
    }
    out
}

} // verus!
