use vstd::prelude::*;

verus! {

/// A triple of three dictionary ids, ordered as subject, predicate, object.
pub type EncodedTriple = (u64, u64, u64);

/// Read access to the three positions of a triple.
pub trait Triple<T> {
    spec fn subject_of(&self) -> T;

    spec fn predicate_of(&self) -> T;

    spec fn object_of(&self) -> T;

    fn s(&self) -> (r: &T)
        ensures
            *r == self.subject_of(),
    ;

    fn p(&self) -> (r: &T)
        ensures
            *r == self.predicate_of(),
    ;

    fn o(&self) -> (r: &T)
        ensures
            *r == self.object_of(),
    ;
}

impl<T> Triple<T> for (T, T, T) {
    open spec fn subject_of(&self) -> T {
        self.0
    }

    open spec fn predicate_of(&self) -> T {
        self.1
    }

    open spec fn object_of(&self) -> T {
        self.2
    }

    fn s(&self) -> (r: &T) {
        &self.0
    }

    fn p(&self) -> (r: &T) {
        &self.1
    }

    fn o(&self) -> (r: &T) {
        &self.2
    }
}

} // verus!
