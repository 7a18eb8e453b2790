//! How ids are handed out to new terms.
use vstd::prelude::*;

verus! {

/// An encoding without state: the id is a function of the term alone.
pub trait StatelessEncodingLogic<K, V> {
    fn encode(string: K) -> V;
}

/// An encoding with state: each call hands out the next id and moves the
/// state on.
pub trait EncodingLogic<K, V>: Sized {
    /// Another id can still be handed out.
    spec fn can_encode(&self) -> bool;

    /// The id that the next call hands out.
    spec fn next_code(&self) -> V;

    /// The state after the next id has been handed out.
    spec fn advanced(&self) -> Self;

    fn encode(&mut self, string: K) -> (r: V)
        requires
            old(self).can_encode(),
        ensures
            r == old(self).next_code(),
            *final(self) == old(self).advanced(),
    ;
}

/// Hands out consecutive ids from a counter.
pub struct SimpleLogic {
    current_index: u64,
}

impl SimpleLogic {
    /// The id that the next call hands out.
    pub closed spec fn next(&self) -> u64 {
        self.current_index
    }

    /// A counter whose first id is `base_index`.
    pub fn new(base_index: u64) -> (r: SimpleLogic)
        ensures
            r.next() == base_index,
    {
        SimpleLogic { current_index: base_index }
    }

    /// The id that the next call hands out.
    pub fn peek(&self) -> (r: u64)
        ensures
            r == self.next(),
    {
        self.current_index
    }

    /// Hands out the current id and moves the counter on by one.
    pub fn issue(&mut self) -> (r: u64)
        requires
            old(self).next() < u64::MAX,
        ensures
            r == old(self).next(),
            final(self).next() == old(self).next() + 1,
    {
        let res = self.current_index;
        self.current_index = self.current_index + 1;
        res
    }
}

impl EncodingLogic<String, u64> for SimpleLogic {
    open spec fn can_encode(&self) -> bool {
        self.next() < u64::MAX
    }

    open spec fn next_code(&self) -> u64 {
        self.next()
    }

    closed spec fn advanced(&self) -> SimpleLogic {
        SimpleLogic { current_index: (self.current_index + 1) as u64 }
    }

    /// Hands out the current id, whatever the term, and moves the counter
    /// on by one.
    fn encode(&mut self, _string: String) -> (r: u64) {
        self.issue()
    }
}

/// Handing out an id moves the counter on by one.
pub proof fn lemma_encode_steps(l: SimpleLogic)
    requires
        l.next() < u64::MAX,
    ensures
        l.advanced().next() == l.next() + 1,
{
}

} // verus!
