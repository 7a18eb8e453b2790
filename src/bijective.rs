//! The dictionary between terms and ids, kept in a `bimap::BiHashMap`.
use vstd::prelude::*;
use bimap::BiHashMap;

verus! {

/// The bimap of the `bimap` crate, declared so that the dictionary can hold
/// one; nothing inside it is visible here.
#[verifier::external_type_specification]
#[verifier::external_body]
#[verifier::reject_recursive_types(L)]
#[verifier::reject_recursive_types(R)]
#[verifier::reject_recursive_types(LS)]
#[verifier::reject_recursive_types(RS)]
pub struct ExBiHashMap<L, R, LS, RS>(BiHashMap<L, R, LS, RS>);

/// The left-to-right pairs that a bimap of terms and ids holds.
pub uninterp spec fn bimap_pairs(m: BiHashMap<String, u64>) -> Map<Seq<char>, u64>;

/// Some term is paired with `id` in `m`.
pub open spec fn has_right(m: Map<Seq<char>, u64>, id: u64) -> bool {
    exists|l: Seq<char>| #[trigger] m.contains_key(l) && m[l] == id
}

/// No two terms of `m` share an id.
pub open spec fn injective(m: Map<Seq<char>, u64>) -> bool {
    forall|a: Seq<char>, b: Seq<char>|
        #![trigger m[a], m[b]]
        m.contains_key(a) && m.contains_key(b) && m[a] == m[b] ==> a == b
}

/// Relies on `BiHashMap::new`: the new bimap holds no pair.
#[verifier::external_body]
fn bimap_new() -> (r: BiHashMap<String, u64>)
    ensures
        bimap_pairs(r).dom() == Set::<Seq<char>>::empty(),
{
    BiHashMap::new()
}

/// Relies on `BiHashMap::get_by_left`: the id paired with `left`, if any.
#[verifier::external_body]
fn bimap_get_by_left(m: &BiHashMap<String, u64>, left: &String) -> (r: Option<u64>)
    ensures
        r == (if bimap_pairs(*m).contains_key(left@) {
            Some(bimap_pairs(*m)[left@])
        } else {
            None
        }),
{
    m.get_by_left(left).copied()
}

/// Relies on `BiHashMap::get_by_right`: a term paired with `right`, if any.
#[verifier::external_body]
fn bimap_get_by_right(m: &BiHashMap<String, u64>, right: u64) -> (r: Option<String>)
    ensures
        match r {
            Some(l) => bimap_pairs(*m).contains_key(l@) && bimap_pairs(*m)[l@] == right,
            None => !has_right(bimap_pairs(*m), right),
        },
{
    m.get_by_right(&right).cloned()
}

/// Relies on `BiHashMap::insert_no_overwrite`: the pair is added unless its
/// left or its right value is already paired, in which case the bimap is left
/// as it was and the pair is handed back.
#[verifier::external_body]
fn bimap_insert_no_overwrite(m: &mut BiHashMap<String, u64>, left: String, right: u64) -> (r:
    Result<(), (String, u64)>)
    ensures
        bimap_pairs(*old(m)).contains_key(left@) || has_right(bimap_pairs(*old(m)), right) ==> (
        r is Err && bimap_pairs(*final(m)) == bimap_pairs(*old(m))),
        r matches Err(back) ==> back.0@ == left@ && back.1 == right,
        !(bimap_pairs(*old(m)).contains_key(left@) || has_right(bimap_pairs(*old(m)), right)) ==> (
        r is Ok && bimap_pairs(*final(m)) == bimap_pairs(*old(m)).insert(left@, right)),
{
    m.insert_no_overwrite(left, right)
}

/// A bijection between terms and ids.
pub struct BijectiveMap {
    bimap: BiHashMap<String, u64>,
}

impl BijectiveMap {
    /// The pairs held, from term to id.
    pub closed spec fn view(&self) -> Map<Seq<char>, u64> {
        bimap_pairs(self.bimap)
    }

    /// An empty dictionary.
    pub fn new() -> (r: BijectiveMap)
        ensures
            r.view().dom() == Set::<Seq<char>>::empty(),
    {
        BijectiveMap { bimap: bimap_new() }
    }

    /// The id of `left`, if it has one.
    pub fn get_right(&self, left: &String) -> (r: Option<u64>)
        ensures
            r == (if self.view().contains_key(left@) {
                Some(self.view()[left@])
            } else {
                None
            }),
    {
        bimap_get_by_left(&self.bimap, left)
    }

    /// A term with id `right`, if there is one.
    pub fn get_left(&self, right: u64) -> (r: Option<String>)
        ensures
            match r {
                Some(l) => self.view().contains_key(l@) && self.view()[l@] == right,
                None => !has_right(self.view(), right),
            },
    {
        bimap_get_by_right(&self.bimap, right)
    }

    /// Adds the pair unless `left` or `right` is already paired; then the
    /// pair is handed back and nothing changes.
    pub fn insert(&mut self, left: String, right: u64) -> (r: Result<(), (String, u64)>)
        ensures
            old(self).view().contains_key(left@) || has_right(old(self).view(), right) ==> (r is Err
                && final(self).view() == old(self).view()),
            r matches Err(back) ==> back.0@ == left@ && back.1 == right,
            !(old(self).view().contains_key(left@) || has_right(old(self).view(), right)) ==> (r is Ok
                && final(self).view() == old(self).view().insert(left@, right)),
    {
        bimap_insert_no_overwrite(&mut self.bimap, left, right)
    }
}

} // verus!
