//! The encoder: terms to ids and back, under a dictionary that only grows.
use vstd::prelude::*;
use crate::bijective::{BijectiveMap, has_right, injective};
use crate::encoding_logic::SimpleLogic;
use crate::triple::EncodedTriple;
use crate::parser::{parsed_view, parse_lines, ntriple_shard};
use crate::model::views;

verus! {

/// What the encoder reports.
#[derive(Clone, Copy, Debug, PartialEq, Eq)]
pub enum EncoderError {
    /// A new term met an id that is already bound to another term.
    DictionaryInconsistent,
    /// No term is bound to the id.
    UnknownId,
    /// One of the five schema terms has no id.
    SchemaConstantMissing,
}

/// A triple of terms as the parser hands it over.
pub type ParsedTriple = (String, String, String);

/// The IRI of `rdfs:subClassOf`.
pub const RDFS_SUB_CLASS_OF: &'static str = "<http://www.w3.org/2000/01/rdf-schema#subClassOf>";

/// The IRI of `rdfs:subPropertyOf`.
pub const RDFS_SUB_PROPERTY_OF: &'static str = "<http://www.w3.org/2000/01/rdf-schema#subPropertyOf>";

/// The IRI of `rdf:type`.
pub const RDF_TYPE: &'static str = "<http://www.w3.org/1999/02/22-rdf-syntax-ns#type>";

/// The IRI of `rdfs:domain`.
pub const RDFS_DOMAIN: &'static str = "<http://www.w3.org/2000/01/rdf-schema#domain>";

/// The IRI of `rdfs:range`.
pub const RDFS_RANGE: &'static str = "<http://www.w3.org/2000/01/rdf-schema#range>";

/// The five schema terms in the order
/// `[subClassOf, subPropertyOf, type, domain, range]`.
pub open spec fn schema_terms() -> Seq<Seq<char>> {
    seq![RDFS_SUB_CLASS_OF@, RDFS_SUB_PROPERTY_OF@, RDF_TYPE@, RDFS_DOMAIN@, RDFS_RANGE@]
}

/// `m` grows `old_m`: every pair of `old_m` is still there.
pub open spec fn extends(old_m: Map<Seq<char>, u64>, m: Map<Seq<char>, u64>) -> bool {
    forall|l: Seq<char>| #[trigger] old_m.contains_key(l) ==> m.contains_key(l) && m[l] == old_m[l]
}

/// The terms that occur in `v`.
pub open spec fn terms_of(v: Seq<ParsedTriple>) -> Set<Seq<char>> {
    Set::new(
        |l: Seq<char>|
            exists|i: int|
                0 <= i < v.len() && (l == (#[trigger] v[i]).0@ || l == v[i].1@ || l == v[i].2@),
    )
}

/// The terms that occur in the term triples `v`.
pub open spec fn view_terms(v: Seq<(Seq<char>, Seq<char>, Seq<char>)>) -> Set<Seq<char>> {
    Set::new(
        |l: Seq<char>|
            exists|i: int|
                0 <= i < v.len() && (l == (#[trigger] v[i]).0 || l == v[i].1 || l == v[i].2),
    )
}

proof fn lemma_terms_of_views(p: Seq<ParsedTriple>)
    ensures
        terms_of(p) == view_terms(p.map_values(|t: ParsedTriple| parsed_view(t))),
{
    let v = p.map_values(|t: ParsedTriple| parsed_view(t));
    assert forall|l: Seq<char>| terms_of(p).contains(l) <==> view_terms(v).contains(l) by {
        if terms_of(p).contains(l) {
            let i = choose|i: int| 0 <= i < p.len() && (l == (#[trigger] p[i]).0@ || l == p[i].1@ || l == p[i].2@);
            assert(v[i] == parsed_view(p[i]));
        }
        if view_terms(v).contains(l) {
            let i = choose|i: int| 0 <= i < v.len() && (l == (#[trigger] v[i]).0 || l == v[i].1 || l == v[i].2);
            assert(v[i] == parsed_view(p[i]));
        }
    }
    assert(terms_of(p) =~= view_terms(v));
}

/// `e` is the encoding of the terms `p` under `m`.
pub open spec fn encodes(m: Map<Seq<char>, u64>, p: (Seq<char>, Seq<char>, Seq<char>), e: EncodedTriple) -> bool {
    &&& m.contains_key(p.0)
    &&& m.contains_key(p.1)
    &&& m.contains_key(p.2)
    &&& e == (m[p.0], m[p.1], m[p.2])
}

/// Every id of `e` is bound in `m`.
pub open spec fn ids_known(m: Map<Seq<char>, u64>, e: EncodedTriple) -> bool {
    has_right(m, e.0) && has_right(m, e.1) && has_right(m, e.2)
}

/// `p` is the decoding of `e` under `m`.
pub open spec fn decodes(m: Map<Seq<char>, u64>, e: EncodedTriple, p: ParsedTriple) -> bool {
    p.0@ == term_of(m, e.0) && p.1@ == term_of(m, e.1) && p.2@ == term_of(m, e.2)
}

/// The terms of `v` in order: subject, predicate and object of each
/// triple in turn.
pub open spec fn term_sequence(v: Seq<ParsedTriple>) -> Seq<Seq<char>>
    decreases v.len(),
{
    if v.len() == 0 {
        Seq::empty()
    } else {
        term_sequence(v.drop_last()).push(v.last().0@).push(v.last().1@).push(v.last().2@)
    }
}

/// One binding step: a term with no id yet is bound to `next`, which then
/// moves on by one; a term with an id changes nothing.
pub open spec fn assign_step(d: (Map<Seq<char>, u64>, int), t: Seq<char>) -> (Map<Seq<char>, u64>, int) {
    if d.0.contains_key(t) {
        d
    } else {
        (d.0.insert(t, d.1 as u64), d.1 + 1)
    }
}

/// The dictionary and the next id after each term of `ts`, in order, has
/// been bound to the next id unless it already had one.
pub open spec fn assign_terms(m: Map<Seq<char>, u64>, next: int, ts: Seq<Seq<char>>) -> (Map<
    Seq<char>,
    u64,
>, int)
    decreases ts.len(),
{
    if ts.len() == 0 {
        (m, next)
    } else {
        assign_step(assign_terms(m, next, ts.drop_last()), ts.last())
    }
}

proof fn lemma_assign_push(m: Map<Seq<char>, u64>, next: int, ts: Seq<Seq<char>>, t: Seq<char>)
    ensures
        assign_terms(m, next, ts.push(t)) == assign_step(assign_terms(m, next, ts), t),
{
    assert(ts.push(t).drop_last() =~= ts);
}

/// The number of triples in all the sets of `v`.
pub open spec fn total_len(v: Seq<Vec<ParsedTriple>>) -> int
    decreases v.len(),
{
    if v.len() == 0 {
        0
    } else {
        v[0]@.len() + total_len(v.drop_first())
    }
}

proof fn lemma_total_len_nonneg(v: Seq<Vec<ParsedTriple>>)
    ensures
        total_len(v) >= 0,
    decreases v.len(),
{
    if v.len() > 0 {
        lemma_total_len_nonneg(v.drop_first());
    }
}

/// The term bound to `id` in `m`.
pub open spec fn term_of(m: Map<Seq<char>, u64>, id: u64) -> Seq<char> {
    choose|l: Seq<char>| m.contains_key(l) && m[l] == id
}

/// Encodes terms to consecutive ids and decodes ids back to terms.
pub struct EncoderUnit {
    encoding_logic: SimpleLogic,
    bijective_map: BijectiveMap,
    first: u64,
}

impl EncoderUnit {
    /// The dictionary, from term to id.
    pub closed spec fn dictionary(&self) -> Map<Seq<char>, u64> {
        self.bijective_map.view()
    }

    /// The first id the encoder hands out.
    pub closed spec fn first_id(&self) -> u64 {
        self.first
    }

    /// The id the encoder hands out next.
    pub closed spec fn next_id(&self) -> u64 {
        self.encoding_logic.next()
    }

    /// The dictionary is a bijection whose ids are exactly
    /// `first_id() .. next_id()`.
    pub open spec fn wf(&self) -> bool {
        &&& injective(self.dictionary())
        &&& self.first_id() <= self.next_id()
        &&& forall|l: Seq<char>|
            #[trigger] self.dictionary().contains_key(l) ==> self.first_id() <= self.dictionary()[l]
                < self.next_id()
        &&& forall|i: u64|
            self.first_id() <= i < self.next_id() ==> #[trigger] has_right(self.dictionary(), i)
    }

    /// An encoder with an empty dictionary whose first id is the next id of
    /// `encoding_logic`.
    pub fn new(encoding_logic: SimpleLogic) -> (r: EncoderUnit)
        ensures
            r.wf(),
            r.dictionary().dom() == Set::<Seq<char>>::empty(),
            r.first_id() == encoding_logic.next(),
            r.next_id() == encoding_logic.next(),
    {
        let first = encoding_logic.peek();
        let r = EncoderUnit { encoding_logic, bijective_map: BijectiveMap::new(), first };
        assert(r.dictionary().dom() =~= Set::<Seq<char>>::empty());
        r
    }

    /// The number of ids still free.
    pub fn remaining_ids(&self) -> (r: u64)
        ensures
            r == u64::MAX - self.next_id(),
    {
        u64::MAX - self.encoding_logic.peek()
    }

    /// The id of `term`: the one it already has, or else the next id, which
    /// is then bound to it.
    pub fn encode_term(&mut self, term: String) -> (r: Result<u64, EncoderError>)
        requires
            old(self).wf(),
            old(self).next_id() < u64::MAX,
        ensures
            final(self).wf(),
            final(self).first_id() == old(self).first_id(),
            old(self).dictionary().contains_key(term@) ==> r == Ok::<u64, EncoderError>(
                old(self).dictionary()[term@],
            ) && final(self).dictionary() == old(self).dictionary() && final(self).next_id() == old(
                self,
            ).next_id(),
            !old(self).dictionary().contains_key(term@) ==> r == Ok::<u64, EncoderError>(
                old(self).next_id(),
            ) && final(self).dictionary() == old(self).dictionary().insert(
                term@,
                old(self).next_id(),
            ) && final(self).next_id() == old(self).next_id() + 1,
    {
        match self.bijective_map.get_right(&term) {
            Some(id) => Ok(id),
            None => {
                let ghost old_dict = self.dictionary();
                let ghost old_next = self.next_id();
                proof {
                    if has_right(old_dict, old_next) {
                        let l = choose|l: Seq<char>| #[trigger]
                            old_dict.contains_key(l) && old_dict[l] == old_next;
                        assert(old_dict.contains_key(l));
                    }
                }
                let id = self.encoding_logic.issue();
                match self.bijective_map.insert(term, id) {
                    Ok(()) => {
                        proof {
                            let d = self.dictionary();
                            assert forall|a: Seq<char>, b: Seq<char>|
                                #![trigger d[a], d[b]]
                                d.contains_key(a) && d.contains_key(b) && d[a] == d[b] implies a
                                == b by {
                                if a != b {
                                    if a != term@ && b != term@ {
                                        assert(old_dict[a] == old_dict[b]);
                                    } else if a == term@ {
                                        assert(old_dict.contains_key(b));
                                    } else {
                                        assert(old_dict.contains_key(a));
                                    }
                                }
                            }
                            assert forall|i: u64|
                                self.first_id() <= i < self.next_id() implies #[trigger] has_right(
                                d,
                                i,
                            ) by {
                                if i == id {
                                    assert(d.contains_key(term@));
                                } else {
                                    assert(has_right(old_dict, i));
                                    let l = choose|l: Seq<char>| #[trigger]
                                        old_dict.contains_key(l) && old_dict[l] == i;
                                    assert(d.contains_key(l));
                                }
                            }
                        }
                        Ok(id)
                    },
                    Err(_) => Err(EncoderError::DictionaryInconsistent),
                }
            },
        }
    }

    /// The term bound to `id`, or `UnknownId` when there is none.
    pub fn decode_id(&self, id: u64) -> (r: Result<String, EncoderError>)
        requires
            self.wf(),
        ensures
            r is Ok <==> has_right(self.dictionary(), id),
            r matches Ok(s) ==> self.dictionary().contains_key(s@) && self.dictionary()[s@] == id
                && s@ == term_of(self.dictionary(), id),
            r is Err ==> r == Err::<String, EncoderError>(EncoderError::UnknownId),
    {
        match self.bijective_map.get_left(id) {
            Some(s) => {
                proof {
                    let d = self.dictionary();
                    assert(d.contains_key(s@) && d[s@] == id);
                    let c = term_of(d, id);
                    assert(d[c] == d[s@]);
                }
                Ok(s)
            },
            None => Err(EncoderError::UnknownId),
        }
    }

    /// The id of `left`, if it has one.
    pub fn get_right_from_map(&self, left: &String) -> (r: Option<u64>)
        ensures
            r == (if self.dictionary().contains_key(left@) {
                Some(self.dictionary()[left@])
            } else {
                None
            }),
    {
        self.bijective_map.get_right(left)
    }

    /// Encodes every parsed triple, binding each new term to the next id.
    pub fn insert_from_parser_output(&mut self, parsed_triples: &Vec<ParsedTriple>) -> (r: Result<
        Vec<EncodedTriple>,
        EncoderError,
    >)
        requires
            old(self).wf(),
            old(self).next_id() + 3 * parsed_triples@.len() <= u64::MAX,
        ensures
            final(self).wf(),
            final(self).first_id() == old(self).first_id(),
            final(self).next_id() <= old(self).next_id() + 3 * parsed_triples@.len(),
            (final(self).dictionary(), final(self).next_id() as int) == assign_terms(
                old(self).dictionary(),
                old(self).next_id() as int,
                term_sequence(parsed_triples@),
            ),
            extends(old(self).dictionary(), final(self).dictionary()),
            forall|l: Seq<char>| #[trigger]
                final(self).dictionary().contains_key(l) ==> old(self).dictionary().contains_key(l)
                    || terms_of(parsed_triples@).contains(l),
            r is Ok,
            r matches Ok(v) ==> v@.len() == parsed_triples@.len() && forall|i: int|
                0 <= i < v@.len() ==> encodes(final(self).dictionary(), parsed_view(parsed_triples@[i]), #[trigger] v@[i]),
    {
        let mut out: Vec<EncodedTriple> = Vec::new();
        let mut i: usize = 0;
        while i < parsed_triples.len()
            invariant
                self.wf(),
                self.first_id() == old(self).first_id(),
                i <= parsed_triples.len(),
                self.next_id() <= old(self).next_id() + 3 * i,
                (self.dictionary(), self.next_id() as int) == assign_terms(
                    old(self).dictionary(),
                    old(self).next_id() as int,
                    term_sequence(parsed_triples@.subrange(0, i as int)),
                ),
                old(self).next_id() + 3 * parsed_triples@.len() <= u64::MAX,
                extends(old(self).dictionary(), self.dictionary()),
                forall|l: Seq<char>| #[trigger]
                    self.dictionary().contains_key(l) ==> old(self).dictionary().contains_key(l)
                        || terms_of(parsed_triples@.subrange(0, i as int)).contains(l),
                out@.len() == i,
                forall|j: int| 0 <= j < i ==> encodes(self.dictionary(), parsed_view(parsed_triples@[j]), #[trigger] out@[j]),
            decreases parsed_triples.len() - i,
        {
            let ghost before = self.dictionary();
            let ghost ts = term_sequence(parsed_triples@.subrange(0, i as int));
            let triple = &parsed_triples[i];
            proof {
                assert(parsed_triples@.subrange(0, i + 1).drop_last() =~= parsed_triples@.subrange(0, i as int));
                assert(parsed_triples@.subrange(0, i + 1).last() == *triple);
                lemma_assign_push(old(self).dictionary(), old(self).next_id() as int, ts, triple.0@);
                lemma_assign_push(old(self).dictionary(), old(self).next_id() as int, ts.push(triple.0@), triple.1@);
                lemma_assign_push(old(self).dictionary(), old(self).next_id() as int, ts.push(triple.0@).push(triple.1@), triple.2@);
            }
            let s = self.encode_term(triple.0.clone());
            let p = self.encode_term(triple.1.clone());
            let o = self.encode_term(triple.2.clone());
            match (s, p, o) {
                (Ok(s), Ok(p), Ok(o)) => {
                    out.push((s, p, o));
                },
                _ => {
                    return Err(EncoderError::DictionaryInconsistent);
                },
            }
            proof {
                let d = self.dictionary();
                let pre = parsed_triples@.subrange(0, i as int);
                let next = parsed_triples@.subrange(0, i + 1);
                assert forall|l: Seq<char>| #[trigger] terms_of(pre).contains(l) implies terms_of(next).contains(l) by {
                    let k = choose|k: int| 0 <= k < pre.len() && (l == (#[trigger] pre[k]).0@ || l == pre[k].1@ || l == pre[k].2@);
                    assert(next[k] == pre[k]);
                }
                assert(next[i as int] == parsed_triples@[i as int]);
                assert forall|j: int| 0 <= j < i + 1 implies encodes(d, parsed_view(parsed_triples@[j]), #[trigger] out@[j]) by {
                    if j < i {
                        assert(encodes(before, parsed_view(parsed_triples@[j]), out@[j]));
                    }
                }
            }
            i = i + 1;
        }
        assert(parsed_triples@.subrange(0, parsed_triples.len() as int) =~= parsed_triples@);
        Ok(out)
    }

    /// Decodes every triple, or reports `UnknownId` when some id is not
    /// bound.
    pub fn translate(&self, encoded_dataset: &Vec<EncodedTriple>) -> (r: Result<
        Vec<ParsedTriple>,
        EncoderError,
    >)
        requires
            self.wf(),
        ensures
            r is Ok <==> forall|i: int|
                0 <= i < encoded_dataset@.len() ==> ids_known(self.dictionary(), #[trigger] encoded_dataset@[i]),
            r matches Ok(v) ==> v@.len() == encoded_dataset@.len() && forall|i: int|
                0 <= i < v@.len() ==> decodes(self.dictionary(), encoded_dataset@[i], #[trigger] v@[i]),
            r is Err ==> r == Err::<Vec<ParsedTriple>, EncoderError>(EncoderError::UnknownId),
    {
        let mut out: Vec<ParsedTriple> = Vec::new();
        let mut i: usize = 0;
        while i < encoded_dataset.len()
            invariant
                self.wf(),
                i <= encoded_dataset.len(),
                out@.len() == i,
                forall|j: int| 0 <= j < i ==> ids_known(self.dictionary(), #[trigger] encoded_dataset@[j]),
                forall|j: int| 0 <= j < i ==> decodes(self.dictionary(), encoded_dataset@[j], #[trigger] out@[j]),
            decreases encoded_dataset.len() - i,
        {
            let t = encoded_dataset[i];
            let s = self.decode_id(t.0);
            let p = self.decode_id(t.1);
            let o = self.decode_id(t.2);
            match (s, p, o) {
                (Ok(s), Ok(p), Ok(o)) => {
                    let ghost before = out@;
                    out.push((s, p, o));
                    proof {
                        assert forall|j: int| 0 <= j < i + 1 implies decodes(self.dictionary(), encoded_dataset@[j], #[trigger] out@[j]) by {
                            if j < i {
                                assert(out@[j] == before[j]);
                            }
                        }
                    }
                },
                _ => {
                    assert(!ids_known(self.dictionary(), encoded_dataset@[i as int]));
                    return Err(EncoderError::UnknownId);
                },
            }
            i = i + 1;
        }
        Ok(out)
    }

    /// The ids of the five schema terms, in the order
    /// `[subClassOf, subPropertyOf, type, domain, range]`, or
    /// `SchemaConstantMissing` when one of them has none.
    pub fn rdfs_keywords(&self) -> (r: Result<[u64; 5], EncoderError>)
        ensures
            r is Ok <==> forall|i: int| 0 <= i < 5 ==> self.dictionary().contains_key(#[trigger] schema_terms()[i]),
            r matches Ok(k) ==> forall|i: int| 0 <= i < 5 ==> k@[i] == self.dictionary()[#[trigger] schema_terms()[i]],
            r is Err ==> r == Err::<[u64; 5], EncoderError>(EncoderError::SchemaConstantMissing),
    {
        broadcast use vstd::string::to_string_from_display_ensures_for_str;

        let sco = self.get_right_from_map(&RDFS_SUB_CLASS_OF.to_string());
        let spo = self.get_right_from_map(&RDFS_SUB_PROPERTY_OF.to_string());
        let typ = self.get_right_from_map(&RDF_TYPE.to_string());
        let dom = self.get_right_from_map(&RDFS_DOMAIN.to_string());
        let rng = self.get_right_from_map(&RDFS_RANGE.to_string());
        match (sco, spo, typ, dom, rng) {
            (Some(a), Some(b), Some(c), Some(d), Some(e)) => {
                let k = [a, b, c, d, e];
                assert(k@[0] == a && k@[1] == b && k@[2] == c && k@[3] == d && k@[4] == e);
                Ok(k)
            },
            _ => {
                proof {
                    if sco is None {
                        assert(!self.dictionary().contains_key(schema_terms()[0]));
                    } else if spo is None {
                        assert(!self.dictionary().contains_key(schema_terms()[1]));
                    } else if typ is None {
                        assert(!self.dictionary().contains_key(schema_terms()[2]));
                    } else if dom is None {
                        assert(!self.dictionary().contains_key(schema_terms()[3]));
                    } else {
                        assert(!self.dictionary().contains_key(schema_terms()[4]));
                    }
                }
                Err(EncoderError::SchemaConstantMissing)
            },
        }
    }

    /// Reads the N-Triples lines of worker `index` among `peers` (all lines
    /// when both are `None`), malformed lines left out, and encodes their
    /// triples in order.
    pub fn encode(&mut self, lines: &Vec<String>, index: Option<usize>, peers: Option<usize>) -> (r:
        Vec<EncodedTriple>)
        requires
            old(self).wf(),
            old(self).next_id() + 3 * lines@.len() <= u64::MAX,
            match peers {
                Some(p) => p > 0,
                None => true,
            },
        ensures
            final(self).wf(),
            final(self).first_id() == old(self).first_id(),
            extends(old(self).dictionary(), final(self).dictionary()),
            forall|l: Seq<char>| #[trigger]
                final(self).dictionary().contains_key(l) ==> old(self).dictionary().contains_key(l)
                    || view_terms(ntriple_shard(views(lines@), index, peers)).contains(l),
            r@.len() == ntriple_shard(views(lines@), index, peers).len(),
            forall|i: int|
                0 <= i < r@.len() ==> encodes(
                    final(self).dictionary(),
                    ntriple_shard(views(lines@), index, peers)[i],
                    #[trigger] r@[i],
                ),
    {
        let parsed = parse_lines(lines, index, peers);
        proof {
            lemma_terms_of_views(parsed@);
        }
        match self.insert_from_parser_output(&parsed) {
            Ok(v) => v,
            Err(_) => Vec::new(),
        }
    }

    /// The dictionary.
    pub fn get_map(&self) -> (r: &BijectiveMap)
        ensures
            r.view() == self.dictionary(),
    {
        &self.bijective_map
    }

    /// A new encoder whose first id is the next id of `encoding_logic`,
    /// with every set of parsed triples encoded in turn under one
    /// dictionary.
    pub fn load_from_parser_output(parsed_triples: &Vec<Vec<ParsedTriple>>, encoding_logic: SimpleLogic) -> (r: (
        EncoderUnit,
        Vec<Vec<EncodedTriple>>,
    ))
        requires
            encoding_logic.next() as int + 3 * total_len(parsed_triples@) <= u64::MAX,
        ensures
            r.0.wf(),
            r.0.first_id() == encoding_logic.next(),
            forall|l: Seq<char>| #[trigger]
                r.0.dictionary().contains_key(l) ==> exists|k: int|
                    0 <= k < parsed_triples@.len() && terms_of(parsed_triples@[k]@).contains(l),
            r.1@.len() == parsed_triples@.len(),
            forall|k: int|
                0 <= k < r.1@.len() ==> (#[trigger] r.1@[k])@.len() == parsed_triples@[k]@.len(),
            forall|k: int, i: int|
                0 <= k < r.1@.len() && 0 <= i < r.1@[k]@.len() ==> encodes(
                    r.0.dictionary(),
                    parsed_view(parsed_triples@[k]@[i]),
                    #[trigger] r.1@[k]@[i],
                ),
    {
        let mut encoder = EncoderUnit::new(encoding_logic);
        let mut out: Vec<Vec<EncodedTriple>> = Vec::new();
        assert(parsed_triples@.subrange(0, parsed_triples@.len() as int) =~= parsed_triples@);
        let mut k: usize = 0;
        while k < parsed_triples.len()
            invariant
                encoder.wf(),
                encoder.first_id() == encoding_logic.next(),
                k <= parsed_triples@.len(),
                forall|l: Seq<char>| #[trigger]
                    encoder.dictionary().contains_key(l) ==> exists|kk: int|
                        0 <= kk < k && terms_of(parsed_triples@[kk]@).contains(l),
                encoder.next_id() as int + 3 * total_len(parsed_triples@.subrange(k as int, parsed_triples@.len() as int)) <= u64::MAX,
                out@.len() == k,
                forall|kk: int|
                    0 <= kk < k ==> (#[trigger] out@[kk])@.len() == parsed_triples@[kk]@.len(),
                forall|kk: int, i: int|
                    0 <= kk < k && 0 <= i < out@[kk]@.len() ==> encodes(
                        encoder.dictionary(),
                        parsed_view(parsed_triples@[kk]@[i]),
                        #[trigger] out@[kk]@[i],
                    ),
            decreases parsed_triples@.len() - k,
        {
            let ghost before = encoder.dictionary();
            let ghost old_out = out@;
            let ghost rest = parsed_triples@.subrange(k as int, parsed_triples@.len() as int);
            assert(rest.drop_first() =~= parsed_triples@.subrange(k + 1, parsed_triples@.len() as int));
            assert(rest[0] == parsed_triples@[k as int]);
            proof {
                lemma_total_len_nonneg(rest.drop_first());
            }
            let set = match encoder.insert_from_parser_output(&parsed_triples[k]) {
                Ok(v) => v,
                Err(_) => Vec::new(),
            };
            out.push(set);
            proof {
                assert forall|l: Seq<char>| #[trigger] encoder.dictionary().contains_key(l) implies exists|kk: int|
                    0 <= kk < k + 1 && terms_of(parsed_triples@[kk]@).contains(l) by {
                    if before.contains_key(l) {
                        let kk = choose|kk: int| 0 <= kk < k && terms_of(parsed_triples@[kk]@).contains(l);
                    } else {
                        assert(terms_of(parsed_triples@[k as int]@).contains(l));
                    }
                }
                assert forall|kk: int, i: int|
                    0 <= kk < k + 1 && 0 <= i < out@[kk]@.len() implies encodes(
                        encoder.dictionary(),
                        parsed_view(parsed_triples@[kk]@[i]),
                        #[trigger] out@[kk]@[i],
                    ) by {
                    if kk < k {
                        assert(out@[kk] == old_out[kk]);
                        assert(encodes(before, parsed_view(parsed_triples@[kk]@[i]), old_out[kk]@[i]));
                    }
                }
                assert forall|kk: int| 0 <= kk < k + 1 implies (#[trigger] out@[kk])@.len() == parsed_triples@[kk]@.len() by {
                    if kk < k {
                        assert(out@[kk] == old_out[kk]);
                    }
                }
            }
            k = k + 1;
        }
        (encoder, out)
    }
}

/// Every term bound in the dictionary decodes back to itself, and every id
/// that is bound encodes back to itself.
pub proof fn lemma_bijection(m: Map<Seq<char>, u64>)
    requires
        injective(m),
    ensures
        forall|t: Seq<char>| #[trigger] m.contains_key(t) ==> term_of(m, m[t]) == t,
        forall|i: u64|
            #[trigger] has_right(m, i) ==> m.contains_key(term_of(m, i)) && m[term_of(m, i)] == i,
{
    assert forall|t: Seq<char>| #[trigger] m.contains_key(t) implies term_of(m, m[t]) == t by {
        let c = term_of(m, m[t]);
        assert(m.contains_key(c) && m[c] == m[t]);
    }
}

/// The ids handed out are exactly `first_id() .. next_id()`, each bound to
/// one term only: from a first id of 0, a prefix of the naturals.
pub proof fn lemma_ids_form_prefix(e: EncoderUnit)
    requires
        e.wf(),
    ensures
        forall|i: u64| #[trigger]
            has_right(e.dictionary(), i) <==> e.first_id() <= i < e.next_id(),
        injective(e.dictionary()),
{
    assert forall|i: u64| #[trigger]
        has_right(e.dictionary(), i) implies e.first_id() <= i < e.next_id() by {
        let l = choose|l: Seq<char>| #[trigger]
            e.dictionary().contains_key(l) && e.dictionary()[l] == i;
    }
}

/// Decoding the encoding of a triple of terms gives back its terms: every
/// id of an encoded triple is bound, and bound to the term it encodes.
pub proof fn lemma_encoding_decodes(m: Map<Seq<char>, u64>, p: ParsedTriple, e: EncodedTriple)
    requires
        injective(m),
        encodes(m, parsed_view(p), e),
    ensures
        ids_known(m, e),
        decodes(m, e, p),
{
    lemma_bijection(m);
    assert(m.contains_key(p.0@) && m.contains_key(p.1@) && m.contains_key(p.2@));
}

} // verus!
