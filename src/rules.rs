//! The six RhoDF entailment rules and the staged closure that composes them.
//!
//! A working collection is a `Vec<EncodedTriple>` read as the set of triples
//! it holds. Every recursive rule is the least superset of a seed that is
//! closed under one join step; the non-recursive rules are single joins.
use vstd::prelude::*;
use crate::triple::EncodedTriple;

verus! {

/// The ids of the five schema terms, in the fixed order
/// `[subClassOf, subPropertyOf, type, domain, range]`.
#[derive(Clone, Copy, Debug, PartialEq, Eq)]
pub struct SchemaIds {
    pub sco: u64,
    pub spo: u64,
    pub typ: u64,
    pub dom: u64,
    pub rng: u64,
}

impl SchemaIds {
    /// The record named by an array in the order
    /// `[subClassOf, subPropertyOf, type, domain, range]`.
    pub open spec fn from_array_spec(k: Seq<u64>) -> SchemaIds {
        SchemaIds { sco: k[0], spo: k[1], typ: k[2], dom: k[3], rng: k[4] }
    }

    /// Names the entries of an array given in the order
    /// `[subClassOf, subPropertyOf, type, domain, range]`.
    pub fn from_array(k: &[u64; 5]) -> (r: SchemaIds)
        ensures
            r == SchemaIds::from_array_spec(k@),
    {
        SchemaIds { sco: k[0], spo: k[1], typ: k[2], dom: k[3], rng: k[4] }
    }
}

/// Which component of a body triple meets the subject of its partner.
#[derive(Clone, Copy, Debug, PartialEq, Eq)]
pub enum JoinKey {
    /// `(a, q, b)` with `(b, _, c)` gives `(a, q, c)`.
    Object,
    /// `(x, q, y)` with `(q, _, p)` gives `(x, p, y)`.
    Predicate,
}

/// Whether `a` and its partner `b` meet on the join key.
pub open spec fn joins(key: JoinKey, a: EncodedTriple, b: EncodedTriple) -> bool {
    match key {
        JoinKey::Object => a.2 == b.0,
        JoinKey::Predicate => a.1 == b.0,
    }
}

/// The triple that one join step derives from `a` and its partner `b`.
pub open spec fn derived(key: JoinKey, a: EncodedTriple, b: EncodedTriple) -> EncodedTriple {
    match key {
        JoinKey::Object => (a.0, a.1, b.2),
        JoinKey::Predicate => (a.0, b.2, a.2),
    }
}

/// The partners of a recursive rule: the set itself (a transitive closure)
/// or a fixed external collection.
pub open spec fn partner_set(s: Set<EncodedTriple>, ext: Option<Set<EncodedTriple>>) -> Set<
    EncodedTriple,
> {
    match ext {
        Some(e) => e,
        None => s,
    }
}

/// `s` holds every triple that one join step derives from its members.
pub open spec fn closed_under(
    s: Set<EncodedTriple>,
    ext: Option<Set<EncodedTriple>>,
    key: JoinKey,
) -> bool {
    forall|a: EncodedTriple, b: EncodedTriple|
        #![trigger s.contains(a), partner_set(s, ext).contains(b)]
        s.contains(a) && partner_set(s, ext).contains(b) && joins(key, a, b) ==> s.contains(
            derived(key, a, b),
        )
}

/// `r` is the least set that contains `seed` and is closed under the join step.
pub open spec fn is_least_closure(
    r: Set<EncodedTriple>,
    seed: Set<EncodedTriple>,
    ext: Option<Set<EncodedTriple>>,
    key: JoinKey,
) -> bool {
    &&& seed.subset_of(r)
    &&& closed_under(r, ext, key)
    &&& forall|s: Set<EncodedTriple>|
        #![trigger closed_under(s, ext, key)]
        seed.subset_of(s) && closed_under(s, ext, key) ==> r.subset_of(s)
}

/// The least fixed point of one join step over `seed`.
pub open spec fn least_closure(
    seed: Set<EncodedTriple>,
    ext: Option<Set<EncodedTriple>>,
    key: JoinKey,
) -> Set<EncodedTriple> {
    choose|r: Set<EncodedTriple>| is_least_closure(r, seed, ext, key)
}

/// The triples whose three components all lie in `v`.
pub open spec fn cube(v: Set<u64>) -> Set<EncodedTriple> {
    Set::new(|t: EncodedTriple| v.contains(t.0) && v.contains(t.1) && v.contains(t.2))
}

/// Every id that occurs in some triple of `s`.
pub open spec fn ids_of(s: Set<EncodedTriple>) -> Set<u64> {
    s.map(|t: EncodedTriple| t.0) + s.map(|t: EncodedTriple| t.1) + s.map(|t: EncodedTriple| t.2)
}

proof fn lemma_ids_of_finite(s: Set<EncodedTriple>)
    requires
        s.finite(),
    ensures
        ids_of(s).finite(),
        s.subset_of(cube(ids_of(s))),
{
    s.lemma_map_finite(|t: EncodedTriple| t.0);
    s.lemma_map_finite(|t: EncodedTriple| t.1);
    s.lemma_map_finite(|t: EncodedTriple| t.2);
    assert forall|t: EncodedTriple| s.contains(t) implies cube(ids_of(s)).contains(t) by {
        assert(s.map(|t: EncodedTriple| t.0).contains(t.0));
        assert(s.map(|t: EncodedTriple| t.1).contains(t.1));
        assert(s.map(|t: EncodedTriple| t.2).contains(t.2));
    }
}

proof fn lemma_cube_finite(v: Set<u64>)
    requires
        v.finite(),
    ensures
        cube(v).finite(),
{
    let line = |a: u64, b: u64| v.map(|c: u64| (a, b, c));
    let plane = |a: u64| v.map(|b: u64| line(a, b)).flatten();
    let whole = v.map(|a: u64| plane(a)).flatten();
    assert forall|a: u64| #[trigger] plane(a).finite() by {
        assert forall|l: Set<EncodedTriple>| v.map(|b: u64| line(a, b)).contains(l) implies l.finite() by {
            let b = choose|b: u64| v.contains(b) && line(a, b) == l;
            v.lemma_map_finite(|c: u64| (a, b, c));
        }
        v.lemma_map_finite(|b: u64| line(a, b));
        v.map(|b: u64| line(a, b)).lemma_flatten_finite();
    }
    assert forall|p: Set<EncodedTriple>| v.map(|a: u64| plane(a)).contains(p) implies p.finite() by {
        let a = choose|a: u64| v.contains(a) && plane(a) == p;
        assert(plane(a).finite());
    }
    v.lemma_map_finite(|a: u64| plane(a));
    v.map(|a: u64| plane(a)).lemma_flatten_finite();
    assert forall|t: EncodedTriple| cube(v).contains(t) implies whole.contains(t) by {
        assert(line(t.0, t.1).contains(t));
        assert(v.map(|b: u64| line(t.0, b)).contains(line(t.0, t.1)));
        assert(plane(t.0).contains(t));
        assert(v.map(|a: u64| plane(a)).contains(plane(t.0)));
    }
    vstd::set_lib::lemma_set_subset_finite(whole, cube(v));
}

proof fn lemma_least_closure_unique(
    r: Set<EncodedTriple>,
    seed: Set<EncodedTriple>,
    ext: Option<Set<EncodedTriple>>,
    key: JoinKey,
)
    requires
        is_least_closure(r, seed, ext, key),
    ensures
        least_closure(seed, ext, key) == r,
{
    let c = least_closure(seed, ext, key);
    assert(is_least_closure(c, seed, ext, key));
    assert(closed_under(r, ext, key));
    assert(closed_under(c, ext, key));
    assert(c.subset_of(r));
    assert(r.subset_of(c));
    assert(c =~= r);
}

/// Whether `t` occurs in `v`.
pub fn contains_triple(v: &Vec<EncodedTriple>, t: EncodedTriple) -> (r: bool)
    ensures
        r == v@.contains(t),
{
    let mut i: usize = 0;
    while i < v.len()
        invariant
            i <= v.len(),
            forall|j: int| 0 <= j < i ==> v@[j] != t,
        decreases v.len() - i,
    {
        let u = v[i];
        if u.0 == t.0 && u.1 == t.1 && u.2 == t.2 {
            return true;
        }
        i = i + 1;
    }
    false
}

fn join_step(key: JoinKey, a: EncodedTriple, b: EncodedTriple) -> (r: Option<EncodedTriple>)
    ensures
        r == (if joins(key, a, b) {
            Some(derived(key, a, b))
        } else {
            None
        }),
{
    match key {
        JoinKey::Object => if a.2 == b.0 {
            Some((a.0, a.1, b.2))
        } else {
            None
        },
        JoinKey::Predicate => if a.1 == b.0 {
            Some((a.0, b.2, a.2))
        } else {
            None
        },
    }
}

pub open spec fn opt_set(ext: Option<&Vec<EncodedTriple>>) -> Option<Set<EncodedTriple>> {
    match ext {
        Some(e) => Some(e@.to_set()),
        None => None,
    }
}

/// Iterates one join step from `seed` until no new triple appears, and
/// returns the least closed superset of `seed`.
pub fn fixpoint(seed: Vec<EncodedTriple>, ext: Option<&Vec<EncodedTriple>>, key: JoinKey) -> (r:
    Vec<EncodedTriple>)
    ensures
        is_least_closure(r@.to_set(), seed@.to_set(), opt_set(ext), key),
        r@.to_set() == least_closure(seed@.to_set(), opt_set(ext), key),
        r@.no_duplicates(),
{
    let ghost seed_set = seed@.to_set();
    let ghost ext_set = opt_set(ext);
    let ghost all = match ext_set {
        Some(e) => seed_set + e,
        None => seed_set,
    };
    proof {
        lemma_ids_of_finite(all);
        lemma_cube_finite(ids_of(all));
    }
    let ghost universe = cube(ids_of(all));
    let mut cur = distinct_triples(&seed);
    loop
        invariant
            cur@.no_duplicates(),
            seed_set == seed@.to_set(),
            ext_set == opt_set(ext),
            universe.finite(),
            universe == cube(ids_of(all)),
            seed_set.subset_of(cur@.to_set()),
            cur@.to_set().subset_of(universe),
            match ext_set {
                Some(e) => e.subset_of(universe),
                None => true,
            },
            forall|s: Set<EncodedTriple>|
                #![trigger closed_under(s, ext_set, key)]
                seed_set.subset_of(s) && closed_under(s, ext_set, key) ==> cur@.to_set().subset_of(
                    s,
                ),
        decreases universe.len() - cur@.to_set().len(),
    {
        let ghost cur_set = cur@.to_set();
        proof {
            vstd::set_lib::lemma_len_subset(cur_set, universe);
        }
        let mut fresh: Vec<EncodedTriple> = Vec::new();
        let partners: &Vec<EncodedTriple> = match ext {
            Some(e) => e,
            None => &cur,
        };
        let ghost part_set = partners@.to_set();
        assert(part_set == partner_set(cur_set, ext_set));
        let mut i: usize = 0;
        while i < cur.len()
            invariant
                cur@.to_set() == cur_set,
                part_set == partners@.to_set(),
                part_set == partner_set(cur_set, ext_set),
                part_set.subset_of(universe),
                cur_set.subset_of(universe),
                universe == cube(ids_of(all)),
                i <= cur.len(),
                fresh@.to_set().subset_of(universe),
                fresh@.no_duplicates(),
                forall|t: EncodedTriple| fresh@.contains(t) ==> !cur_set.contains(t),
                forall|ii: int, jj: int|
                    #![trigger cur@[ii], partners@[jj]]
                    0 <= ii < i && 0 <= jj < partners.len() && joins(key, cur@[ii], partners@[jj])
                        ==> cur_set.contains(derived(key, cur@[ii], partners@[jj])) || fresh@.contains(
                        derived(key, cur@[ii], partners@[jj]),
                    ),
                forall|s: Set<EncodedTriple>|
                    #![trigger closed_under(s, ext_set, key)]
                    seed_set.subset_of(s) && closed_under(s, ext_set, key) ==> fresh@.to_set().subset_of(
                        s,
                    ),
                forall|s: Set<EncodedTriple>|
                    #![trigger closed_under(s, ext_set, key)]
                    seed_set.subset_of(s) && closed_under(s, ext_set, key) ==> cur_set.subset_of(s),
            decreases cur.len() - i,
        {
            let a = cur[i];
            let mut j: usize = 0;
            while j < partners.len()
                invariant
                    cur@.to_set() == cur_set,
                    part_set == partners@.to_set(),
                    part_set == partner_set(cur_set, ext_set),
                    part_set.subset_of(universe),
                    cur_set.subset_of(universe),
                    universe == cube(ids_of(all)),
                    i < cur.len(),
                    a == cur@[i as int],
                    j <= partners.len(),
                    fresh@.to_set().subset_of(universe),
                    fresh@.no_duplicates(),
                fresh@.no_duplicates(),
                    forall|t: EncodedTriple| fresh@.contains(t) ==> !cur_set.contains(t),
                    forall|ii: int, jj: int|
                        #![trigger cur@[ii], partners@[jj]]
                        0 <= ii < i && 0 <= jj < partners.len() && joins(key, cur@[ii], partners@[jj])
                            ==> cur_set.contains(derived(key, cur@[ii], partners@[jj])) || fresh@.contains(
                            derived(key, cur@[ii], partners@[jj]),
                        ),
                    forall|jj: int|
                        #![trigger partners@[jj]]
                        0 <= jj < j && joins(key, a, partners@[jj]) ==> cur_set.contains(
                            derived(key, a, partners@[jj]),
                        ) || fresh@.contains(derived(key, a, partners@[jj])),
                    forall|s: Set<EncodedTriple>|
                        #![trigger closed_under(s, ext_set, key)]
                        seed_set.subset_of(s) && closed_under(s, ext_set, key) ==> fresh@.to_set().subset_of(
                            s,
                        ),
                    forall|s: Set<EncodedTriple>|
                        #![trigger closed_under(s, ext_set, key)]
                        seed_set.subset_of(s) && closed_under(s, ext_set, key) ==> cur_set.subset_of(
                            s,
                        ),
                decreases partners.len() - j,
            {
                let b = partners[j];
                if let Some(t) = join_step(key, a, b) {
                    if !contains_triple(&cur, t) && !contains_triple(&fresh, t) {
                        proof {
                            assert(cur_set.contains(a));
                            assert(part_set.contains(b));
                            assert(universe.contains(a));
                            assert(universe.contains(b));
                            assert forall|s: Set<EncodedTriple>|
                                seed_set.subset_of(s) && closed_under(
                                    s,
                                    ext_set,
                                    key,
                                ) implies #[trigger] fresh@.push(t).to_set().subset_of(s) by {
                                assert(s.contains(a));
                                assert(partner_set(s, ext_set).contains(b));
                                fresh@.lemma_push_to_set_commute(t);
                            }
                            fresh@.lemma_push_to_set_commute(t);
                            assert(universe.contains(t));
                        }
                        let ghost old_fresh = fresh@;
                        fresh.push(t);
                        proof {
                            assert forall|x: EncodedTriple| old_fresh.contains(x) implies #[trigger] fresh@.contains(x) by {
                                let k = old_fresh.index_of(x);
                                assert(fresh@[k] == x);
                            }
                            assert(fresh@[old_fresh.len() as int] == t);
                            assert forall|x: int, y: int| 0 <= x < y < fresh@.len() implies fresh@[x] != fresh@[y] by {
                                if y == old_fresh.len() {
                                    assert(old_fresh.contains(old_fresh[x]));
                                }
                            }
                        }
                    }
                }
                j = j + 1;
            }
            i = i + 1;
        }
        if fresh.len() == 0 {
            proof {
                assert forall|a: EncodedTriple, b: EncodedTriple|
                    cur_set.contains(a) && partner_set(cur_set, ext_set).contains(b) && joins(
                        key,
                        a,
                        b,
                    ) implies cur_set.contains(derived(key, a, b)) by {
                    let ii = cur@.index_of(a);
                    let jj = partners@.index_of(b);
                    assert(cur@[ii] == a);
                    assert(partners@[jj] == b);
                }
            }
            proof {
                lemma_least_closure_unique(cur@.to_set(), seed_set, ext_set, key);
            }
            return cur;
        }
        proof {
            let x = fresh@[0];
            assert(fresh@.to_set().contains(x));
            assert(!cur_set.contains(x));
            vstd::seq_lib::seq_to_set_distributes_over_add(cur@, fresh@);
            assert(cur_set.insert(x).subset_of(cur_set + fresh@.to_set()));
            vstd::set_lib::lemma_len_subset(cur_set.insert(x), cur_set + fresh@.to_set());
            vstd::set_lib::lemma_len_subset(cur_set + fresh@.to_set(), universe);
        }
        let ghost old_cur = cur@;
        let ghost new_part = fresh@;
        cur.append(&mut fresh);
        proof {
            assert(cur@ == old_cur + new_part);
            assert forall|x: int, y: int| 0 <= x < y < cur@.len() implies cur@[x] != cur@[y] by {
                if x < old_cur.len() && y >= old_cur.len() {
                    assert(new_part.contains(cur@[y]));
                    assert(old_cur.to_set().contains(cur@[x]));
                } else if x >= old_cur.len() {
                    assert(cur@[x] == new_part[x - old_cur.len()]);
                    assert(cur@[y] == new_part[y - old_cur.len()]);
                }
            }
        }
    }
}

proof fn lemma_least_closure_exists(
    seed: Set<EncodedTriple>,
    ext: Option<Set<EncodedTriple>>,
    key: JoinKey,
)
    ensures
        is_least_closure(least_closure(seed, ext, key), seed, ext, key),
{
    let meet = Set::new(
        |t: EncodedTriple|
            forall|s: Set<EncodedTriple>|
                #![trigger closed_under(s, ext, key)]
                seed.subset_of(s) && closed_under(s, ext, key) ==> s.contains(t),
    );
    assert forall|a: EncodedTriple, b: EncodedTriple|
        meet.contains(a) && partner_set(meet, ext).contains(b) && joins(
            key,
            a,
            b,
        ) implies meet.contains(derived(key, a, b)) by {
        assert forall|s: Set<EncodedTriple>|
            seed.subset_of(s) && closed_under(s, ext, key) implies s.contains(
            derived(key, a, b),
        ) by {
            assert(s.contains(a));
            assert(partner_set(s, ext).contains(b));
        }
    }
    assert(is_least_closure(meet, seed, ext, key));
}

/// The triples of `d` whose predicate is `p`.
pub open spec fn with_predicate(d: Set<EncodedTriple>, p: u64) -> Set<EncodedTriple> {
    d.filter(|t: EncodedTriple| t.1 == p)
}

/// Some triple of `d` has subject `x`.
pub open spec fn has_subject(d: Set<EncodedTriple>, x: u64) -> bool {
    exists|e: EncodedTriple| #[trigger] d.contains(e) && e.0 == x
}

/// R1 and R2: the transitive closure of the triples of `d` with predicate `p`.
pub open spec fn transitive_rule(d: Set<EncodedTriple>, p: u64) -> Set<EncodedTriple> {
    least_closure(with_predicate(d, p), None, JoinKey::Object)
}

/// The type triples of `d` whose class has a known superclass.
pub open spec fn membership_candidates(d: Set<EncodedTriple>, typ: u64, sco: u64) -> Set<
    EncodedTriple,
> {
    d.filter(|t: EncodedTriple| semi_join_keeps(t, with_predicate(d, sco), true, Some(typ)))
}

/// R3: `(x, type, b)` from `(a, subClassOf, b)` and `(x, type, a)`.
pub open spec fn membership_rule(d: Set<EncodedTriple>, typ: u64, sco: u64) -> Set<EncodedTriple> {
    least_closure(
        membership_candidates(d, typ, sco),
        Some(with_predicate(d, sco)),
        JoinKey::Object,
    )
}

/// The triples of `d` whose predicate has a known superproperty.
pub open spec fn generalization_candidates(d: Set<EncodedTriple>, spo: u64) -> Set<EncodedTriple> {
    d.filter(|t: EncodedTriple| semi_join_keeps(t, with_predicate(d, spo), false, None))
}

/// R4: `(x, p, y)` from `(q, subPropertyOf, p)` and `(x, q, y)`.
pub open spec fn generalization_rule(d: Set<EncodedTriple>, spo: u64) -> Set<EncodedTriple> {
    least_closure(
        generalization_candidates(d, spo),
        Some(with_predicate(d, spo)),
        JoinKey::Predicate,
    )
}

/// R5: `(a, type, D)` from `(p, domain, D)` and `(a, p, b)`.
pub open spec fn domain_rule(d: Set<EncodedTriple>, dom: u64, typ: u64) -> Set<EncodedTriple> {
    projection_rule(d, dom, typ, false)
}

/// R6: `(b, type, R)` from `(p, range, R)` and `(a, p, b)`.
pub open spec fn range_rule(d: Set<EncodedTriple>, rng: u64, typ: u64) -> Set<EncodedTriple> {
    projection_rule(d, rng, typ, true)
}

/// R1 and R2 composed onto the input.
pub open spec fn schema_stage(d: Set<EncodedTriple>, k: SchemaIds) -> Set<EncodedTriple> {
    d + transitive_rule(d, k.sco) + transitive_rule(d, k.spo)
}

/// R4 composed onto the schema stage.
pub open spec fn generalization_stage(d: Set<EncodedTriple>, k: SchemaIds) -> Set<EncodedTriple> {
    let d1 = schema_stage(d, k);
    d1 + generalization_rule(d1, k.spo)
}

/// R5 composed onto the generalization stage.
pub open spec fn domain_stage(d: Set<EncodedTriple>, k: SchemaIds) -> Set<EncodedTriple> {
    let d2 = generalization_stage(d, k);
    d2 + domain_rule(d2, k.dom, k.typ)
}

/// R6 composed onto the domain stage.
pub open spec fn range_stage(d: Set<EncodedTriple>, k: SchemaIds) -> Set<EncodedTriple> {
    let d3 = domain_stage(d, k);
    d3 + range_rule(d3, k.rng, k.typ)
}

/// The closure of `d` in the order R1, R2, R4, R5, R6, R3.
pub open spec fn materialization(d: Set<EncodedTriple>, k: SchemaIds) -> Set<EncodedTriple> {
    let d4 = range_stage(d, k);
    d4 + membership_rule(d4, k.typ, k.sco)
}

/// The triples of `data` whose predicate is `p`.
pub fn filter_predicate(data: &Vec<EncodedTriple>, p: u64) -> (r: Vec<EncodedTriple>)
    ensures
        r@.to_set() == with_predicate(data@.to_set(), p),
{
    let mut r: Vec<EncodedTriple> = Vec::new();
    let mut i: usize = 0;
    while i < data.len()
        invariant
            i <= data.len(),
            r@.to_set() == with_predicate(data@.subrange(0, i as int).to_set(), p),
        decreases data.len() - i,
    {
        let t = data[i];
        let ghost old_r = r@;
        if t.1 == p {
            r.push(t);
        }
        proof {
            let pre = data@.subrange(0, i as int);
            assert(data@.subrange(0, i + 1) =~= pre.push(t));
            pre.lemma_push_to_set_commute(t);
            old_r.lemma_push_to_set_commute(t);
            assert(r@.to_set() =~= with_predicate(pre.push(t).to_set(), p));
        }
        i = i + 1;
    }
    assert(data@.subrange(0, data.len() as int) =~= data@);
    r
}

/// R5 (`use_object == false`) and R6 (`use_object == true`): for every
/// schema triple `(p, q, C)` and every triple `(a, p, b)`, the triple
/// `(a, type, C)` or `(b, type, C)`.
pub open spec fn projection_rule(d: Set<EncodedTriple>, q: u64, typ: u64, use_object: bool) -> Set<
    EncodedTriple,
> {
    Set::new(
        |r: EncodedTriple|
            exists|t: EncodedTriple, s: EncodedTriple|
                #![trigger d.contains(t), d.contains(s)]
                d.contains(t) && d.contains(s) && s.1 == q && t.1 == s.0 && r == (
                    if use_object {
                        t.2
                    } else {
                        t.0
                    },
                    typ,
                    s.2,
                ),
    )
}

/// Whether some triple of `v` has subject `x`.
pub fn has_subject_in(v: &Vec<EncodedTriple>, x: u64) -> (r: bool)
    ensures
        r == has_subject(v@.to_set(), x),
{
    let mut i: usize = 0;
    while i < v.len()
        invariant
            i <= v.len(),
            forall|j: int| 0 <= j < i ==> v@[j].0 != x,
        decreases v.len() - i,
    {
        if v[i].0 == x {
            assert(v@.to_set().contains(v@[i as int]));
            return true;
        }
        i = i + 1;
    }
    proof {
        assert forall|e: EncodedTriple| v@.to_set().contains(e) implies e.0 != x by {
            let j = v@.index_of(e);
            assert(v@[j] == e);
        }
    }
    false
}

/// `t` passes the predicate filter `only` and its object (`on_object`) or
/// predicate is the subject of some triple of `schema`.
pub open spec fn semi_join_keeps(
    t: EncodedTriple,
    schema: Set<EncodedTriple>,
    on_object: bool,
    only: Option<u64>,
) -> bool {
    &&& match only {
        Some(q) => t.1 == q,
        None => true,
    }
    &&& has_subject(
        schema,
        if on_object {
            t.2
        } else {
            t.1
        },
    )
}

/// The triples of `data` that `semi_join_keeps` admits.
fn semi_join(
    data: &Vec<EncodedTriple>,
    schema: &Vec<EncodedTriple>,
    on_object: bool,
    only: Option<u64>,
) -> (r: Vec<EncodedTriple>)
    ensures
        r@.to_set() == data@.to_set().filter(
            |t: EncodedTriple| semi_join_keeps(t, schema@.to_set(), on_object, only),
        ),
{
    let ghost keep = |t: EncodedTriple| semi_join_keeps(t, schema@.to_set(), on_object, only);
    let mut r: Vec<EncodedTriple> = Vec::new();
    let mut i: usize = 0;
    while i < data.len()
        invariant
            i <= data.len(),
            keep == (|t: EncodedTriple| semi_join_keeps(t, schema@.to_set(), on_object, only)),
            r@.to_set() == data@.subrange(0, i as int).to_set().filter(keep),
        decreases data.len() - i,
    {
        let t = data[i];
        let ghost old_r = r@;
        let pred_ok = match only {
            Some(q) => t.1 == q,
            None => true,
        };
        let ok = pred_ok && has_subject_in(
            schema,
            if on_object {
                t.2
            } else {
                t.1
            },
        );
        assert(ok == semi_join_keeps(t, schema@.to_set(), on_object, only));
        if ok {
            r.push(t);
        }
        proof {
            let pre = data@.subrange(0, i as int);
            assert(data@.subrange(0, i + 1) =~= pre.push(t));
            pre.lemma_push_to_set_commute(t);
            old_r.lemma_push_to_set_commute(t);
            assert(r@.to_set() =~= pre.push(t).to_set().filter(keep));
        }
        i = i + 1;
    }
    assert(data@.subrange(0, data.len() as int) =~= data@);
    r
}

/// One triple per distinct triple of `v`: the signed-distinct pass over a
/// collection whose counts are all positive.
pub fn distinct_triples(v: &Vec<EncodedTriple>) -> (r: Vec<EncodedTriple>)
    ensures
        r@.to_set() == v@.to_set(),
        r@.no_duplicates(),
{
    let mut r: Vec<EncodedTriple> = Vec::new();
    let mut i: usize = 0;
    while i < v.len()
        invariant
            i <= v.len(),
            r@.to_set() == v@.subrange(0, i as int).to_set(),
            r@.no_duplicates(),
        decreases v.len() - i,
    {
        let t = v[i];
        let ghost old_r = r@;
        if !contains_triple(&r, t) {
            r.push(t);
            proof {
                assert forall|a: int, b: int| 0 <= a < b < r@.len() implies r@[a] != r@[b] by {
                    if b == old_r.len() {
                        assert(old_r.contains(old_r[a]));
                    }
                }
            }
        }
        proof {
            let pre = v@.subrange(0, i as int);
            assert(v@.subrange(0, i + 1) =~= pre.push(t));
            pre.lemma_push_to_set_commute(t);
            old_r.lemma_push_to_set_commute(t);
            assert(r@.to_set() =~= pre.push(t).to_set());
        }
        i = i + 1;
    }
    assert(v@.subrange(0, v.len() as int) =~= v@);
    r
}

/// The single-shot projection shared by R5 and R6.
fn type_projection(data: &Vec<EncodedTriple>, q: u64, typ: u64, use_object: bool) -> (r: Vec<
    EncodedTriple,
>)
    ensures
        r@.to_set() == projection_rule(data@.to_set(), q, typ, use_object),
{
    let ghost d = data@.to_set();
    let ghost target = projection_rule(d, q, typ, use_object);
    let mut r: Vec<EncodedTriple> = Vec::new();
    let mut i: usize = 0;
    while i < data.len()
        invariant
            d == data@.to_set(),
            target == projection_rule(d, q, typ, use_object),
            i <= data.len(),
            r@.to_set().subset_of(target),
            forall|ii: int, jj: int|
                #![trigger data@[ii], data@[jj]]
                0 <= ii < i && 0 <= jj < data.len() && data@[jj].1 == q && data@[ii].1
                    == data@[jj].0 ==> r@.to_set().contains(
                    (
                        if use_object {
                            data@[ii].2
                        } else {
                            data@[ii].0
                        },
                        typ,
                        data@[jj].2,
                    ),
                ),
        decreases data.len() - i,
    {
        let t = data[i];
        let mut j: usize = 0;
        while j < data.len()
            invariant
                d == data@.to_set(),
                target == projection_rule(d, q, typ, use_object),
                i < data.len(),
                t == data@[i as int],
                j <= data.len(),
                r@.to_set().subset_of(target),
                forall|ii: int, jj: int|
                    #![trigger data@[ii], data@[jj]]
                    0 <= ii < i && 0 <= jj < data.len() && data@[jj].1 == q && data@[ii].1
                        == data@[jj].0 ==> r@.to_set().contains(
                        (
                            if use_object {
                                data@[ii].2
                            } else {
                                data@[ii].0
                            },
                            typ,
                            data@[jj].2,
                        ),
                    ),
                forall|jj: int|
                    #![trigger data@[jj]]
                    0 <= jj < j && data@[jj].1 == q && t.1 == data@[jj].0 ==> r@.to_set().contains(
                        (
                            if use_object {
                                t.2
                            } else {
                                t.0
                            },
                            typ,
                            data@[jj].2,
                        ),
                    ),
            decreases data.len() - j,
        {
            let s = data[j];
            if s.1 == q && t.1 == s.0 {
                let x = if use_object {
                    t.2
                } else {
                    t.0
                };
                let ghost old_r = r@;
                r.push((x, typ, s.2));
                proof {
                    old_r.lemma_push_to_set_commute((x, typ, s.2));
                    assert(d.contains(t));
                    assert(d.contains(s));
                    assert(target.contains((x, typ, s.2)));
                }
            }
            j = j + 1;
        }
        i = i + 1;
    }
    proof {
        assert forall|x: EncodedTriple| target.contains(x) implies r@.to_set().contains(x) by {
            let (t, s) = choose|t: EncodedTriple, s: EncodedTriple|
                #![trigger d.contains(t), d.contains(s)]
                d.contains(t) && d.contains(s) && s.1 == q && t.1 == s.0 && x == (
                    if use_object {
                        t.2
                    } else {
                        t.0
                    },
                    typ,
                    s.2,
                );
            let ii = data@.index_of(t);
            let jj = data@.index_of(s);
            assert(data@[ii] == t);
            assert(data@[jj] == s);
        }
        assert(r@.to_set() =~= target);
    }
    r
}

/// Appends the triples of `src` to `dst`.
pub fn extend_triples(dst: &mut Vec<EncodedTriple>, src: &Vec<EncodedTriple>)
    ensures
        final(dst)@ == old(dst)@ + src@,
{
    let mut i: usize = 0;
    while i < src.len()
        invariant
            i <= src.len(),
            dst@ == old(dst)@ + src@.subrange(0, i as int),
        decreases src.len() - i,
    {
        dst.push(src[i]);
        assert(src@.subrange(0, i + 1) =~= src@.subrange(0, i as int).push(src@[i as int]));
        i = i + 1;
    }
    assert(src@.subrange(0, src.len() as int) =~= src@);
}

/// The distinct triples of `a` and `b` together.
pub fn concat_distinct(a: &Vec<EncodedTriple>, b: &Vec<EncodedTriple>) -> (r: Vec<EncodedTriple>)
    ensures
        r@.to_set() == a@.to_set() + b@.to_set(),
        r@.no_duplicates(),
{
    let mut both: Vec<EncodedTriple> = Vec::new();
    extend_triples(&mut both, a);
    extend_triples(&mut both, b);
    assert(both@ =~= a@ + b@);
    proof {
        vstd::seq_lib::seq_to_set_distributes_over_add(a@, b@);
    }
    distinct_triples(&both)
}

/// R1: the transitive closure of the subClassOf triples of `data`.
pub fn rule_1(data: &Vec<EncodedTriple>, sco_value: u64) -> (r: Vec<EncodedTriple>)
    ensures
        r@.to_set() == transitive_rule(data@.to_set(), sco_value),
        r@.no_duplicates(),
{
    let seed = filter_predicate(data, sco_value);
    fixpoint(seed, None, JoinKey::Object)
}

/// R2: the transitive closure of the subPropertyOf triples of `data`.
pub fn rule_2(data: &Vec<EncodedTriple>, spo_value: u64) -> (r: Vec<EncodedTriple>)
    ensures
        r@.to_set() == transitive_rule(data@.to_set(), spo_value),
        r@.no_duplicates(),
{
    let seed = filter_predicate(data, spo_value);
    fixpoint(seed, None, JoinKey::Object)
}

/// R3: class membership propagated along the subClassOf triples of `data`.
pub fn rule_3(data: &Vec<EncodedTriple>, type_value: u64, sco_value: u64) -> (r: Vec<
    EncodedTriple,
>)
    ensures
        r@.to_set() == membership_rule(data@.to_set(), type_value, sco_value),
        r@.no_duplicates(),
{
    let sco_only = filter_predicate(data, sco_value);
    let candidates = semi_join(data, &sco_only, true, Some(type_value));
    assert(candidates@.to_set() =~= membership_candidates(data@.to_set(), type_value, sco_value));
    fixpoint(candidates, Some(&sco_only), JoinKey::Object)
}

/// R4: triples rewritten along the subPropertyOf triples of `data`.
pub fn rule_4(data: &Vec<EncodedTriple>, spo_value: u64) -> (r: Vec<EncodedTriple>)
    ensures
        r@.to_set() == generalization_rule(data@.to_set(), spo_value),
        r@.no_duplicates(),
{
    let spo_only = filter_predicate(data, spo_value);
    let candidates = semi_join(data, &spo_only, false, None);
    assert(candidates@.to_set() =~= generalization_candidates(data@.to_set(), spo_value));
    fixpoint(candidates, Some(&spo_only), JoinKey::Predicate)
}

/// R5: types inferred from the domain triples of `data`.
pub fn rule_5(data: &Vec<EncodedTriple>, dom_value: u64, type_value: u64) -> (r: Vec<
    EncodedTriple,
>)
    ensures
        r@.to_set() == domain_rule(data@.to_set(), dom_value, type_value),
        r@.no_duplicates(),
{
    let types = type_projection(data, dom_value, type_value, false);
    distinct_triples(&types)
}

/// R6: types inferred from the range triples of `data`.
pub fn rule_6(data: &Vec<EncodedTriple>, rng_value: u64, type_value: u64) -> (r: Vec<
    EncodedTriple,
>)
    ensures
        r@.to_set() == range_rule(data@.to_set(), rng_value, type_value),
        r@.no_duplicates(),
{
    let types = type_projection(data, rng_value, type_value, true);
    distinct_triples(&types)
}

/// The RhoDF closure of `data`: each rule in the order R1, R2, R4, R5, R6,
/// R3, its output added to the working collection and duplicates dropped
/// after every stage. `rdfs_keywords` is
/// `[subClassOf, subPropertyOf, type, domain, range]`.
pub fn full_materialization(data: &Vec<EncodedTriple>, rdfs_keywords: &[u64; 5]) -> (r: Vec<
    EncodedTriple,
>)
    ensures
        r@.to_set() == materialization(data@.to_set(), SchemaIds::from_array_spec(rdfs_keywords@)),
        r@.no_duplicates(),
{
    let k = SchemaIds::from_array(rdfs_keywords);
    let sco_closure = rule_1(data, k.sco);
    let spo_closure = rule_2(data, k.spo);
    let d0 = concat_distinct(data, &sco_closure);
    let d1 = concat_distinct(&d0, &spo_closure);
    let generalized = rule_4(&d1, k.spo);
    let d2 = concat_distinct(&d1, &generalized);
    let domain_types = rule_5(&d2, k.dom, k.typ);
    let d3 = concat_distinct(&d2, &domain_types);
    let range_types = rule_6(&d3, k.rng, k.typ);
    let d4 = concat_distinct(&d3, &range_types);
    let memberships = rule_3(&d4, k.typ, k.sco);
    concat_distinct(&d4, &memberships)
}

/// Some triple of `d` has object `x`.
pub open spec fn has_object(d: Set<EncodedTriple>, x: u64) -> bool {
    exists|e: EncodedTriple| #[trigger] d.contains(e) && e.2 == x
}

/// The five schema ids are pairwise distinct.
pub open spec fn distinct_ids(k: SchemaIds) -> bool {
    &&& k.sco != k.spo && k.sco != k.typ && k.sco != k.dom && k.sco != k.rng
    &&& k.spo != k.typ && k.spo != k.dom && k.spo != k.rng
    &&& k.typ != k.dom && k.typ != k.rng
    &&& k.dom != k.rng
}

/// The schema of `d` stays out of the way of the fixed rule order: no
/// property is declared a subproperty of subClassOf, subPropertyOf, domain
/// or range, and `type` has no superproperty, domain or range.
pub open spec fn ordered_schema(d: Set<EncodedTriple>, k: SchemaIds) -> bool {
    forall|t: EncodedTriple|
        #[trigger] d.contains(t) ==> (t.1 == k.spo ==> t.0 != k.typ && t.2 != k.sco && t.2 != k.spo
            && t.2 != k.dom && t.2 != k.rng) && ((t.1 == k.dom || t.1 == k.rng) ==> t.0 != k.typ)
}

proof fn lemma_least_within(
    seed: Set<EncodedTriple>,
    ext: Option<Set<EncodedTriple>>,
    key: JoinKey,
    s: Set<EncodedTriple>,
)
    requires
        seed.subset_of(s),
        closed_under(s, ext, key),
    ensures
        least_closure(seed, ext, key).subset_of(s),
        is_least_closure(least_closure(seed, ext, key), seed, ext, key),
{
    lemma_least_closure_exists(seed, ext, key);
}

proof fn lemma_transitive_shape(d: Set<EncodedTriple>, p: u64)
    ensures
        is_least_closure(transitive_rule(d, p), with_predicate(d, p), None, JoinKey::Object),
        forall|t: EncodedTriple| #[trigger]
            transitive_rule(d, p).contains(t) ==> t.1 == p && has_subject(with_predicate(d, p), t.0)
                && has_object(with_predicate(d, p), t.2),
{
    let seed = with_predicate(d, p);
    let shape = Set::new(
        |t: EncodedTriple| t.1 == p && has_subject(seed, t.0) && has_object(seed, t.2),
    );
    assert forall|t: EncodedTriple| seed.contains(t) implies shape.contains(t) by {
        assert(has_subject(seed, t.0));
        assert(has_object(seed, t.2));
    }
    assert forall|a: EncodedTriple, b: EncodedTriple|
        shape.contains(a) && partner_set(shape, None).contains(b) && joins(
            JoinKey::Object,
            a,
            b,
        ) implies shape.contains(derived(JoinKey::Object, a, b)) by {}
    lemma_least_within(seed, None, JoinKey::Object, shape);
}

proof fn lemma_generalization_shape(d: Set<EncodedTriple>, spo: u64)
    ensures
        is_least_closure(
            generalization_rule(d, spo),
            generalization_candidates(d, spo),
            Some(with_predicate(d, spo)),
            JoinKey::Predicate,
        ),
        forall|t: EncodedTriple| #[trigger]
            generalization_rule(d, spo).contains(t) ==> d.contains(t) || has_object(
                with_predicate(d, spo),
                t.1,
            ),
{
    let ext = with_predicate(d, spo);
    let shape = Set::new(|t: EncodedTriple| d.contains(t) || has_object(ext, t.1));
    assert forall|a: EncodedTriple, b: EncodedTriple|
        shape.contains(a) && partner_set(shape, Some(ext)).contains(b) && joins(
            JoinKey::Predicate,
            a,
            b,
        ) implies shape.contains(derived(JoinKey::Predicate, a, b)) by {
        assert(ext.contains(b));
    }
    lemma_least_within(generalization_candidates(d, spo), Some(ext), JoinKey::Predicate, shape);
}

proof fn lemma_membership_shape(d: Set<EncodedTriple>, typ: u64, sco: u64)
    ensures
        is_least_closure(
            membership_rule(d, typ, sco),
            membership_candidates(d, typ, sco),
            Some(with_predicate(d, sco)),
            JoinKey::Object,
        ),
        forall|t: EncodedTriple| #[trigger] membership_rule(d, typ, sco).contains(t) ==> t.1 == typ,
{
    let ext = with_predicate(d, sco);
    let shape = Set::new(|t: EncodedTriple| t.1 == typ);
    assert forall|a: EncodedTriple, b: EncodedTriple|
        shape.contains(a) && partner_set(shape, Some(ext)).contains(b) && joins(
            JoinKey::Object,
            a,
            b,
        ) implies shape.contains(derived(JoinKey::Object, a, b)) by {}
    lemma_least_within(membership_candidates(d, typ, sco), Some(ext), JoinKey::Object, shape);
}

/// At steady state the closure is closed under each of the six rules, as
/// long as the schema ids are distinct and the schema keeps to the rule
/// order (`ordered_schema`).
pub proof fn lemma_materialization_closed(d: Set<EncodedTriple>, k: SchemaIds)
    requires
        distinct_ids(k),
        ordered_schema(d, k),
    ensures
        forall|a: u64, b: u64, c: u64|
            #![trigger materialization(d, k).contains((a, k.sco, b)), materialization(d, k).contains((b, k.sco, c))]
            materialization(d, k).contains((a, k.sco, b)) && materialization(d, k).contains(
                (b, k.sco, c),
            ) ==> materialization(d, k).contains((a, k.sco, c)),
        forall|a: u64, b: u64, c: u64|
            #![trigger materialization(d, k).contains((a, k.spo, b)), materialization(d, k).contains((b, k.spo, c))]
            materialization(d, k).contains((a, k.spo, b)) && materialization(d, k).contains(
                (b, k.spo, c),
            ) ==> materialization(d, k).contains((a, k.spo, c)),
        forall|x: u64, a: u64, b: u64|
            #![trigger materialization(d, k).contains((a, k.sco, b)), materialization(d, k).contains((x, k.typ, a))]
            materialization(d, k).contains((a, k.sco, b)) && materialization(d, k).contains(
                (x, k.typ, a),
            ) ==> materialization(d, k).contains((x, k.typ, b)),
        forall|q: u64, p: u64, x: u64, y: u64|
            #![trigger materialization(d, k).contains((q, k.spo, p)), materialization(d, k).contains((x, q, y))]
            materialization(d, k).contains((q, k.spo, p)) && materialization(d, k).contains(
                (x, q, y),
            ) ==> materialization(d, k).contains((x, p, y)),
        forall|p: u64, c: u64, a: u64, b: u64|
            #![trigger materialization(d, k).contains((p, k.dom, c)), materialization(d, k).contains((a, p, b))]
            materialization(d, k).contains((p, k.dom, c)) && materialization(d, k).contains(
                (a, p, b),
            ) ==> materialization(d, k).contains((a, k.typ, c)),
        forall|p: u64, c: u64, a: u64, b: u64|
            #![trigger materialization(d, k).contains((p, k.rng, c)), materialization(d, k).contains((a, p, b))]
            materialization(d, k).contains((p, k.rng, c)) && materialization(d, k).contains(
                (a, p, b),
            ) ==> materialization(d, k).contains((b, k.typ, c)),
{
    let tc_sco = transitive_rule(d, k.sco);
    let tc_spo = transitive_rule(d, k.spo);
    let d1 = schema_stage(d, k);
    let g = generalization_rule(d1, k.spo);
    let d2 = generalization_stage(d, k);
    let r5 = domain_rule(d2, k.dom, k.typ);
    let d3 = domain_stage(d, k);
    let r6 = range_rule(d3, k.rng, k.typ);
    let d4 = range_stage(d, k);
    let r3 = membership_rule(d4, k.typ, k.sco);
    let m = materialization(d, k);
    lemma_transitive_shape(d, k.sco);
    lemma_transitive_shape(d, k.spo);
    lemma_generalization_shape(d1, k.spo);
    lemma_membership_shape(d4, k.typ, k.sco);
    assert(m == d4 + r3);
    // Every subPropertyOf triple of the schema stage comes from the input.
    assert forall|e: EncodedTriple| #[trigger]
        with_predicate(d1, k.spo).contains(e) implies e.0 != k.typ && e.2 != k.sco && e.2 != k.spo
        && e.2 != k.dom && e.2 != k.rng by {
        if !d.contains(e) && tc_spo.contains(e) {
            let s0 = choose|s0: EncodedTriple| #[trigger]
                with_predicate(d, k.spo).contains(s0) && s0.0 == e.0;
            let s2 = choose|s2: EncodedTriple| #[trigger]
                with_predicate(d, k.spo).contains(s2) && s2.2 == e.2;
            assert(d.contains(s0));
            assert(d.contains(s2));
        }
    }
    // Triples outside the schema stage that the generalization rule adds
    // never carry a schema predicate.
    assert forall|t: EncodedTriple| #[trigger] g.contains(t) && !d1.contains(t) implies t.1 != k.sco
        && t.1 != k.spo && t.1 != k.dom && t.1 != k.rng by {
        let e = choose|e: EncodedTriple| #[trigger]
            with_predicate(d1, k.spo).contains(e) && e.2 == t.1;
    }
    // Every triple beyond the generalization stage is a type triple.
    assert forall|t: EncodedTriple| #[trigger] m.contains(t) && t.1 != k.typ implies d2.contains(t) by {
        if r3.contains(t) {
        }
        if r6.contains(t) {
            let (u, v) = choose|u: EncodedTriple, v: EncodedTriple|
                #![trigger d3.contains(u), d3.contains(v)]
                d3.contains(u) && d3.contains(v) && v.1 == k.rng && u.1 == v.0 && t == (
                    u.2,
                    k.typ,
                    v.2,
                );
        }
        if r5.contains(t) {
            let (u, v) = choose|u: EncodedTriple, v: EncodedTriple|
                #![trigger d2.contains(u), d2.contains(v)]
                d2.contains(u) && d2.contains(v) && v.1 == k.dom && u.1 == v.0 && t == (
                    u.0,
                    k.typ,
                    v.2,
                );
        }
    }
    // The subClassOf triples of the closure are the transitive closure of
    // those of the input, and likewise for subPropertyOf.
    assert forall|t: EncodedTriple| #[trigger] m.contains(t) && t.1 == k.sco implies tc_sco.contains(t) by {
        assert(d2.contains(t));
        if d.contains(t) {
            assert(with_predicate(d, k.sco).contains(t));
        }
    }
    assert forall|t: EncodedTriple| #[trigger] m.contains(t) && t.1 == k.spo implies tc_spo.contains(t) by {
        assert(d2.contains(t));
        if d.contains(t) {
            assert(with_predicate(d, k.spo).contains(t));
        }
    }
    // The domain and range triples of the closure come from the input.
    assert forall|t: EncodedTriple| #[trigger]
        m.contains(t) && (t.1 == k.dom || t.1 == k.rng) implies d.contains(t) && t.0 != k.typ by {
        assert(d2.contains(t));
    }
    // R1 and R2.
    assert forall|a: u64, b: u64, c: u64|
        #![trigger m.contains((a, k.sco, b)), m.contains((b, k.sco, c))]
        m.contains((a, k.sco, b)) && m.contains((b, k.sco, c)) implies m.contains((a, k.sco, c)) by {
        assert(tc_sco.contains((a, k.sco, b)));
        assert(tc_sco.contains((b, k.sco, c)));
        assert(partner_set(tc_sco, None).contains((b, k.sco, c)));
        assert(tc_sco.contains(derived(JoinKey::Object, (a, k.sco, b), (b, k.sco, c))));
        assert(d1.contains((a, k.sco, c)));
    }
    assert forall|a: u64, b: u64, c: u64|
        #![trigger m.contains((a, k.spo, b)), m.contains((b, k.spo, c))]
        m.contains((a, k.spo, b)) && m.contains((b, k.spo, c)) implies m.contains((a, k.spo, c)) by {
        assert(tc_spo.contains((a, k.spo, b)));
        assert(tc_spo.contains((b, k.spo, c)));
        assert(partner_set(tc_spo, None).contains((b, k.spo, c)));
        assert(tc_spo.contains(derived(JoinKey::Object, (a, k.spo, b), (b, k.spo, c))));
        assert(d1.contains((a, k.spo, c)));
    }
    // R3.
    assert forall|x: u64, a: u64, b: u64|
        #![trigger m.contains((a, k.sco, b)), m.contains((x, k.typ, a))]
        m.contains((a, k.sco, b)) && m.contains((x, k.typ, a)) implies m.contains((x, k.typ, b)) by {
        let e = (a, k.sco, b);
        let t = (x, k.typ, a);
        assert(tc_sco.contains(e));
        assert(d4.contains(e));
        assert(with_predicate(d4, k.sco).contains(e));
        assert(partner_set(r3, Some(with_predicate(d4, k.sco))).contains(e));
        if d4.contains(t) {
            assert(has_subject(with_predicate(d4, k.sco), a));
            assert(membership_candidates(d4, k.typ, k.sco).contains(t));
        }
        assert(r3.contains(t));
        assert(r3.contains(derived(JoinKey::Object, t, e)));
    }
    // R4.
    assert forall|q: u64, p: u64, x: u64, y: u64|
        #![trigger m.contains((q, k.spo, p)), m.contains((x, q, y))]
        m.contains((q, k.spo, p)) && m.contains((x, q, y)) implies m.contains((x, p, y)) by {
        let e = (q, k.spo, p);
        let t = (x, q, y);
        assert(tc_spo.contains(e));
        assert(d1.contains(e));
        assert(with_predicate(d1, k.spo).contains(e));
        assert(q != k.typ);
        assert(d2.contains(t));
        assert(partner_set(g, Some(with_predicate(d1, k.spo))).contains(e));
        if d1.contains(t) {
            assert(has_subject(with_predicate(d1, k.spo), q));
            assert(generalization_candidates(d1, k.spo).contains(t));
        }
        assert(g.contains(t));
        assert(g.contains(derived(JoinKey::Predicate, t, e)));
    }
    // R5 and R6.
    assert forall|p: u64, c: u64, a: u64, b: u64|
        #![trigger m.contains((p, k.dom, c)), m.contains((a, p, b))]
        m.contains((p, k.dom, c)) && m.contains((a, p, b)) implies m.contains((a, k.typ, c)) by {
        let e = (p, k.dom, c);
        let t = (a, p, b);
        assert(d.contains(e));
        assert(d2.contains(e));
        assert(d2.contains(t));
        assert(r5.contains((a, k.typ, c)));
    }
    assert forall|p: u64, c: u64, a: u64, b: u64|
        #![trigger m.contains((p, k.rng, c)), m.contains((a, p, b))]
        m.contains((p, k.rng, c)) && m.contains((a, p, b)) implies m.contains((b, k.typ, c)) by {
        let e = (p, k.rng, c);
        let t = (a, p, b);
        assert(d.contains(e));
        assert(d3.contains(e));
        assert(d2.contains(t));
        assert(d3.contains(t));
        assert(r6.contains((b, k.typ, c)));
    }
}

} // verus!
