//! Triples of terms as text, the rule vocabulary, and the line formats
//! read by the reasoning service.
use vstd::prelude::*;
use crate::cli::str_equal;

verus! {

broadcast use vstd::string::to_string_from_display_ensures_for_str;

/// An RDF triple of terms as text.
#[derive(Debug)]
pub struct Triple {
    /// The subject of the triple.
    pub subject: String,
    /// The predicate of the triple.
    pub predicate: String,
    /// The object of the triple.
    pub object: String,
}

impl Triple {
    /// The three terms.
    pub open spec fn view(&self) -> (Seq<char>, Seq<char>, Seq<char>) {
        (self.subject@, self.predicate@, self.object@)
    }

    /// A copy of the triple.
    pub fn duplicate(&self) -> (r: Triple)
        ensures
            r.view() == self.view(),
    {
        Triple {
            subject: self.subject.clone(),
            predicate: self.predicate.clone(),
            object: self.object.clone(),
        }
    }
}

/// A rule with one literal in its head and two in its body.
#[derive(Debug)]
pub struct CustomRule {
    /// The head of the rule.
    pub head: CustomLiteral,
    /// The body of the rule.
    pub body: [CustomLiteral; 2],
}

/// A literal of a rule: three terms.
#[derive(Debug)]
pub struct CustomLiteral {
    /// The terms of the literal.
    pub tuple_of_terms: [PossibleTerm; 3],
}

/// A term of a rule literal.
#[derive(Debug)]
pub enum PossibleTerm {
    /// A variable, named without its leading `?`.
    LiteralVariable(String),
    /// One of the RhoDF properties.
    RhoDFProperty(RhoDFWord),
    /// A constant value.
    ConstantValue,
}

/// The words of RhoDF.
#[derive(Debug, Clone, Copy, PartialEq, Eq)]
pub enum RhoDFWord {
    /// `rdfs:subPropertyOf`
    SPO,
    /// `rdfs:subClassOf`
    SCO,
    /// `rdf:type`
    TYPE,
    /// `rdfs:domain`
    DOMAIN,
    /// `rdfs:range`
    RANGE,
}

/// The first position at or after `from` that holds `c`, or the length of
/// `s` when there is none.
pub open spec fn first_of(s: Seq<char>, c: char, from: int) -> int
    decreases s.len() - from,
{
    if from >= s.len() {
        s.len() as int
    } else if s[from] == c {
        from
    } else {
        first_of(s, c, from + 1)
    }
}

/// The first three fields of `s` split at single spaces, when `s` holds at
/// least two spaces.
pub open spec fn split3(s: Seq<char>) -> Option<(Seq<char>, Seq<char>, Seq<char>)> {
    let i0 = first_of(s, ' ', 0);
    let i1 = first_of(s, ' ', i0 + 1);
    let i2 = first_of(s, ' ', i1 + 1);
    if i1 < s.len() {
        Some((s.subrange(0, i0), s.subrange(i0 + 1, i1), s.subrange(i1 + 1, i2)))
    } else {
        None
    }
}

proof fn lemma_first_of_bounds(s: Seq<char>, c: char, from: int)
    requires
        0 <= from,
    ensures
        from <= first_of(s, c, from) <= s.len() || (from > s.len() && first_of(s, c, from)
            == s.len()),
        first_of(s, c, from) < s.len() ==> s[first_of(s, c, from)] == c,
        forall|k: int| from <= k < first_of(s, c, from) ==> s[k] != c,
    decreases s.len() - from,
{
    if from < s.len() && s[from] != c {
        lemma_first_of_bounds(s, c, from + 1);
    }
}

/// The first position at or after `from` that holds `c`, or the length.
pub fn find_char(s: &str, c: char, from: usize) -> (r: usize)
    requires
        from <= s@.len(),
    ensures
        r as int == first_of(s@, c, from as int),
        from <= r <= s@.len(),
{
    let n = s.unicode_len();
    let mut i = from;
    proof {
        lemma_first_of_bounds(s@, c, from as int);
    }
    while i < n
        invariant
            n == s@.len(),
            from <= i <= n,
            first_of(s@, c, i as int) == first_of(s@, c, from as int),
        decreases n - i,
    {
        if s.get_char(i) == c {
            return i;
        }
        i = i + 1;
    }
    i
}

/// The first three space-separated fields of `line` as a triple, or `None`
/// when the line holds fewer than two spaces.
pub fn parse_data_line(line: &str) -> (r: Option<Triple>)
    ensures
        match r {
            Some(t) => split3(line@) == Some(t.view()),
            None => split3(line@) is None,
        },
{
    let n = line.unicode_len();
    let i0 = find_char(line, ' ', 0);
    if i0 >= n {
        proof {
            lemma_first_of_bounds(line@, ' ', i0 + 1);
        }
        return None;
    }
    let i1 = find_char(line, ' ', i0 + 1);
    if i1 >= n {
        return None;
    }
    let i2 = find_char(line, ' ', i1 + 1);
    let subject = line.substring_char(0, i0).to_string();
    let predicate = line.substring_char(i0 + 1, i1).to_string();
    let object = line.substring_char(i1 + 1, i2).to_string();
    Some(Triple { subject, predicate, object })
}

/// The triples read from the lines at the positions `i` with
/// `i % peers == index` among the first `n`, lines with fewer than two spaces
/// left out.
pub open spec fn shard_data(lines: Seq<Seq<char>>, index: int, peers: int, n: int) -> Seq<
    (Seq<char>, Seq<char>, Seq<char>),
>
    decreases n,
{
    if n <= 0 {
        Seq::empty()
    } else {
        let before = shard_data(lines, index, peers, n - 1);
        if (n - 1) % peers == index && split3(lines[n - 1]) is Some {
            before.push(split3(lines[n - 1])->Some_0)
        } else {
            before
        }
    }
}

/// The views of the strings of `v`.
pub open spec fn views(v: Seq<String>) -> Seq<Seq<char>> {
    v.map_values(|s: String| s@)
}

/// The views of the triples of `v`.
pub open spec fn triple_views(v: Seq<Triple>) -> Seq<(Seq<char>, Seq<char>, Seq<char>)> {
    v.map_values(|t: Triple| t.view())
}

/// The triples of worker `index` among `peers`: the lines at the positions
/// `i` with `i % peers == index`, each split into its first three
/// space-separated fields, lines with fewer than two spaces left out.
pub fn load_data(lines: &Vec<String>, index: usize, peers: usize) -> (r: Vec<Triple>)
    requires
        peers > 0,
    ensures
        triple_views(r@) == shard_data(views(lines@), index as int, peers as int, lines@.len() as int),
{
    let mut r: Vec<Triple> = Vec::new();
    let mut i: usize = 0;
    while i < lines.len()
        invariant
            peers > 0,
            i <= lines.len(),
            triple_views(r@) == shard_data(views(lines@), index as int, peers as int, i as int),
        decreases lines.len() - i,
    {
        let ghost before = r@;
        if i % peers == index {
            match parse_data_line(lines[i].as_str()) {
                Some(t) => {
                    r.push(t);
                    assert(triple_views(r@) =~= triple_views(before).push(t.view()));
                },
                None => {},
            }
        }
        assert(views(lines@)[i as int] == lines@[i as int]@);
        i = i + 1;
    }
    r
}

/// The t-box with its reflexive triples (subject equal to object) left
/// out and each remaining triple kept once.
pub open spec fn preprocessed(t_box: Seq<Triple>) -> Set<(Seq<char>, Seq<char>, Seq<char>)> {
    triple_views(t_box).to_set().filter(|t: (Seq<char>, Seq<char>, Seq<char>)| t.0 != t.2)
}

fn same_triple(a: &Triple, b: &Triple) -> (r: bool)
    ensures
        r == (a.view() == b.view()),
{
    a.subject == b.subject && a.predicate == b.predicate && a.object == b.object
}

/// The t-box without reflexive triples, each triple once.
pub fn preprocess(t_box: Vec<Triple>) -> (r: Vec<Triple>)
    ensures
        triple_views(r@).to_set() == preprocessed(t_box@),
        triple_views(r@).no_duplicates(),
{
    let mut r: Vec<Triple> = Vec::new();
    let mut i: usize = 0;
    while i < t_box.len()
        invariant
            i <= t_box.len(),
            triple_views(r@).to_set() == preprocessed(t_box@.subrange(0, i as int)),
            triple_views(r@).no_duplicates(),
        decreases t_box.len() - i,
    {
        let t = &t_box[i];
        let mut seen = false;
        let mut j: usize = 0;
        while j < r.len()
            invariant
                j <= r.len(),
                seen == exists|k: int| 0 <= k < j && r@[k].view() == t.view(),
            decreases r.len() - j,
        {
            if same_triple(&r[j], t) {
                seen = true;
            }
            j = j + 1;
        }
        let ghost before = r@;
        let reflexive = t.subject == t.object;
        if !seen && !reflexive {
            r.push(t.duplicate());
            proof {
                assert(triple_views(r@) =~= triple_views(before).push(t.view()));
                assert forall|a: int, b: int|
                    0 <= a < b < triple_views(r@).len() implies triple_views(r@)[a] != triple_views(
                    r@,
                )[b] by {
                    if b == before.len() {
                        assert(before[a].view() == triple_views(before)[a]);
                    }
                }
            }
        }
        proof {
            let pre = t_box@.subrange(0, i as int);
            assert(t_box@.subrange(0, i + 1) =~= pre.push(t_box@[i as int]));
            assert(triple_views(pre.push(t_box@[i as int])) =~= triple_views(pre).push(t.view()));
            triple_views(pre).lemma_push_to_set_commute(t.view());
            triple_views(before).lemma_push_to_set_commute(t.view());
            if seen {
                let k = choose|k: int| 0 <= k < before.len() && before[k].view() == t.view();
                assert(triple_views(before)[k] == t.view());
                assert(triple_views(before).to_set().contains(t.view()));
            }
            assert(triple_views(r@).to_set() =~= preprocessed(t_box@.subrange(0, i + 1)));
        }
        i = i + 1;
    }
    assert(t_box@.subrange(0, t_box.len() as int) =~= t_box@);
    r
}

/// The t-box and the a-box of a worker: the t-box preprocessed, and the
/// a-box read from its lines for worker `index` among `peers`.
pub fn load_lubm_data(
    a_box_lines: &Vec<String>,
    t_box: Vec<Triple>,
    index: usize,
    peers: usize,
) -> (r: (Vec<Triple>, Vec<Triple>))
    requires
        peers > 0,
    ensures
        triple_views(r.0@).to_set() == preprocessed(t_box@),
        triple_views(r.0@).no_duplicates(),
        triple_views(r.1@) == shard_data(
            views(a_box_lines@),
            index as int,
            peers as int,
            a_box_lines@.len() as int,
        ),
{
    let a_box = load_data(a_box_lines, index, peers);
    let t_box = preprocess(t_box);
    (t_box, a_box)
}

/// The RhoDF word that `s` spells, if any.
pub open spec fn word_of(s: Seq<char>) -> Option<RhoDFWord> {
    if s == "SCO"@ {
        Some(RhoDFWord::SCO)
    } else if s == "SPO"@ {
        Some(RhoDFWord::SPO)
    } else if s == "TYPE"@ {
        Some(RhoDFWord::TYPE)
    } else if s == "DOMAIN"@ {
        Some(RhoDFWord::DOMAIN)
    } else if s == "RANGE"@ {
        Some(RhoDFWord::RANGE)
    } else {
        None
    }
}

/// `t` is the variable `name`.
pub open spec fn variable_named(t: PossibleTerm, name: Seq<char>) -> bool {
    match t {
        PossibleTerm::LiteralVariable(v) => v@ == name,
        _ => false,
    }
}

/// `t` is the term that the parameter `p` of a literal stands for: a
/// variable `?name`, or else a RhoDF word.
pub open spec fn term_for(t: PossibleTerm, p: Seq<char>) -> bool {
    if p.len() > 0 && p[0] == '?' {
        variable_named(t, p.drop_first())
    } else {
        match t {
            PossibleTerm::RhoDFProperty(w) => word_of(p) == Some(w),
            _ => false,
        }
    }
}

/// The parameters `ps` make a literal: at least three, the first and third
/// not empty, the second a variable or a RhoDF word.
pub open spec fn literal_ok(ps: Seq<Seq<char>>) -> bool {
    &&& ps.len() >= 3
    &&& ps[0].len() > 0
    &&& ps[2].len() > 0
    &&& ((ps[1].len() > 0 && ps[1][0] == '?') || word_of(ps[1]) is Some)
}

/// `lit` is the literal of the parameters `ps`: its first and third terms
/// are variables named by the parameters without their first character.
pub open spec fn literal_of(lit: CustomLiteral, ps: Seq<Seq<char>>) -> bool {
    &&& variable_named(lit.tuple_of_terms[0], ps[0].drop_first())
    &&& term_for(lit.tuple_of_terms[1], ps[1])
    &&& variable_named(lit.tuple_of_terms[2], ps[2].drop_first())
}

fn word_from(p: &str) -> (r: Option<RhoDFWord>)
    ensures
        r == word_of(p@),
{
    if str_equal(p, "SCO") {
        Some(RhoDFWord::SCO)
    } else if str_equal(p, "SPO") {
        Some(RhoDFWord::SPO)
    } else if str_equal(p, "TYPE") {
        Some(RhoDFWord::TYPE)
    } else if str_equal(p, "DOMAIN") {
        Some(RhoDFWord::DOMAIN)
    } else if str_equal(p, "RANGE") {
        Some(RhoDFWord::RANGE)
    } else {
        None
    }
}

fn without_first(p: &str) -> (r: String)
    requires
        p@.len() > 0,
    ensures
        r@ == p@.drop_first(),
{
    let r = p.substring_char(1, p.unicode_len()).to_string();
    assert(r@ =~= p@.drop_first());
    r
}

/// The literal of the parameters `params`, or `None` when they make none.
pub fn build_literal(params: &Vec<String>) -> (r: Option<CustomLiteral>)
    ensures
        match r {
            Some(lit) => literal_ok(views(params@)) && literal_of(lit, views(params@)),
            None => !literal_ok(views(params@)),
        },
{
    if params.len() < 3 {
        return None;
    }
    let first_param = params[0].as_str();
    let second_param = params[1].as_str();
    let third_param = params[2].as_str();
    assert(views(params@)[0] == first_param@ && views(params@)[1] == second_param@ && views(params@)[2] == third_param@);
    if first_param.unicode_len() == 0 || third_param.unicode_len() == 0 {
        return None;
    }
    let second = if second_param.unicode_len() > 0 && second_param.get_char(0) == '?' {
        PossibleTerm::LiteralVariable(without_first(second_param))
    } else {
        match word_from(second_param) {
            Some(w) => PossibleTerm::RhoDFProperty(w),
            None => {
                return None;
            },
        }
    };
    let first = PossibleTerm::LiteralVariable(without_first(first_param));
    let third = PossibleTerm::LiteralVariable(without_first(third_param));
    Some(CustomLiteral { tuple_of_terms: [first, second, third] })
}

/// A rule of `head_literal` and `body_literals`.
pub fn build_rule(head_literal: CustomLiteral, body_literals: [CustomLiteral; 2]) -> (r: CustomRule)
    ensures
        r.head == head_literal,
        r.body == body_literals,
{
    CustomRule { head: head_literal, body: body_literals }
}

/// The words of `s` from position `from`: the runs of characters other
/// than a space.
pub open spec fn words_from(s: Seq<char>, from: int) -> Seq<Seq<char>>
    decreases s.len() - from,
    via words_from_decreases
{
    if from < 0 || from >= s.len() {
        Seq::empty()
    } else if s[from] == ' ' {
        words_from(s, from + 1)
    } else {
        let e = first_of(s, ' ', from + 1);
        seq![s.subrange(from, e)] + words_from(s, e)
    }
}

#[via_fn]
proof fn words_from_decreases(s: Seq<char>, from: int) {
    if 0 <= from < s.len() && s[from] != ' ' {
        lemma_first_of_bounds(s, ' ', from + 1);
    }
}

/// The words of `s`, split at spaces.
pub fn split_words(s: &str) -> (r: Vec<String>)
    ensures
        views(r@) == words_from(s@, 0),
{
    let n = s.unicode_len();
    let mut out: Vec<String> = Vec::new();
    let mut i: usize = 0;
    while i < n
        invariant
            n == s@.len(),
            i <= n,
            words_from(s@, 0) == views(out@) + words_from(s@, i as int),
        decreases n - i,
    {
        let ghost before = out@;
        if s.get_char(i) == ' ' {
            assert(words_from(s@, i as int) == words_from(s@, i + 1));
            i = i + 1;
        } else {
            let e = find_char(s, ' ', i + 1);
            proof {
                lemma_first_of_bounds(s@, ' ', i + 1);
            }
            let w = s.substring_char(i, e).to_string();
            out.push(w);
            proof {
                assert(views(out@) =~= views(before).push(w@));
                assert(words_from(s@, i as int) == seq![s@.subrange(i as int, e as int)] + words_from(s@, e as int));
                assert(views(before) + words_from(s@, i as int) =~= views(out@) + words_from(s@, e as int));
            }
            i = e;
        }
    }
    proof {
        assert(words_from(s@, n as int) == Seq::<Seq<char>>::empty());
        assert(views(out@) + Seq::<Seq<char>>::empty() =~= views(out@));
    }
    out
}

/// The three literal texts of a rule line `H :- B1,B2`: the head up to
/// the character before the first `:`, and the body after `:- ` cut at its
/// first two commas.
pub open spec fn rule_parts(line: Seq<char>) -> Option<(Seq<char>, Seq<char>, Seq<char>)> {
    let cut = first_of(line, ':', 0);
    if 1 <= cut && cut + 3 <= line.len() {
        let body = line.subrange(cut + 3, line.len() as int);
        let c1 = first_of(body, ',', 0);
        let c2 = first_of(body, ',', c1 + 1);
        if c1 < body.len() {
            Some((line.subrange(0, cut - 1), body.subrange(0, c1), body.subrange(c1 + 1, c2)))
        } else {
            None
        }
    } else {
        None
    }
}

/// The parameters of a literal text `(a b c)`: the words between its first
/// and its last character.
pub open spec fn literal_params(t: Seq<char>) -> Seq<Seq<char>> {
    if t.len() >= 2 {
        words_from(t.subrange(1, t.len() - 1), 0)
    } else {
        Seq::empty()
    }
}

/// `line` is a rule line whose three literals are well formed.
pub open spec fn rule_ok(line: Seq<char>) -> bool {
    rule_parts(line) matches Some(parts) && literal_ok(literal_params(parts.0)) && literal_ok(
        literal_params(parts.1),
    ) && literal_ok(literal_params(parts.2))
}

/// `rule` is the rule that the well-formed rule line `line` states.
pub open spec fn rule_of(rule: CustomRule, line: Seq<char>) -> bool {
    let parts = rule_parts(line)->Some_0;
    &&& literal_of(rule.head, literal_params(parts.0))
    &&& literal_of(rule.body[0], literal_params(parts.1))
    &&& literal_of(rule.body[1], literal_params(parts.2))
}

fn literal_from_text(t: &str) -> (r: Option<CustomLiteral>)
    ensures
        match r {
            Some(lit) => literal_ok(literal_params(t@)) && literal_of(lit, literal_params(t@)),
            None => !literal_ok(literal_params(t@)),
        },
{
    let n = t.unicode_len();
    if n < 2 {
        return None;
    }
    let params = split_words(t.substring_char(1, n - 1));
    build_literal(&params)
}

/// The rule that the line states, or `None` when it is malformed.
pub fn parse_rule(line: &str) -> (r: Option<CustomRule>)
    ensures
        match r {
            Some(rule) => rule_ok(line@) && rule_of(rule, line@),
            None => !rule_ok(line@),
        },
{
    let n = line.unicode_len();
    let cut = find_char(line, ':', 0);
    if cut < 1 || cut >= n || n - cut < 3 {
        return None;
    }
    let body = line.substring_char(cut + 3, n);
    let m = body.unicode_len();
    let c1 = find_char(body, ',', 0);
    if c1 >= m {
        return None;
    }
    let c2 = find_char(body, ',', c1 + 1);
    let head = match literal_from_text(line.substring_char(0, cut - 1)) {
        Some(l) => l,
        None => {
            return None;
        },
    };
    let first = match literal_from_text(body.substring_char(0, c1)) {
        Some(l) => l,
        None => {
            return None;
        },
    };
    let second = match literal_from_text(body.substring_char(c1 + 1, c2)) {
        Some(l) => l,
        None => {
            return None;
        },
    };
    Some(build_rule(head, [first, second]))
}

/// The well-formed rule lines among the first `n` of `lines`.
pub open spec fn rule_lines(lines: Seq<Seq<char>>, n: int) -> Seq<Seq<char>>
    decreases n,
{
    if n <= 0 {
        Seq::empty()
    } else if rule_ok(lines[n - 1]) {
        rule_lines(lines, n - 1).push(lines[n - 1])
    } else {
        rule_lines(lines, n - 1)
    }
}

/// The rules of the well-formed lines, in order; malformed lines are left
/// out.
pub fn load_rules(lines: &Vec<String>) -> (r: Vec<CustomRule>)
    ensures
        r@.len() == rule_lines(views(lines@), lines@.len() as int).len(),
        forall|i: int|
            0 <= i < r@.len() ==> rule_of(
                #[trigger] r@[i],
                rule_lines(views(lines@), lines@.len() as int)[i],
            ),
{
    let mut r: Vec<CustomRule> = Vec::new();
    let mut i: usize = 0;
    while i < lines.len()
        invariant
            i <= lines.len(),
            r@.len() == rule_lines(views(lines@), i as int).len(),
            forall|j: int|
                0 <= j < r@.len() ==> rule_of(#[trigger] r@[j], rule_lines(views(lines@), i as int)[j]),
        decreases lines.len() - i,
    {
        let ghost before = r@;
        assert(views(lines@)[i as int] == lines@[i as int]@);
        match parse_rule(lines[i].as_str()) {
            Some(rule) => {
                r.push(rule);
                assert forall|j: int|
                    0 <= j < r@.len() implies rule_of(#[trigger] r@[j], rule_lines(views(lines@), i + 1)[j]) by {
                    if j < before.len() {
                        assert(r@[j] == before[j]);
                    }
                }
            },
            None => {},
        }
        i = i + 1;
    }
    r
}

impl Triple {
    /// The N-Triples line of the triple: `s p o .`.
    pub fn to_text(&self) -> (r: String)
        ensures
            r@ == self.subject@ + " "@ + self.predicate@ + " "@ + self.object@ + " ."@,
    {
        let mut r = self.subject.clone();
        r.append(" ");
        r.append(self.predicate.as_str());
        r.append(" ");
        r.append(self.object.as_str());
        r.append(" .");
        r
    }

    /// The local names of the terms, for reading: of a subject or
    /// predicate that holds a `#`, the part from the `#` up to the last
    /// character; of the object, the same, or the whole object when it holds
    /// no `#`. Each part is followed by a space.
    pub fn easy_reading(&self) -> (r: String)
        ensures
            r@ == easy_part(self.subject@, false) + easy_part(self.predicate@, false) + easy_part(
                self.object@,
                true,
            ),
    {
        let mut r = easy_reading_part(self.subject.as_str(), false);
        let p = easy_reading_part(self.predicate.as_str(), false);
        let o = easy_reading_part(self.object.as_str(), true);
        r.append(p.as_str());
        r.append(o.as_str());
        r
    }
}

/// The part of a term shown for reading: from its first `#` up to its last
/// character and a space; without a `#`, the whole term and a space when
/// `whole` is set, else nothing.
pub open spec fn easy_part(t: Seq<char>, whole: bool) -> Seq<char> {
    let n = first_of(t, '#', 0);
    if n < t.len() {
        t.subrange(n, t.len() - 1) + " "@
    } else if whole {
        t + " "@
    } else {
        Seq::empty()
    }
}

fn easy_reading_part(t: &str, whole: bool) -> (r: String)
    ensures
        r@ == easy_part(t@, whole),
{
    let len = t.unicode_len();
    let n = find_char(t, '#', 0);
    if n < len {
        let mut r = t.substring_char(n, len - 1).to_string();
        r.append(" ");
        r
    } else if whole {
        let mut r = t.to_string();
        r.append(" ");
        r
    } else {
        let r = String::new();
        assert(r@ =~= easy_part(t@, whole));
        r
    }
}

/// The name of a RhoDF word.
pub open spec fn word_text(w: RhoDFWord) -> Seq<char> {
    match w {
        RhoDFWord::SCO => "SCO"@,
        RhoDFWord::SPO => "SPO"@,
        RhoDFWord::TYPE => "TYPE"@,
        RhoDFWord::DOMAIN => "DOMAIN"@,
        RhoDFWord::RANGE => "RANGE"@,
    }
}

impl RhoDFWord {
    /// The name of the word.
    pub fn to_text(&self) -> (r: String)
        ensures
            r@ == word_text(*self),
    {
        match self {
            RhoDFWord::SCO => "SCO".to_string(),
            RhoDFWord::SPO => "SPO".to_string(),
            RhoDFWord::TYPE => "TYPE".to_string(),
            RhoDFWord::DOMAIN => "DOMAIN".to_string(),
            RhoDFWord::RANGE => "RANGE".to_string(),
        }
    }
}

/// The text of a term: a variable's name or a word's name; a constant has
/// none.
pub open spec fn term_text(t: PossibleTerm) -> Seq<char> {
    match t {
        PossibleTerm::LiteralVariable(v) => v@,
        PossibleTerm::RhoDFProperty(w) => word_text(w),
        PossibleTerm::ConstantValue => Seq::empty(),
    }
}

impl PossibleTerm {
    /// The text of the term.
    pub fn to_text(&self) -> (r: String)
        ensures
            r@ == term_text(*self),
    {
        match self {
            PossibleTerm::LiteralVariable(v) => v.clone(),
            PossibleTerm::RhoDFProperty(w) => w.to_text(),
            PossibleTerm::ConstantValue => String::new(),
        }
    }
}

/// The text of a literal: its three terms separated by `, `.
pub open spec fn literal_text(l: CustomLiteral) -> Seq<char> {
    term_text(l.tuple_of_terms[0]) + ", "@ + term_text(l.tuple_of_terms[1]) + ", "@ + term_text(
        l.tuple_of_terms[2],
    )
}

impl CustomLiteral {
    /// The text of the literal.
    pub fn to_text(&self) -> (r: String)
        ensures
            r@ == literal_text(*self),
    {
        let mut r = self.tuple_of_terms[0].to_text();
        r.append(", ");
        r.append(self.tuple_of_terms[1].to_text().as_str());
        r.append(", ");
        r.append(self.tuple_of_terms[2].to_text().as_str());
        r
    }
}

impl CustomRule {
    /// The text of the rule: `T(head) <= T(body0),T(body1)`.
    pub fn to_text(&self) -> (r: String)
        ensures
            r@ == "T("@ + literal_text(self.head) + ") <= T("@ + literal_text(self.body[0])
                + "),T("@ + literal_text(self.body[1]) + ")"@,
    {
        let mut r = "T(".to_string();
        r.append(self.head.to_text().as_str());
        r.append(") <= T(");
        r.append(self.body[0].to_text().as_str());
        r.append("),T(");
        r.append(self.body[1].to_text().as_str());
        r.append(")");
        r
    }
}

} // verus!
