//! Reading a triple of terms from an N-Triples line.
use vstd::prelude::*;
use crate::encoder::ParsedTriple;
use crate::model::{first_of, find_char, views};

verus! {

broadcast use vstd::string::to_string_from_display_ensures_for_str;

/// The terms of an N-Triples line: the line without its final ` .`, split
/// into the subject (up to the first space), the predicate (up to the next
/// space) and the object (the rest, which may hold spaces).
pub open spec fn ntriple_terms(line: Seq<char>) -> Option<(Seq<char>, Seq<char>, Seq<char>)> {
    if line.len() >= 2 && line[line.len() - 2] == ' ' && line[line.len() - 1] == '.' {
        let body = line.subrange(0, line.len() - 2);
        let i0 = first_of(body, ' ', 0);
        let i1 = first_of(body, ' ', i0 + 1);
        if i1 < body.len() {
            Some((body.subrange(0, i0), body.subrange(i0 + 1, i1), body.subrange(i1 + 1, body.len() as int)))
        } else {
            None
        }
    } else {
        None
    }
}

/// The views of the three terms of `t`.
pub open spec fn parsed_view(t: ParsedTriple) -> (Seq<char>, Seq<char>, Seq<char>) {
    (t.0@, t.1@, t.2@)
}

/// The terms of the N-Triples line `line`, or `None` when it is malformed.
pub fn parse_ntriples_line(line: &str) -> (r: Option<ParsedTriple>)
    ensures
        match r {
            Some(t) => ntriple_terms(line@) == Some(parsed_view(t)),
            None => ntriple_terms(line@) is None,
        },
{
    let n = line.unicode_len();
    if n < 2 || line.get_char(n - 2) != ' ' || line.get_char(n - 1) != '.' {
        return None;
    }
    let body = line.substring_char(0, n - 2);
    assert(body@ == line@.subrange(0, n - 2));
    let m = n - 2;
    let i0 = find_char(body, ' ', 0);
    if i0 >= m {
        return None;
    }
    let i1 = find_char(body, ' ', i0 + 1);
    if i1 >= m {
        return None;
    }
    let subject = body.substring_char(0, i0).to_string();
    let predicate = body.substring_char(i0 + 1, i1).to_string();
    let object = body.substring_char(i1 + 1, m).to_string();
    Some((subject, predicate, object))
}

/// A reader of triples of terms from lines of text.
pub trait ParserTrait {
    fn parse_triple(&mut self, input: &str) -> Option<ParsedTriple>;
}

/// The N-Triples line reader.
pub struct NTriplesParser {}

impl NTriplesParser {
    pub fn new() -> (r: NTriplesParser) {
        NTriplesParser {  }
    }
}

impl ParserTrait for NTriplesParser {
    /// The terms of the line, or `None` when it is malformed.
    fn parse_triple(&mut self, input: &str) -> Option<ParsedTriple> {
        parse_ntriples_line(input)
    }
}

/// The terms of the well-formed lines among the first `n` at the positions
/// `i` with `i % peers == index`.
pub open spec fn ntriple_prefix(lines: Seq<Seq<char>>, index: int, peers: int, n: int) -> Seq<
    (Seq<char>, Seq<char>, Seq<char>),
>
    decreases n,
{
    if n <= 0 {
        Seq::empty()
    } else {
        let before = ntriple_prefix(lines, index, peers, n - 1);
        if (n - 1) % peers == index && ntriple_terms(lines[n - 1]) is Some {
            before.push(ntriple_terms(lines[n - 1])->Some_0)
        } else {
            before
        }
    }
}

/// The terms of the well-formed lines of worker `index` among `peers`; of
/// all lines when both are `None`.
pub open spec fn ntriple_shard(lines: Seq<Seq<char>>, index: Option<usize>, peers: Option<usize>) -> Seq<
    (Seq<char>, Seq<char>, Seq<char>),
> {
    ntriple_prefix(
        lines,
        match index {
            Some(i) => i as int,
            None => 0,
        },
        match peers {
            Some(p) => p as int,
            None => 1,
        },
        lines.len() as int,
    )
}

/// The parsed triples of the lines of worker `index` among `peers` (all
/// lines when both are `None`), in order, malformed lines left out.
pub fn parse_lines(lines: &Vec<String>, index: Option<usize>, peers: Option<usize>) -> (r: Vec<
    ParsedTriple,
>)
    requires
        match peers {
            Some(p) => p > 0,
            None => true,
        },
    ensures
        r@.len() <= lines@.len(),
        r@.map_values(|t: ParsedTriple| parsed_view(t)) == ntriple_shard(views(lines@), index, peers),
{
    let idx: usize = match index {
        Some(i) => i,
        None => 0,
    };
    let ps: usize = match peers {
        Some(p) => p,
        None => 1,
    };
    let mut r: Vec<ParsedTriple> = Vec::new();
    let mut i: usize = 0;
    while i < lines.len()
        invariant
            ps > 0,
            idx as int == match index {
                Some(x) => x as int,
                None => 0,
            },
            ps as int == match peers {
                Some(x) => x as int,
                None => 1,
            },
            i <= lines.len(),
            r@.len() <= i,
            r@.map_values(|t: ParsedTriple| parsed_view(t)) == ntriple_prefix(views(lines@), idx as int, ps as int, i as int),
        decreases lines.len() - i,
    {
        let ghost before = r@;
        if i % ps == idx {
            match parse_ntriples_line(lines[i].as_str()) {
                Some(t) => {
                    r.push(t);
                    assert(r@.map_values(|t: ParsedTriple| parsed_view(t)) =~= before.map_values(|t: ParsedTriple| parsed_view(t)).push(parsed_view(t)));
                },
                None => {},
            }
        }
        assert(views(lines@)[i as int] == lines@[i as int]@);
        i = i + 1;
    }
    r
}

} // verus!
