//! The persistent form of an encoded triple: one line `(s, p, o)` of three
//! decimal ids, as bytes.
use vstd::prelude::*;
use crate::triple::EncodedTriple;

verus! {

/// The decimal digits of `n`, most significant first, without leading
/// zeros.
pub open spec fn decimal(n: nat) -> Seq<u8>
    decreases n,
{
    if n < 10 {
        seq![(48 + n) as u8]
    } else {
        decimal(n / 10).push((48 + n % 10) as u8)
    }
}

/// The line that stands for `t`: `(s, p, o)`.
pub open spec fn persistent_line(t: EncodedTriple) -> Seq<u8> {
    seq![40u8] + decimal(t.0 as nat) + seq![44u8, 32u8] + decimal(t.1 as nat) + seq![44u8, 32u8]
        + decimal(t.2 as nat) + seq![41u8]
}

/// An ASCII digit.
pub open spec fn is_digit(b: u8) -> bool {
    48 <= b <= 57
}

/// The value of a string of digits.
pub open spec fn digits_value(s: Seq<u8>) -> nat
    decreases s.len(),
{
    if s.len() == 0 {
        0
    } else {
        digits_value(s.drop_last()) * 10 + (s.last() - 48) as nat
    }
}

/// Digits only, at least one, and no leading zero but in `0` itself.
pub open spec fn canonical_digits(s: Seq<u8>) -> bool {
    &&& s.len() > 0
    &&& forall|i: int| 0 <= i < s.len() ==> is_digit(#[trigger] s[i])
    &&& (s.len() > 1 ==> s[0] != 48u8)
}

proof fn lemma_decimal_canonical(n: nat)
    ensures
        canonical_digits(decimal(n)),
        digits_value(decimal(n)) == n,
        n >= 10 ==> decimal(n).len() > 1,
    decreases n,
{
    if n >= 10 {
        lemma_decimal_canonical(n / 10);
        let s = decimal(n);
        assert(s.drop_last() =~= decimal(n / 10));
        assert(s[0] == decimal(n / 10)[0]);
        assert(s.last() == (48 + n % 10) as u8);
        assert((n / 10) * 10 + n % 10 == n) by (nonlinear_arith);
    } else {
        assert(decimal(n).drop_last() =~= Seq::<u8>::empty());
        assert(digits_value(Seq::<u8>::empty()) == 0);
        assert(decimal(n).last() == (48 + n) as u8);
    }
}

proof fn lemma_canonical_is_decimal(s: Seq<u8>)
    requires
        canonical_digits(s),
    ensures
        decimal(digits_value(s)) == s,
        s.len() > 1 ==> digits_value(s) >= 10,
    decreases s.len(),
{
    let v = digits_value(s);
    let d = (s.last() - 48) as nat;
    assert(s.last() == s[s.len() - 1]);
    assert(d < 10);
    if s.len() == 1 {
        assert(s.drop_last() =~= Seq::<u8>::empty());
        assert(digits_value(Seq::<u8>::empty()) == 0);
        assert(v == d);
        assert(decimal(v) =~= s);
    } else {
        let p = s.drop_last();
        assert(p[0] == s[0]);
        assert(canonical_digits(p));
        lemma_canonical_is_decimal(p);
        let pv = digits_value(p);
        if p.len() == 1 {
            assert(p[0] != 48u8);
            assert(p.drop_last() =~= Seq::<u8>::empty());
            assert(digits_value(Seq::<u8>::empty()) == 0);
            assert(p.last() == p[0]);
            assert(pv >= 1);
        }
        assert(pv >= 1);
        assert(v == pv * 10 + d);
        assert(v / 10 == pv && v % 10 == d) by (nonlinear_arith)
            requires
                v == pv * 10 + d,
                d < 10,
        ;
        assert(v >= 10) by (nonlinear_arith)
            requires
                v == pv * 10 + d,
                pv >= 1,
        ;
        assert(decimal(v) =~= s);
    }
}

/// Appends the decimal digits of `n` to `out`.
pub fn push_decimal(n: u64, out: &mut Vec<u8>)
    ensures
        final(out)@ == old(out)@ + decimal(n as nat),
    decreases n,
{
    if n >= 10 {
        push_decimal(n / 10, out);
    }
    out.push((48 + n % 10) as u8);
    assert(out@ =~= old(out)@ + decimal(n as nat));
}

/// The persistent line of `t`, without its line break.
pub fn format_encoded_triple(t: EncodedTriple) -> (r: Vec<u8>)
    ensures
        r@ == persistent_line(t),
{
    let mut out: Vec<u8> = Vec::new();
    out.push(40u8);
    push_decimal(t.0, &mut out);
    out.push(44u8);
    out.push(32u8);
    push_decimal(t.1, &mut out);
    out.push(44u8);
    out.push(32u8);
    push_decimal(t.2, &mut out);
    out.push(41u8);
    assert(out@ =~= persistent_line(t));
    out
}

/// Reads the longest run of digits of `line` from position `i`, and its
/// value when the run is canonical and fits in a `u64`.
fn scan_number(line: &[u8], i: usize) -> (r: Option<(u64, usize)>)
    requires
        i <= line@.len(),
    ensures
        match r {
            Some((v, j)) => i < j <= line@.len() && line@.subrange(i as int, j as int) == decimal(
                v as nat,
            ) && (j == line@.len() || !is_digit(line@[j as int])),
            None => forall|v: u64, j: int|
                i < j <= line@.len() && (j == line@.len() || !is_digit(line@[j]))
                    ==> line@.subrange(i as int, j) != decimal(v as nat),
        },
{
    let mut j = i;
    while j < line.len() && line[j] >= 48 && line[j] <= 57
        invariant
            i <= j <= line@.len(),
            forall|k: int| i <= k < j ==> is_digit(line@[k]),
        decreases line.len() - j,
    {
        j = j + 1;
    }
    let ghost run = line@.subrange(i as int, j as int);
    proof {
        assert forall|v: u64, j2: int|
            i < j2 <= line@.len() && (j2 == line@.len() || !is_digit(line@[j2]))
                && line@.subrange(i as int, j2) == decimal(v as nat) implies j2 == j by {
            lemma_decimal_canonical(v as nat);
            let d = decimal(v as nat);
            if j2 < j {
                assert(is_digit(line@[j2]));
            } else if j2 > j {
                assert(d[j - i] == line@[j as int]);
                assert(is_digit(d[j - i]));
            }
        }
    }
    if j == i || (j - i > 1 && line[i] == 48) {
        proof {
            assert forall|v: u64, j2: int|
                i < j2 <= line@.len() && (j2 == line@.len() || !is_digit(line@[j2]))
                    implies line@.subrange(i as int, j2) != decimal(v as nat) by {
                lemma_decimal_canonical(v as nat);
                if line@.subrange(i as int, j2) == decimal(v as nat) {
                    assert(j2 == j);
                    assert(decimal(v as nat)[0] == line@[i as int]);
                }
            }
        }
        return None;
    }
    let mut v: u64 = 0;
    let mut k = i;
    while k < j
        invariant
            i <= k <= j <= line@.len(),
            forall|q: int| i <= q < j ==> is_digit(line@[q]),
            v as nat == digits_value(line@.subrange(i as int, k as int)),
            forall|w: u64, j2: int|
                i < j2 <= line@.len() && (j2 == line@.len() || !is_digit(line@[j2]))
                    && line@.subrange(i as int, j2) == decimal(w as nat) ==> j2 == j,
        decreases j - k,
    {
        let d = (line[k] - 48) as u64;
        assert(line@.subrange(i as int, k + 1).drop_last() =~= line@.subrange(i as int, k as int));
        if v > (u64::MAX - d) / 10 {
            proof {
                assert forall|w: u64, j2: int|
                    i < j2 <= line@.len() && (j2 == line@.len() || !is_digit(line@[j2]))
                        implies line@.subrange(i as int, j2) != decimal(w as nat) by {
                    if line@.subrange(i as int, j2) == decimal(w as nat) {
                        assert(j2 == j);
                        lemma_decimal_canonical(w as nat);
                        lemma_prefix_value_bound(line@.subrange(i as int, j as int), (k - i) as int);
                        assert(line@.subrange(i as int, j as int).subrange(0, k - i + 1) =~= line@.subrange(i as int, k + 1));
                        assert(digits_value(line@.subrange(i as int, k + 1)) == v * 10 + d);
                        assert(v * 10 + d > u64::MAX) by (nonlinear_arith)
                            requires
                                v > (u64::MAX - d) / 10,
                                d <= 9,
                        ;
                    }
                }
            }
            return None;
        }
        assert(v * 10 + d <= u64::MAX) by (nonlinear_arith)
            requires
                v <= (u64::MAX - d) / 10,
                d <= 9,
        ;
        v = v * 10 + d;
        k = k + 1;
    }
    proof {
        assert(canonical_digits(run)) by {
            if run.len() > 1 {
                assert(run[0] == line@[i as int]);
            }
        }
        lemma_canonical_is_decimal(run);
    }
    Some((v, j))
}

proof fn lemma_prefix_value_bound(s: Seq<u8>, n: int)
    requires
        0 <= n < s.len(),
        forall|i: int| 0 <= i < s.len() ==> is_digit(#[trigger] s[i]),
    ensures
        digits_value(s.subrange(0, n + 1)) <= digits_value(s),
    decreases s.len(),
{
    if n + 1 < s.len() {
        let p = s.drop_last();
        assert(forall|i: int| 0 <= i < p.len() ==> #[trigger] p[i] == s[i]);
        lemma_prefix_value_bound(p, n);
        assert(p.subrange(0, n + 1) =~= s.subrange(0, n + 1));
        assert(s.last() == s[s.len() - 1]);
        assert(digits_value(s) >= digits_value(p)) by (nonlinear_arith)
            requires
                digits_value(s) == digits_value(p) * 10 + (s.last() - 48) as nat,
        ;
    } else {
        assert(s.subrange(0, n + 1) =~= s);
    }
}

/// Where the first comma of the persistent line of `t` stands.
pub open spec fn comma1(t: EncodedTriple) -> int {
    1 + decimal(t.0 as nat).len() as int
}

/// Where the second comma of the persistent line of `t` stands.
pub open spec fn comma2(t: EncodedTriple) -> int {
    comma1(t) + 2 + decimal(t.1 as nat).len() as int
}

/// Where the closing parenthesis of the persistent line of `t` stands.
pub open spec fn close_at(t: EncodedTriple) -> int {
    comma2(t) + 2 + decimal(t.2 as nat).len() as int
}

proof fn lemma_line_layout(t: EncodedTriple)
    ensures
        persistent_line(t).len() == close_at(t) + 1,
        persistent_line(t)[0] == 40u8,
        persistent_line(t).subrange(1, comma1(t)) == decimal(t.0 as nat),
        persistent_line(t)[comma1(t)] == 44u8,
        persistent_line(t)[comma1(t) + 1] == 32u8,
        persistent_line(t).subrange(comma1(t) + 2, comma2(t)) == decimal(t.1 as nat),
        persistent_line(t)[comma2(t)] == 44u8,
        persistent_line(t)[comma2(t) + 1] == 32u8,
        persistent_line(t).subrange(comma2(t) + 2, close_at(t)) == decimal(t.2 as nat),
        persistent_line(t)[close_at(t)] == 41u8,
{
    let l = persistent_line(t);
    let d0 = decimal(t.0 as nat);
    let d1 = decimal(t.1 as nat);
    let d2 = decimal(t.2 as nat);
    assert(l.subrange(1, comma1(t)) =~= d0);
    assert(l.subrange(comma1(t) + 2, comma2(t)) =~= d1);
    assert(l.subrange(comma2(t) + 2, close_at(t)) =~= d2);
}

proof fn lemma_run_unique(line: Seq<u8>, start: int, v: u64, e: int, w: u64, e2: int)
    requires
        0 <= start < e <= line.len(),
        start < e2 <= line.len(),
        line.subrange(start, e) == decimal(v as nat),
        line.subrange(start, e2) == decimal(w as nat),
        e == line.len() || !is_digit(line[e]),
        e2 == line.len() || !is_digit(line[e2]),
    ensures
        e == e2,
        v == w,
{
    lemma_decimal_canonical(v as nat);
    lemma_decimal_canonical(w as nat);
    if e < e2 {
        assert(decimal(w as nat)[e - start] == line[e]);
    } else if e2 < e {
        assert(decimal(v as nat)[e2 - start] == line[e2]);
    }
}

/// The triple whose persistent line is `line`, or `None` when `line` is
/// the persistent line of no triple.
pub fn parse_encoded_triple(line: &[u8]) -> (r: Option<EncodedTriple>)
    ensures
        match r {
            Some(t) => line@ == persistent_line(t),
            None => forall|t: EncodedTriple| line@ != persistent_line(t),
        },
{
    let n = line.len();
    if n < 2 || line[0] != 40u8 {
        proof {
            assert forall|t: EncodedTriple| line@ != persistent_line(t) by {
                if line@ == persistent_line(t) {
                    lemma_line_layout(t);
                }
            }
        }
        return None;
    }
    let (s, i) = match scan_number(line, 1) {
        Some(x) => x,
        None => {
            proof {
                assert forall|t: EncodedTriple| line@ != persistent_line(t) by {
                    if line@ == persistent_line(t) {
                        lemma_line_layout(t);
                        assert(line@.subrange(1, comma1(t)) == decimal(t.0 as nat));
                    }
                }
            }
            return None;
        },
    };
    proof {
        assert forall|t: EncodedTriple| line@ == persistent_line(t) implies t.0 == s && i == comma1(t) by {
            lemma_line_layout(t);
            lemma_run_unique(line@, 1, s, i as int, t.0, comma1(t));
        }
    }
    if n - i <= 2 || line[i] != 44u8 || line[i + 1] != 32u8 {
        proof {
            assert forall|t: EncodedTriple| line@ != persistent_line(t) by {
                if line@ == persistent_line(t) {
                    lemma_line_layout(t);
                }
            }
        }
        return None;
    }
    let (p, j) = match scan_number(line, i + 2) {
        Some(x) => x,
        None => {
            proof {
                assert forall|t: EncodedTriple| line@ != persistent_line(t) by {
                    if line@ == persistent_line(t) {
                        lemma_line_layout(t);
                    }
                }
            }
            return None;
        },
    };
    proof {
        assert forall|t: EncodedTriple| line@ == persistent_line(t) implies t.1 == p && j == comma2(t) by {
            lemma_line_layout(t);
            lemma_run_unique(line@, i + 2, p, j as int, t.1, comma2(t));
        }
    }
    if n - j <= 2 || line[j] != 44u8 || line[j + 1] != 32u8 {
        proof {
            assert forall|t: EncodedTriple| line@ != persistent_line(t) by {
                if line@ == persistent_line(t) {
                    lemma_line_layout(t);
                }
            }
        }
        return None;
    }
    let (o, k) = match scan_number(line, j + 2) {
        Some(x) => x,
        None => {
            proof {
                assert forall|t: EncodedTriple| line@ != persistent_line(t) by {
                    if line@ == persistent_line(t) {
                        lemma_line_layout(t);
                    }
                }
            }
            return None;
        },
    };
    proof {
        assert forall|t: EncodedTriple| line@ == persistent_line(t) implies t.2 == o && k == close_at(t) by {
            lemma_line_layout(t);
            lemma_run_unique(line@, j + 2, o, k as int, t.2, close_at(t));
        }
    }
    if k >= n || n - k != 1 || line[k] != 41u8 {
        proof {
            assert forall|t: EncodedTriple| line@ != persistent_line(t) by {
                if line@ == persistent_line(t) {
                    lemma_line_layout(t);
                }
            }
        }
        return None;
    }
    proof {
        let t = (s, p, o);
        lemma_line_layout(t);
        assert(line@ =~= persistent_line(t));
    }
    Some((s, p, o))
}

/// Two triples with the same persistent line are the same triple.
proof fn lemma_persistent_line_injective(t1: EncodedTriple, t2: EncodedTriple)
    requires
        persistent_line(t1) == persistent_line(t2),
    ensures
        t1 == t2,
{
    let l = persistent_line(t1);
    lemma_line_layout(t1);
    lemma_line_layout(t2);
    lemma_run_unique(l, 1, t1.0, comma1(t1), t2.0, comma1(t2));
    lemma_run_unique(l, comma1(t1) + 2, t1.1, comma2(t1), t2.1, comma2(t2));
    lemma_run_unique(l, comma2(t1) + 2, t1.2, close_at(t1), t2.2, close_at(t2));
}

/// Reading back the persistent line of a triple gives the triple, and only
/// it: a line stands for at most one triple.
pub proof fn lemma_persist_round_trip(t: EncodedTriple, u: EncodedTriple)
    ensures
        persistent_line(t) == persistent_line(u) <==> t == u,
{
    if persistent_line(t) == persistent_line(u) {
        lemma_persistent_line_injective(t, u);
    }
}

/// `l` is the persistent line of some triple.
pub open spec fn is_persistent_line(l: Seq<u8>) -> bool {
    exists|t: EncodedTriple| #[trigger] persistent_line(t) == l
}

/// The lines at the positions `i < n` with `i % peers == index`.
pub open spec fn worker_lines(lines: Seq<Seq<u8>>, index: int, peers: int, n: int) -> Seq<Seq<u8>>
    decreases n,
{
    if n <= 0 {
        Seq::empty()
    } else if (n - 1) % peers == index {
        worker_lines(lines, index, peers, n - 1).push(lines[n - 1])
    } else {
        worker_lines(lines, index, peers, n - 1)
    }
}

/// The views of the lines of `v`.
pub open spec fn line_views(v: Seq<Vec<u8>>) -> Seq<Seq<u8>> {
    v.map_values(|l: Vec<u8>| l@)
}

/// The lines of worker `index` among `peers`; all lines when both are
/// `None`.
pub open spec fn selected_lines(lines: Seq<Vec<u8>>, index: Option<usize>, peers: Option<usize>) -> Seq<
    Seq<u8>,
> {
    worker_lines(
        line_views(lines),
        match index {
            Some(i) => i as int,
            None => 0,
        },
        match peers {
            Some(p) => p as int,
            None => 1,
        },
        lines.len() as int,
    )
}

/// Reads and writes encoded datasets in their persistent form.
pub struct BiMapEncoder {}

impl BiMapEncoder {
    /// The persistent lines of `dataset`, one per triple, in order.
    pub fn persistent_form(dataset: &Vec<EncodedTriple>) -> (r: Vec<Vec<u8>>)
        ensures
            r@.len() == dataset@.len(),
            forall|i: int| 0 <= i < r@.len() ==> (#[trigger] r@[i])@ == persistent_line(dataset@[i]),
    {
        let mut r: Vec<Vec<u8>> = Vec::new();
        let mut i: usize = 0;
        while i < dataset.len()
            invariant
                i <= dataset.len(),
                r@.len() == i,
                forall|j: int| 0 <= j < i ==> (#[trigger] r@[j])@ == persistent_line(dataset@[j]),
            decreases dataset.len() - i,
        {
            r.push(format_encoded_triple(dataset[i]));
            i = i + 1;
        }
        r
    }

    /// The triples of the lines of worker `index` among `peers` (all lines
    /// when both are `None`), or `None` when one of those lines is not the
    /// persistent line of a triple.
    pub fn load_encoded_from_persistent(
        lines: &Vec<Vec<u8>>,
        index: Option<usize>,
        peers: Option<usize>,
    ) -> (r: Option<Vec<EncodedTriple>>)
        requires
            match peers {
                Some(p) => p > 0,
                None => true,
            },
        ensures
            match r {
                Some(v) => v@.len() == selected_lines(lines@, index, peers).len() && forall|i: int|
                    0 <= i < v@.len() ==> persistent_line(#[trigger] v@[i]) == selected_lines(
                        lines@,
                        index,
                        peers,
                    )[i],
                None => exists|i: int|
                    0 <= i < selected_lines(lines@, index, peers).len() && !is_persistent_line(
                        #[trigger] selected_lines(lines@, index, peers)[i],
                    ),
            },
    {
        let idx: usize = match index {
            Some(i) => i,
            None => 0,
        };
        let ps: usize = match peers {
            Some(p) => p,
            None => 1,
        };
        let ghost all = line_views(lines@);
        let mut r: Vec<EncodedTriple> = Vec::new();
        let mut i: usize = 0;
        while i < lines.len()
            invariant
                ps > 0,
                idx as int == match index {
                    Some(x) => x as int,
                    None => 0,
                },
                ps as int == match peers {
                    Some(x) => x as int,
                    None => 1,
                },
                all == line_views(lines@),
                i <= lines.len(),
                r@.len() == worker_lines(all, idx as int, ps as int, i as int).len(),
                forall|j: int|
                    0 <= j < r@.len() ==> persistent_line(#[trigger] r@[j]) == worker_lines(
                        all,
                        idx as int,
                        ps as int,
                        i as int,
                    )[j],
            decreases lines.len() - i,
        {
            let ghost before = r@;
            assert(all[i as int] == lines@[i as int]@);
            if i % ps == idx {
                match parse_encoded_triple(lines[i].as_slice()) {
                    Some(t) => {
                        r.push(t);
                        assert forall|j: int|
                            0 <= j < r@.len() implies persistent_line(#[trigger] r@[j]) == worker_lines(
                            all,
                            idx as int,
                            ps as int,
                            i + 1,
                        )[j] by {
                            if j < before.len() {
                                assert(r@[j] == before[j]);
                            }
                        }
                    },
                    None => {
                        proof {
                            let mine = worker_lines(all, idx as int, ps as int, lines@.len() as int);
                            lemma_worker_lines_prefix(all, idx as int, ps as int, i + 1, lines@.len() as int);
                            let w = worker_lines(all, idx as int, ps as int, i + 1);
                            assert(w[w.len() - 1] == all[i as int]);
                            assert(mine[w.len() - 1] == all[i as int]);
                            if is_persistent_line(mine[w.len() - 1]) {
                                let t = choose|t: EncodedTriple| #[trigger] persistent_line(t) == mine[w.len() - 1];
                                assert(lines@[i as int]@ == persistent_line(t));
                            }
                            let k = w.len() - 1;
                            assert(mine == selected_lines(lines@, index, peers));
                            assert(0 <= k < mine.len());
                            assert(!is_persistent_line(mine[k]));
                            assert(idx as int == match index {
                                Some(x) => x as int,
                                None => 0,
                            });
                            assert(ps as int == match peers {
                                Some(x) => x as int,
                                None => 1,
                            });
                        }
                        return None;
                    },
                }
            }
            i = i + 1;
        }
        Some(r)
    }
}

proof fn lemma_worker_lines_prefix(lines: Seq<Seq<u8>>, index: int, peers: int, n: int, m: int)
    requires
        0 <= n <= m,
    ensures
        worker_lines(lines, index, peers, n).len() <= worker_lines(lines, index, peers, m).len(),
        forall|j: int|
            0 <= j < worker_lines(lines, index, peers, n).len() ==> #[trigger] worker_lines(
                lines,
                index,
                peers,
                n,
            )[j] == worker_lines(lines, index, peers, m)[j],
    decreases m - n,
{
    if n < m {
        lemma_worker_lines_prefix(lines, index, peers, n, m - 1);
    }
}

} // verus!
