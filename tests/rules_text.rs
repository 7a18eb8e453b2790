use reasoning_service::model::{build_literal, build_rule, load_rules, parse_rule, split_words, PossibleTerm, RhoDFWord, Triple};

fn s(x: &str) -> String {
    x.to_string()
}

fn var(t: &PossibleTerm) -> Option<String> {
    match t {
        PossibleTerm::LiteralVariable(v) => Some(v.clone()),
        _ => None,
    }
}

fn word(t: &PossibleTerm) -> Option<RhoDFWord> {
    match t {
        PossibleTerm::RhoDFProperty(w) => Some(*w),
        _ => None,
    }
}

#[test]
fn literals_from_parameters() {
    let lit = build_literal(&vec![s("?a"), s("SCO"), s("?b")]).unwrap();
    assert_eq!(var(&lit.tuple_of_terms[0]), Some(s("a")));
    assert_eq!(word(&lit.tuple_of_terms[1]), Some(RhoDFWord::SCO));
    assert_eq!(var(&lit.tuple_of_terms[2]), Some(s("b")));
    let lit = build_literal(&vec![s("?x"), s("?p"), s("?y")]).unwrap();
    assert_eq!(var(&lit.tuple_of_terms[1]), Some(s("p")));
    assert!(build_literal(&vec![s("?x"), s("sameAs"), s("?y")]).is_none());
    assert!(build_literal(&vec![s("?x"), s("SCO")]).is_none());
    assert_eq!(lit.to_text(), "x, p, y");
}

#[test]
fn rule_lines() {
    let rule = parse_rule("(?a SCO ?c) :- (?a SCO ?b),(?b SCO ?c)").unwrap();
    assert_eq!(rule.to_text(), "T(a, SCO, c) <= T(a, SCO, b),T(b, SCO, c)");
    let rule = parse_rule("(?b TYPE ?r) :- (?p RANGE ?r),(?a ?p ?b)").unwrap();
    assert_eq!(rule.to_text(), "T(b, TYPE, r) <= T(p, RANGE, r),T(a, p, b)");
    assert!(parse_rule("no cut here").is_none());
    assert!(parse_rule("(?a SCO ?c) :- (?a SCO ?b)").is_none());
    let rules = load_rules(&vec![s("(?a SPO ?c) :- (?a SPO ?b),(?b SPO ?c)"), s("junk"), s("(?x TYPE ?d) :- (?p DOMAIN ?d),(?x ?p ?y)")]);
    assert_eq!(rules.len(), 2);
    assert_eq!(rules[1].to_text(), "T(x, TYPE, d) <= T(p, DOMAIN, d),T(x, p, y)");
    let head = build_literal(&vec![s("?a"), s("TYPE"), s("?b")]).unwrap();
    let b0 = build_literal(&vec![s("?a"), s("SCO"), s("?c")]).unwrap();
    let b1 = build_literal(&vec![s("?c"), s("TYPE"), s("?b")]).unwrap();
    assert_eq!(build_rule(head, [b0, b1]).to_text(), "T(a, TYPE, b) <= T(a, SCO, c),T(c, TYPE, b)");
}

#[test]
fn words_split_at_spaces() {
    assert_eq!(split_words("  ?a   SCO ?b "), vec![s("?a"), s("SCO"), s("?b")]);
    assert_eq!(split_words(""), Vec::<String>::new());
}

#[test]
fn triple_texts() {
    let t = Triple { subject: s("<http://x#Alice>"), predicate: s("<http://y#knows>"), object: s("\"Bob\"") };
    assert_eq!(t.to_text(), "<http://x#Alice> <http://y#knows> \"Bob\" .");
    assert_eq!(t.easy_reading(), "#Alice #knows \"Bob\" ");
    assert_eq!(RhoDFWord::DOMAIN.to_text(), "DOMAIN");
}
