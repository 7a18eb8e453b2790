use reasoning_service::triple::Triple;
use reasoning_service::encoder::{EncoderError, EncoderUnit, RDFS_DOMAIN, RDFS_RANGE, RDFS_SUB_CLASS_OF, RDFS_SUB_PROPERTY_OF, RDF_TYPE};
use reasoning_service::encoding_logic::{EncodingLogic, SimpleLogic};
use reasoning_service::bijective::BijectiveMap;
use reasoning_service::parser::{parse_ntriples_line, parse_lines, NTriplesParser, ParserTrait};
use reasoning_service::persist::{format_encoded_triple, parse_encoded_triple, BiMapEncoder};

fn s(x: &str) -> String {
    x.to_string()
}

#[test]
fn encode_then_decode_is_identity() {
    let mut e = EncoderUnit::new(SimpleLogic::new(0));
    let a = e.encode_term(s("<a>")).unwrap();
    let b = e.encode_term(s("<b>")).unwrap();
    assert_eq!(a, 0);
    assert_eq!(b, 1);
    assert_eq!(e.encode_term(s("<a>")).unwrap(), 0);
    assert_eq!(e.decode_id(a).unwrap(), "<a>");
    assert_eq!(e.decode_id(b).unwrap(), "<b>");
    assert_eq!(e.encode_term(e.decode_id(1).unwrap()).unwrap(), 1);
    assert_eq!(e.decode_id(2), Err(EncoderError::UnknownId));
}

#[test]
fn ids_are_consecutive_from_base() {
    let mut e = EncoderUnit::new(SimpleLogic::new(0));
    let ids: Vec<u64> = ["<x>", "<y>", "<x>", "<z>", "<y>"].iter().map(|t| e.encode_term(s(t)).unwrap()).collect();
    assert_eq!(ids, vec![0, 1, 0, 2, 1]);
    let mut f = EncoderUnit::new(SimpleLogic::new(100));
    assert_eq!(f.encode_term(s("<x>")).unwrap(), 100);
    assert_eq!(f.remaining_ids(), u64::MAX - 101);
}

#[test]
fn encodes_parsed_triples_and_translates_back() {
    let mut e = EncoderUnit::new(SimpleLogic::new(0));
    let parsed = vec![(s("<a>"), s("<p>"), s("<b>")), (s("<b>"), s("<p>"), s("<a>"))];
    let enc = e.insert_from_parser_output(&parsed).unwrap();
    assert_eq!(enc, vec![(0, 1, 2), (2, 1, 0)]);
    let back = e.translate(&enc).unwrap();
    assert_eq!(back, parsed);
    assert_eq!(e.translate(&vec![(0, 1, 9)]), Err(EncoderError::UnknownId));
    assert_eq!(e.get_right_from_map(&s("<p>")), Some(1));
    assert_eq!(e.get_right_from_map(&s("<q>")), None);
}

#[test]
fn schema_keywords_in_order() {
    let mut e = EncoderUnit::new(SimpleLogic::new(0));
    assert_eq!(e.rdfs_keywords(), Err(EncoderError::SchemaConstantMissing));
    for t in [RDF_TYPE, RDFS_RANGE, RDFS_SUB_CLASS_OF, RDFS_DOMAIN, RDFS_SUB_PROPERTY_OF] {
        e.encode_term(s(t)).unwrap();
    }
    assert_eq!(e.rdfs_keywords(), Ok([2, 4, 0, 3, 1]));
}

#[test]
fn encode_lines_skips_malformed_and_partitions() {
    let lines = vec![s("<a> <p> <b> ."), s("broken"), s("<c> <p> \"x y\" ."), s("<d> <q> <a> .")];
    let mut e = EncoderUnit::new(SimpleLogic::new(0));
    let all = e.encode(&lines, None, None);
    assert_eq!(all, vec![(0, 1, 2), (3, 1, 4), (5, 6, 0)]);
    assert_eq!(e.decode_id(4).unwrap(), "\"x y\"");
    let mut f = EncoderUnit::new(SimpleLogic::new(0));
    let odd = f.encode(&lines, Some(1), Some(2));
    assert_eq!(odd, vec![(0, 1, 2)]);
    assert_eq!(f.decode_id(0).unwrap(), "<d>");
}

#[test]
fn ntriples_lines() {
    assert_eq!(parse_ntriples_line("<a> <p> <b> ."), Some((s("<a>"), s("<p>"), s("<b>"))));
    assert_eq!(parse_ntriples_line("<a> <p> \"hello world\" ."), Some((s("<a>"), s("<p>"), s("\"hello world\""))));
    assert_eq!(parse_ntriples_line("<a> <p> <b>"), None);
    assert_eq!(parse_ntriples_line("<a> ."), None);
    assert_eq!(parse_ntriples_line(""), None);
    let mut p = NTriplesParser::new();
    assert_eq!(p.parse_triple("<s> <p> <o> ."), Some((s("<s>"), s("<p>"), s("<o>"))));
    let lines = vec![s("<a> <p> <b> ."), s("x"), s("<c> <p> <d> .")];
    assert_eq!(parse_lines(&lines, Some(0), Some(2)), vec![(s("<a>"), s("<p>"), s("<b>")), (s("<c>"), s("<p>"), s("<d>"))]);
}

#[test]
fn persistent_lines_round_trip() {
    let t = (12, 0, 18446744073709551615u64);
    let line = format_encoded_triple(t);
    assert_eq!(String::from_utf8(line.clone()).unwrap(), "(12, 0, 18446744073709551615)");
    assert_eq!(parse_encoded_triple(&line), Some(t));
    assert_eq!(parse_encoded_triple(b"(1, 2, 3)"), Some((1, 2, 3)));
    assert_eq!(parse_encoded_triple(b"(1,2,3)"), None);
    assert_eq!(parse_encoded_triple(b"(01, 2, 3)"), None);
    assert_eq!(parse_encoded_triple(b"(1, 2, 18446744073709551616)"), None);
    assert_eq!(parse_encoded_triple(b"(1, 2)"), None);
    assert_eq!(parse_encoded_triple(b"(1, 2, 3"), None);
    assert_eq!(parse_encoded_triple(b""), None);
}

#[test]
fn persistent_dataset_by_worker() {
    let data = vec![(1, 2, 3), (4, 5, 6), (7, 8, 9)];
    let lines = BiMapEncoder::persistent_form(&data);
    assert_eq!(BiMapEncoder::load_encoded_from_persistent(&lines, None, None), Some(data.clone()));
    assert_eq!(BiMapEncoder::load_encoded_from_persistent(&lines, Some(1), Some(2)), Some(vec![(4, 5, 6)]));
    assert_eq!(BiMapEncoder::load_encoded_from_persistent(&lines, Some(0), Some(2)), Some(vec![(1, 2, 3), (7, 8, 9)]));
    let mut bad = lines.clone();
    bad.push(b"oops".to_vec());
    assert_eq!(BiMapEncoder::load_encoded_from_persistent(&bad, None, None), None);
    assert_eq!(BiMapEncoder::load_encoded_from_persistent(&bad, Some(0), Some(2)), Some(vec![(1, 2, 3), (7, 8, 9)]));
}

#[test]
fn bijective_map_refuses_rebinding() {
    let mut m = BijectiveMap::new();
    assert_eq!(m.insert(s("a"), 1), Ok(()));
    assert_eq!(m.insert(s("a"), 2), Err((s("a"), 2)));
    assert_eq!(m.insert(s("b"), 1), Err((s("b"), 1)));
    assert_eq!(m.get_right(&s("a")), Some(1));
    assert_eq!(m.get_left(1), Some(s("a")));
    assert_eq!(m.get_left(2), None);
}

#[test]
fn simple_logic_counts() {
    let mut l = SimpleLogic::new(5);
    assert_eq!(l.peek(), 5);
    assert_eq!(l.issue(), 5);
    assert_eq!(l.encode(s("anything")), 6);
    assert_eq!(l.peek(), 7);
}

#[test]
fn triple_positions() {
    let t: (u64, u64, u64) = (7, 8, 9);
    assert_eq!((*t.s(), *t.p(), *t.o()), (7, 8, 9));
}

#[test]
fn loads_several_sets_under_one_dictionary() {
    let sets = vec![vec![(s("<a>"), s("<p>"), s("<b>"))], vec![(s("<b>"), s("<q>"), s("<a>")), (s("<a>"), s("<p>"), s("<c>"))]];
    let (e, out) = EncoderUnit::load_from_parser_output(&sets, SimpleLogic::new(0));
    assert_eq!(out, vec![vec![(0, 1, 2)], vec![(2, 3, 0), (0, 1, 4)]]);
    assert_eq!(e.get_map().get_left(4), Some(s("<c>")));
}

#[test]
fn fresh_counter_hands_out_zero_one_two() {
    let mut l = SimpleLogic::new(0);
    let ids = [l.encode(s("a")), l.encode(s("b")), l.encode(s("c"))];
    assert_eq!(ids, [0, 1, 2]);
}

#[test]
fn new_terms_get_ids_in_order_of_first_occurrence() {
    let mut e = EncoderUnit::new(SimpleLogic::new(0));
    e.encode_term(s("<p>")).unwrap();
    let parsed = vec![(s("<x>"), s("<p>"), s("<x>")), (s("<y>"), s("<p>"), s("<z>"))];
    assert_eq!(e.insert_from_parser_output(&parsed).unwrap(), vec![(1, 0, 1), (2, 0, 3)]);
    assert_eq!(e.remaining_ids(), u64::MAX - 4);
}
