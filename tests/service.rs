use reasoning_service::cli::{get_encoded_path_name, get_folder, get_folder_name, get_timely_args, parse_key_val, parse_mode, parse_type, Args, IncrementalMode, IncrementalType};
use reasoning_service::driver::partition_for_worker;
use reasoning_service::model::{load_data, load_lubm_data, parse_data_line, preprocess, Triple};
use reasoning_service::rules::{full_materialization, SchemaIds};

fn s(x: &str) -> String {
    x.to_string()
}

fn tr(a: &str, b: &str, c: &str) -> Triple {
    Triple { subject: s(a), predicate: s(b), object: s(c) }
}

fn key(t: &Triple) -> (String, String, String) {
    (t.subject.clone(), t.predicate.clone(), t.object.clone())
}

#[test]
fn modes_and_kinds() {
    assert_eq!(parse_mode("Insert").unwrap(), IncrementalMode::Addition);
    assert_eq!(parse_mode("d").unwrap(), IncrementalMode::Deletion);
    assert_eq!(parse_mode("DELETION").unwrap(), IncrementalMode::Deletion);
    let e = parse_mode("upsert").unwrap_err();
    assert_eq!(e.text(), "upsert is not a correct mode [insert / deletion].");
    assert_eq!(parse_type("T_Box").unwrap(), IncrementalType::TBox);
    assert_eq!(parse_type("abox").unwrap(), IncrementalType::ABox);
    assert!(parse_type("c").is_err());
    let m: IncrementalMode = "insertion".parse().unwrap();
    assert_eq!(m, IncrementalMode::Addition);
}

#[test]
fn update_specifications() {
    assert_eq!(parse_key_val("data/u1.nt=insertion_abox").unwrap(), (s("data/u1.nt"), IncrementalMode::Addition, IncrementalType::ABox));
    assert_eq!(parse_key_val("x=d_t_box").unwrap(), (s("x"), IncrementalMode::Deletion, IncrementalType::TBox));
    assert_eq!(parse_key_val("nothing").unwrap_err().text(), "Invalid Path=Mode-Type: no `=` found in `nothing`");
    assert_eq!(parse_key_val("a=b").unwrap_err().text(), "Invalid Path=Mode-Type: no `_` found in a=b");
    assert!(parse_key_val("a=bad_abox").is_err());
}

#[test]
fn timely_arguments() {
    let args = Args {
        workers: Some(4),
        number_of_processes: None,
        process_id: Some(0),
        hostfile: Some(s("hosts.txt")),
        t_box_path: s("t.nt"),
        a_box_path: s("a.nt"),
        output_folder: s("out"),
        incremental_file_paths: vec![],
    };
    assert_eq!(get_timely_args(&args), vec![s("useless"), s("-w"), s("4"), s("-h"), s("hosts.txt"), s("-p"), s("0")]);
}

#[test]
fn derived_paths() {
    assert_eq!(get_folder_name("univ.bench.nt"), Some(s("encoded_data/univ_encoding/")));
    assert_eq!(get_encoded_path_name("a_box.nt"), Some(s("encoded_data/a_box-encoded.ntenc")));
    assert_eq!(get_folder("update1.nt"), Some(s("update_stats/update1_stats/stats/")));
    assert_eq!(get_folder("noext"), None);
}

#[test]
fn data_lines_and_lubm_loading() {
    assert_eq!(parse_data_line("<a> <p> <b> .").map(|t| key(&t)), Some((s("<a>"), s("<p>"), s("<b>"))));
    assert!(parse_data_line("<a> <p>").is_none());
    let lines = vec![s("<a> <p> <b> ."), s("bad"), s("<c> <p> <d> ."), s("<e> <p> <f> .")];
    let w0: Vec<_> = load_data(&lines, 0, 2).iter().map(key).collect();
    assert_eq!(w0, vec![(s("<a>"), s("<p>"), s("<b>")), (s("<c>"), s("<p>"), s("<d>"))]);
    let t_box = vec![tr("A", "sco", "B"), tr("A", "sco", "A"), tr("A", "sco", "B")];
    let pre: Vec<_> = preprocess(t_box).iter().map(key).collect();
    assert_eq!(pre, vec![(s("A"), s("sco"), s("B"))]);
    let (t, a) = load_lubm_data(&lines, vec![tr("C", "spo", "D")], 1, 2);
    assert_eq!(t.iter().map(key).collect::<Vec<_>>(), vec![(s("C"), s("spo"), s("D"))]);
    assert_eq!(a.iter().map(key).collect::<Vec<_>>(), vec![(s("<e>"), s("<p>"), s("<f>"))]);
}

#[test]
fn workers_reproduce_single_worker_closure() {
    let kw = [0u64, 1, 2, 3, 4];
    let t_box = vec![(10u64, 0u64, 11u64), (30, 3, 40)];
    let a_box = vec![(20u64, 2u64, 10u64), (21, 30, 22), (23, 30, 24), (25, 2, 11)];
    let mut single = t_box.clone();
    single.extend(a_box.iter().cloned());
    let mut expected = full_materialization(&single, &kw);
    expected.sort();
    for peers in 1..5usize {
        let mut merged = Vec::new();
        for w in 0..peers {
            merged.extend(t_box.iter().cloned());
            merged.extend(partition_for_worker(&a_box, w, peers));
        }
        let mut got = full_materialization(&merged, &kw);
        got.sort();
        assert_eq!(got, expected);
    }
    assert_eq!(partition_for_worker(&a_box, 1, 3), vec![(21, 30, 22)]);
}

#[test]
fn schema_ids_from_array() {
    let k = SchemaIds::from_array(&[5, 6, 7, 8, 9]);
    assert_eq!((k.sco, k.spo, k.typ, k.dom, k.rng), (5, 6, 7, 8, 9));
}

#[test]
fn decimal_text_of_numbers() {
    assert_eq!(reasoning_service::cli::usize_text(0), "0");
    assert_eq!(reasoning_service::cli::usize_text(907), "907");
}
