//! The values of the command line: update specifications `path=mode_type`,
//! the run options, and the paths derived from input file names.
use vstd::prelude::*;
use crate::model::{first_of, find_char};
use crate::persist::decimal;

verus! {

broadcast use vstd::string::to_string_from_display_ensures_for_str;

/// Whether an update inserts or retracts its triples.
#[derive(Debug, Clone, Copy, PartialEq, Eq, Structural)]
pub enum IncrementalMode {
    Addition,
    Deletion,
}

/// Whether an update holds instance (a-box) or schema (t-box) triples.
#[derive(Debug, Clone, Copy, PartialEq, Eq, Structural)]
pub enum IncrementalType {
    ABox,
    TBox,
}

/// An update specification or mode that could not be read.
#[derive(Debug)]
pub struct ParseModeError {
    string: String,
}

impl ParseModeError {
    /// The message.
    pub closed spec fn message(&self) -> Seq<char> {
        self.string@
    }

    /// An error with the message `s`.
    pub fn from_message(s: String) -> (r: ParseModeError)
        ensures
            r.message() == s@,
    {
        ParseModeError { string: s }
    }

    /// The message.
    pub fn text(&self) -> (r: &String)
        ensures
            r@ == self.message(),
    {
        &self.string
    }
}

/// The run options.
#[derive(Debug)]
pub struct Args {
    pub workers: Option<usize>,
    pub number_of_processes: Option<usize>,
    pub process_id: Option<usize>,
    pub hostfile: Option<String>,
    pub t_box_path: String,
    pub a_box_path: String,
    pub output_folder: String,
    pub incremental_file_paths: Vec<(String, IncrementalMode, IncrementalType)>,
}

/// The lower-case form of a string.
pub uninterp spec fn lower_of(s: Seq<char>) -> Seq<char>;

/// Relies on `str::to_lowercase`: the result depends on the characters
/// alone.
#[verifier::external_body]
fn lowercase(s: &str) -> (r: String)
    ensures
        r@ == lower_of(s@),
{
    s.to_lowercase()
}

/// The character of the digit `d`.
fn digit_text(d: usize) -> (r: &'static str)
    requires
        d < 10,
    ensures
        r@ == seq![(48 + d) as u8 as char],
{
    if d == 0 {
        proof {
            reveal_strlit("0");
        }
        "0"
    } else if d == 1 {
        proof {
            reveal_strlit("1");
        }
        "1"
    } else if d == 2 {
        proof {
            reveal_strlit("2");
        }
        "2"
    } else if d == 3 {
        proof {
            reveal_strlit("3");
        }
        "3"
    } else if d == 4 {
        proof {
            reveal_strlit("4");
        }
        "4"
    } else if d == 5 {
        proof {
            reveal_strlit("5");
        }
        "5"
    } else if d == 6 {
        proof {
            reveal_strlit("6");
        }
        "6"
    } else if d == 7 {
        proof {
            reveal_strlit("7");
        }
        "7"
    } else if d == 8 {
        proof {
            reveal_strlit("8");
        }
        "8"
    } else {
        proof {
            reveal_strlit("9");
        }
        "9"
    }
}

/// Appends the decimal digits of `n` to `out`.
fn push_decimal_text(n: usize, out: &mut String)
    ensures
        final(out)@ == old(out)@ + decimal(n as nat).map_values(|b: u8| b as char),
    decreases n,
{
    if n >= 10 {
        push_decimal_text(n / 10, out);
    }
    out.append(digit_text(n % 10));
    assert(out@ =~= old(out)@ + decimal(n as nat).map_values(|b: u8| b as char));
}

/// The decimal digits of `n`.
pub fn usize_text(n: usize) -> (r: String)
    ensures
        r@ == decimal(n as nat).map_values(|b: u8| b as char),
{
    let mut r = String::new();
    push_decimal_text(n, &mut r);
    assert(r@ =~= decimal(n as nat).map_values(|b: u8| b as char));
    r
}

/// Whether `a` and `b` hold the same characters.
pub fn str_equal(a: &str, b: &str) -> (r: bool)
    ensures
        r == (a@ == b@),
{
    let n = a.unicode_len();
    if n != b.unicode_len() {
        return false;
    }
    let mut i: usize = 0;
    while i < n
        invariant
            n == a@.len() == b@.len(),
            i <= n,
            forall|k: int| 0 <= k < i ==> a@[k] == b@[k],
        decreases n - i,
    {
        if a.get_char(i) != b.get_char(i) {
            return false;
        }
        i = i + 1;
    }
    assert(a@ =~= b@);
    true
}

/// The mode that a lower-case word names.
pub open spec fn mode_of(lc: Seq<char>) -> Option<IncrementalMode> {
    if lc == "i"@ || lc == "insert"@ || lc == "insertion"@ {
        Some(IncrementalMode::Addition)
    } else if lc == "d"@ || lc == "delete"@ || lc == "deletion"@ {
        Some(IncrementalMode::Deletion)
    } else {
        None
    }
}

/// The kind that a lower-case word names.
pub open spec fn type_of(lc: Seq<char>) -> Option<IncrementalType> {
    if lc == "t"@ || lc == "t_box"@ || lc == "tbox"@ {
        Some(IncrementalType::TBox)
    } else if lc == "a"@ || lc == "a_box"@ || lc == "abox"@ {
        Some(IncrementalType::ABox)
    } else {
        None
    }
}

/// The message for a word `s` that names no mode or kind.
pub open spec fn bad_mode_message(s: Seq<char>) -> Seq<char> {
    s + " is not a correct mode [insert / deletion]."@
}

fn bad_mode(s: &str) -> (r: ParseModeError)
    ensures
        r.message() == bad_mode_message(s@),
{
    let mut m = s.to_string();
    m.append(" is not a correct mode [insert / deletion].");
    ParseModeError::from_message(m)
}

/// The mode named by the lower-case word `lc`; the error message quotes
/// `word`.
pub fn mode_from_lowercase(lc: &str, word: &str) -> (r: Result<IncrementalMode, ParseModeError>)
    ensures
        match r {
            Ok(m) => mode_of(lc@) == Some(m),
            Err(e) => mode_of(lc@) is None && e.message() == bad_mode_message(word@),
        },
{
    if str_equal(lc, "i") || str_equal(lc, "insert") || str_equal(lc, "insertion") {
        Ok(IncrementalMode::Addition)
    } else if str_equal(lc, "d") || str_equal(lc, "delete") || str_equal(lc, "deletion") {
        Ok(IncrementalMode::Deletion)
    } else {
        Err(bad_mode(word))
    }
}

/// The kind named by the lower-case word `lc`; the error message quotes
/// `word`.
pub fn type_from_lowercase(lc: &str, word: &str) -> (r: Result<IncrementalType, ParseModeError>)
    ensures
        match r {
            Ok(t) => type_of(lc@) == Some(t),
            Err(e) => type_of(lc@) is None && e.message() == bad_mode_message(word@),
        },
{
    if str_equal(lc, "t") || str_equal(lc, "t_box") || str_equal(lc, "tbox") {
        Ok(IncrementalType::TBox)
    } else if str_equal(lc, "a") || str_equal(lc, "a_box") || str_equal(lc, "abox") {
        Ok(IncrementalType::ABox)
    } else {
        Err(bad_mode(word))
    }
}

/// The mode named by `s`, in any case.
pub fn parse_mode(s: &str) -> (r: Result<IncrementalMode, ParseModeError>)
    ensures
        match r {
            Ok(m) => mode_of(lower_of(s@)) == Some(m),
            Err(e) => mode_of(lower_of(s@)) is None && e.message() == bad_mode_message(s@),
        },
{
    let lc = lowercase(s);
    mode_from_lowercase(lc.as_str(), s)
}

/// The kind named by `s`, in any case.
pub fn parse_type(s: &str) -> (r: Result<IncrementalType, ParseModeError>)
    ensures
        match r {
            Ok(t) => type_of(lower_of(s@)) == Some(t),
            Err(e) => type_of(lower_of(s@)) is None && e.message() == bad_mode_message(s@),
        },
{
    let lc = lowercase(s);
    type_from_lowercase(lc.as_str(), s)
}

impl std::str::FromStr for IncrementalMode {
    type Err = ParseModeError;

    fn from_str(s: &str) -> Result<IncrementalMode, ParseModeError> {
        parse_mode(s)
    }
}

impl std::str::FromStr for IncrementalType {
    type Err = ParseModeError;

    fn from_str(s: &str) -> Result<IncrementalType, ParseModeError> {
        parse_type(s)
    }
}

/// The three parts of `path=mode_kind`: the path up to the first `=`, the
/// mode up to the first `_` after it, and the kind after that `_`.
pub open spec fn key_val_parts(s: Seq<char>) -> Option<(Seq<char>, Seq<char>, Seq<char>)> {
    let pos = first_of(s, '=', 0);
    let us = first_of(s, '_', pos + 1);
    if pos < s.len() && us < s.len() {
        Some((s.subrange(0, pos), s.subrange(pos + 1, us), s.subrange(us + 1, s.len() as int)))
    } else {
        None
    }
}

/// Reads an update specification `path=mode_kind`.
pub fn parse_key_val(s: &str) -> (r: Result<(String, IncrementalMode, IncrementalType), ParseModeError>)
    ensures
        match r {
            Ok((p, m, t)) => key_val_parts(s@) matches Some(parts) && p@ == parts.0 && mode_of(
                lower_of(parts.1),
            ) == Some(m) && type_of(lower_of(parts.2)) == Some(t),
            Err(_) => key_val_parts(s@) is None || mode_of(lower_of(key_val_parts(s@)->Some_0.1))
                is None || type_of(lower_of(key_val_parts(s@)->Some_0.2)) is None,
        },
{
    let n = s.unicode_len();
    let pos = find_char(s, '=', 0);
    if pos >= n {
        let mut m = "Invalid Path=Mode-Type: no `=` found in `".to_string();
        m.append(s);
        m.append("`");
        return Err(ParseModeError::from_message(m));
    }
    let us = find_char(s, '_', pos + 1);
    if us >= n {
        let mut m = "Invalid Path=Mode-Type: no `_` found in ".to_string();
        m.append(s);
        return Err(ParseModeError::from_message(m));
    }
    let path = s.substring_char(0, pos).to_string();
    let mode = parse_mode(s.substring_char(pos + 1, us))?;
    let kind = parse_type(s.substring_char(us + 1, n))?;
    Ok((path, mode, kind))
}

/// The arguments handed to the dataflow runtime: a program name, then
/// `-w`, `-n`, `-h` and `-p` with their values for the options given.
pub open spec fn timely_args_of(args: Args) -> Seq<Seq<char>> {
    seq!["useless"@] + (match args.workers {
        Some(w) => seq!["-w"@, decimal(w as nat).map_values(|b: u8| b as char)],
        None => Seq::empty(),
    }) + (match args.number_of_processes {
        Some(n) => seq!["-n"@, decimal(n as nat).map_values(|b: u8| b as char)],
        None => Seq::empty(),
    }) + (match args.hostfile {
        Some(h) => seq!["-h"@, h@],
        None => Seq::empty(),
    }) + (match args.process_id {
        Some(p) => seq!["-p"@, decimal(p as nat).map_values(|b: u8| b as char)],
        None => Seq::empty(),
    })
}

/// The arguments handed to the dataflow runtime for `args`.
pub fn get_timely_args(args: &Args) -> (r: Vec<String>)
    ensures
        r@.map_values(|s: String| s@) == timely_args_of(*args),
{
    let mut result: Vec<String> = Vec::new();
    result.push("useless".to_string());
    let ghost g0 = result@.map_values(|s: String| s@);
    assert(g0 =~= seq!["useless"@]);
    if let Some(w) = args.workers {
        result.push("-w".to_string());
        result.push(usize_text(w));
    }
    let ghost g1 = result@.map_values(|s: String| s@);
    assert(g1 =~= seq!["useless"@] + (match args.workers {
        Some(w) => seq!["-w"@, decimal(w as nat).map_values(|b: u8| b as char)],
        None => Seq::empty(),
    }));
    if let Some(n) = args.number_of_processes {
        result.push("-n".to_string());
        result.push(usize_text(n));
    }
    let ghost g2 = result@.map_values(|s: String| s@);
    assert(g2 =~= g1 + (match args.number_of_processes {
        Some(n) => seq!["-n"@, decimal(n as nat).map_values(|b: u8| b as char)],
        None => Seq::empty(),
    }));
    if let Some(h) = &args.hostfile {
        result.push("-h".to_string());
        result.push(h.clone());
    }
    let ghost g3 = result@.map_values(|s: String| s@);
    assert(g3 =~= g2 + (match args.hostfile {
        Some(h) => seq!["-h"@, h@],
        None => Seq::empty(),
    }));
    if let Some(p) = args.process_id {
        result.push("-p".to_string());
        result.push(usize_text(p));
    }
    let ghost g4 = result@.map_values(|s: String| s@);
    assert(g4 =~= g3 + (match args.process_id {
        Some(p) => seq!["-p"@, decimal(p as nat).map_values(|b: u8| b as char)],
        None => Seq::empty(),
    }));
    result
}

/// The part of a file name before its first `.`, when it has one.
pub open spec fn stem_of(name: Seq<char>) -> Option<Seq<char>> {
    let dot = first_of(name, '.', 0);
    if dot < name.len() {
        Some(name.subrange(0, dot))
    } else {
        None
    }
}

fn stem(file_name: &str) -> (r: Option<&str>)
    ensures
        match r {
            Some(s) => stem_of(file_name@) == Some(s@),
            None => stem_of(file_name@) is None,
        },
{
    let dot = find_char(file_name, '.', 0);
    if dot >= file_name.unicode_len() {
        None
    } else {
        Some(file_name.substring_char(0, dot))
    }
}

/// `prefix + stem + suffix` for the stem of `file_name`.
fn around_stem(prefix: &str, file_name: &str, suffix: &str) -> (r: Option<String>)
    ensures
        match r {
            Some(s) => stem_of(file_name@) matches Some(st) && s@ == prefix@ + st + suffix@,
            None => stem_of(file_name@) is None,
        },
{
    match stem(file_name) {
        Some(st) => {
            let mut r = prefix.to_string();
            r.append(st);
            r.append(suffix);
            Some(r)
        },
        None => None,
    }
}

/// The folder, relative to the input file's folder, that holds the
/// encoding statistics of `file_name`: `encoded_data/<stem>_encoding/`.
pub fn get_folder_name(file_name: &str) -> (r: Option<String>)
    ensures
        match r {
            Some(s) => stem_of(file_name@) matches Some(st) && s@ == "encoded_data/"@ + st
                + "_encoding/"@,
            None => stem_of(file_name@) is None,
        },
{
    around_stem("encoded_data/", file_name, "_encoding/")
}

/// The path, relative to the input file's folder, of the encoded form of
/// `file_name`: `encoded_data/<stem>-encoded.ntenc`.
pub fn get_encoded_path_name(file_name: &str) -> (r: Option<String>)
    ensures
        match r {
            Some(s) => stem_of(file_name@) matches Some(st) && s@ == "encoded_data/"@ + st
                + "-encoded.ntenc"@,
            None => stem_of(file_name@) is None,
        },
{
    around_stem("encoded_data/", file_name, "-encoded.ntenc")
}

/// The folder, relative to the output folder, that holds the statistics of
/// the update read from `file_name`: `update_stats/<stem>_stats/stats/`.
pub fn get_folder(file_name: &str) -> (r: Option<String>)
    ensures
        match r {
            Some(s) => stem_of(file_name@) matches Some(st) && s@ == "update_stats/"@ + st
                + "_stats/stats/"@,
            None => stem_of(file_name@) is None,
        },
{
    around_stem("update_stats/", file_name, "_stats/stats/")
}

/// Times of one run of a worker, in milliseconds.
#[derive(Debug, Clone, Copy)]
pub struct Statistics {
    /// Time to load the input.
    pub load_time: u128,
    /// Time to materialize.
    pub mat_time: u128,
    /// Time to save the result.
    pub save_persistent_time: u128,
}

} // verus!
