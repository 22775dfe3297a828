//! Extraction of text lengths from raw record lines, and the small
//! record-level decisions of the companion pipelines: which records to
//! keep, and which field of a record carries its text.
//!
//! A record line is one line of a file of JSON objects.  Parsing is the
//! work of an outside JSON library, reached through a trusted wrapper;
//! everything around the parse is verified.

use vstd::prelude::*;
use vstd::string::StrSliceExecFns;

verus! {

/// Records whose text, after trimming, exceeds this many characters are
/// dropped by the filtering pass.
pub const LENGTH_CUTOFF: usize = 1000;

/// Names the byte length of the string under the `"text"` key of the JSON
/// object a line parses to: absent when the line is not valid JSON or the
/// field is missing or not a string.  The result depends on the line's
/// characters alone.
pub uninterp spec fn text_len_of(line: Seq<char>) -> Option<usize>;

/// Relies on serde_json::from_str, serde_json::Value::get and
/// serde_json::Value::as_str: a line parses to at most one JSON value,
/// determined by its characters, whose `"text"` field, when it holds a
/// string, has one byte length.
#[verifier::external_body]
fn text_field_len(line: &str) -> (r: Option<usize>)
    ensures
        r == text_len_of(line@),
{
    match serde_json::from_str::<serde_json::Value>(line) {
        Ok(v) => match v.get("text") {
            Some(t) => t.as_str().map(|s| s.len()),
            None => None,
        },
        Err(_) => None,
    }
}

/// Names the result of removing leading and trailing whitespace, which
/// depends on the characters alone.
pub uninterp spec fn trim_of(s: Seq<char>) -> Seq<char>;

/// Relies on str::trim: it returns the slice with leading and trailing
/// whitespace removed, a function of the characters alone.
#[verifier::external_body]
fn trim_str(s: &str) -> (r: &str)
    ensures
        r@ == trim_of(s@),
{
    s.trim()
}

/// Relies on str's PartialEq::eq: two string slices compare equal exactly
/// when their character sequences are equal.
#[verifier::external_body]
fn str_eq(a: &str, b: &str) -> (r: bool)
    ensures
        r == (a@ == b@),
{
    a == b
}

/// The lengths extracted from a sequence of lines, in order: lines that
/// are blank after trimming are skipped, and so are lines without a text
/// field; every other line contributes the byte length of its text.
pub open spec fn lengths_of_lines_spec(lines: Seq<Seq<char>>) -> Seq<u64>
    decreases lines.len(),
{
    if lines.len() == 0 {
        Seq::empty()
    } else {
        let prefix = lengths_of_lines_spec(lines.drop_last());
        let t = trim_of(lines.last());
        if t.len() == 0 {
            prefix
        } else {
            match text_len_of(t) {
                Some(l) => prefix.push(l as u64),
                None => prefix,
            }
        }
    }
}

/// Extracts the text lengths of a file's lines: blank lines and lines
/// that do not parse to an object with a string `"text"` field are
/// silently skipped and contribute to no total.
pub fn lengths_from_lines(lines: &Vec<String>) -> (r: Vec<u64>)
    ensures
        r@ == lengths_of_lines_spec(lines@.map_values(|s: String| s@)),
{
    let ghost mapped = lines@.map_values(|s: String| s@);
    let mut out: Vec<u64> = Vec::new();
    let mut i: usize = 0;
    proof {
        assert(mapped.take(0) =~= Seq::<Seq<char>>::empty());
    }
    while i < lines.len()
        invariant
            0 <= i <= lines@.len(),
            mapped == lines@.map_values(|s: String| s@),
            out@ == lengths_of_lines_spec(mapped.take(i as int)),
        decreases lines@.len() - i,
    {
        proof {
            assert(mapped.take(i + 1).drop_last() =~= mapped.take(i as int));
            assert(mapped.take(i + 1).last() == lines@[i as int]@);
        }
        let line = &lines[i];
        let trimmed = trim_str(line.as_str());
        if trimmed.unicode_len() > 0 {
            match text_field_len(trimmed) {
                Some(l) => {
                    out.push(l as u64);
                },
                None => {},
            }
        }
        i += 1;
    }
    proof {
        assert(mapped.take(lines@.len() as int) =~= mapped);
    }
    out
}

/// Whether the filtering pass keeps a record: it keeps exactly the
/// records whose text, trimmed, has at most `LENGTH_CUTOFF` characters.
pub fn keep_text(text: &str) -> (r: bool)
    ensures
        r == (trim_of(text@).len() <= LENGTH_CUTOFF),
{
    let trimmed = trim_str(text);
    trimmed.unicode_len() <= LENGTH_CUTOFF
}

/// The text of a record for the binary conversion pipeline: the first
/// non-empty field among scenario, question and observation, with the
/// observation as the fallback.
pub open spec fn pick_text_spec(s: Seq<char>, q: Seq<char>, o: Seq<char>) -> Seq<char> {
    if s.len() > 0 {
        s
    } else if q.len() > 0 {
        q
    } else {
        o
    }
}

/// Chooses which field of a record carries its text.
pub fn pick_text(scenario: &str, question: &str, observation: &str) -> (r: String)
    ensures
        r@ == pick_text_spec(scenario@, question@, observation@),
{
    if !scenario.is_empty() {
        scenario.to_owned()
    } else if !question.is_empty() {
        question.to_owned()
    } else {
        observation.to_owned()
    }
}

/// The metadata keys the binary conversion pipeline carries over.
pub open spec fn is_meta_key_spec(k: Seq<char>) -> bool {
    ||| k == "rationale"@
    ||| k == "action"@
    ||| k == "answer"@
    ||| k == "input"@
    ||| k == "output"@
}

/// Whether an extra record field is carried into the binary metadata.
pub fn is_meta_key(key: &str) -> (r: bool)
    ensures
        r == is_meta_key_spec(key@),
{
    str_eq(key, "rationale") || str_eq(key, "action") || str_eq(key, "answer") || str_eq(
        key,
        "input",
    ) || str_eq(key, "output")
}

} // verus!
