//! The self-contained HTML report: every log of a session, compressed and encoded,
//! bundled into the viewer's page.
use crate::text::same_text;
use vstd::prelude::*;
use vstd::string::StringExecFns;
use flate2::write::GzEncoder;
use std::io::Write;
use base64::Engine;

verus! {

/// Why the HTML report could not be built.
#[derive(Debug)]
pub enum ExportError {
    /// The page lacks the place where the logs are to be bundled.
    InsertionPointMissing,
}

/// The gzip stream, at the best compression level, of some bytes.
pub uninterp spec fn gzip_best_of(data: Seq<u8>) -> Seq<u8>;

/// The standard base64 encoding, with padding, of some bytes.
pub uninterp spec fn base64_of(data: Seq<u8>) -> Seq<char>;

/// A string written as a JSON string literal, quotes and escapes included.
pub uninterp spec fn json_string_of(s: Seq<char>) -> Seq<char>;

/// `s` with every occurrence of the non-empty `from` replaced by `to`, occurrences
/// taken from left to right without overlap.
pub open spec fn replaced(s: Seq<char>, from: Seq<char>, to: Seq<char>) -> Seq<char>
    decreases s.len(),
{
    if from.len() == 0 || s.len() < from.len() {
        s
    } else if s.subrange(0, from.len() as int) == from {
        to + replaced(s.subrange(from.len() as int, s.len() as int), from, to)
    } else {
        seq![s[0]] + replaced(s.drop_first(), from, to)
    }
}

/// Relies on flate2's `GzEncoder` over a `Vec` at `Compression::best()`: writing into
/// memory cannot fail, and the stream depends on the bytes alone.
#[verifier::external_body]
fn gzip_best(data: &Vec<u8>) -> (r: Option<Vec<u8>>)
    ensures
        r is Some,
        r matches Some(z) ==> z@ == gzip_best_of(data@),
{
    let mut encoder = GzEncoder::new(Vec::new(), flate2::Compression::best());
    encoder.write_all(data).ok()?;
    encoder.finish().ok()
}

/// Relies on base64's `BASE64_STANDARD.encode`.
#[verifier::external_body]
fn base64_standard(data: &Vec<u8>) -> (r: String)
    ensures
        r@ == base64_of(data@),
{
    base64::prelude::BASE64_STANDARD.encode(data)
}

/// Relies on `serde_json::to_string` of a `str`: a JSON string literal, which a string
/// always has.
#[verifier::external_body]
fn json_string(s: &str) -> (r: Option<String>)
    ensures
        r is Some,
        r matches Some(q) ==> q@ == json_string_of(s@),
{
    serde_json::to_string(s).ok()
}

/// Whether `pattern` occurs in `s`.
pub open spec fn occurs_in(s: Seq<char>, pattern: Seq<char>) -> bool {
    exists|i: int| 0 <= i && i + pattern.len() <= s.len() && #[trigger] s.subrange(i, i + pattern.len()) == pattern
}

/// Relies on `str::contains` with a `&str` pattern.
#[verifier::external_body]
fn contains_text(s: &str, pattern: &str) -> (r: bool)
    ensures
        r == occurs_in(s@, pattern@),
{
    s.contains(pattern)
}

/// Relies on `str::replace` with a non-empty `&str` pattern.
#[verifier::external_body]
fn replace_text(s: &str, from: &str, to: &str) -> (r: String)
    requires
        from@.len() > 0,
    ensures
        r@ == replaced(s@, from@, to@),
{
    s.replace(from, to)
}

/// The place in the viewer's page where the bundled logs go.
pub const INSERTION_POINT: &'static str = "const BUNDLED_REPORTS = []";

/// What replaces the insertion point: the bundle assigned to the same constant.
pub open spec fn bundle_statement(bundle: Seq<char>) -> Seq<char> {
    "const BUNDLED_REPORTS = "@ + bundle + ";"@
}

/// One log as a JSON object, from its name and data already written as JSON strings.
pub open spec fn entry_json(name: Seq<char>, data: Seq<char>) -> Seq<char> {
    "{\"data\":"@ + data + ",\"name\":"@ + name + "}"@
}

/// The JSON objects of the logs, separated by commas.
pub open spec fn entries_json(entries: Seq<(String, String)>) -> Seq<char>
    decreases entries.len(),
{
    if entries.len() == 0 {
        Seq::empty()
    } else if entries.len() == 1 {
        entry_json(entries[0].0@, entries[0].1@)
    } else {
        entries_json(entries.drop_last()) + ","@ + entry_json(entries.last().0@, entries.last().1@)
    }
}

/// The JSON array of the logs.
pub open spec fn bundle_json(entries: Seq<(String, String)>) -> Seq<char> {
    "["@ + entries_json(entries) + "]"@
}

/// The JSON array that bundles the logs, each given by its name and its data, both
/// already written as JSON strings.
pub fn reports_json(entries: &Vec<(String, String)>) -> (r: String)
    ensures
        r@ == bundle_json(entries@),
{
    let mut body = String::new();
    let mut k: usize = 0;
    while k < entries.len()
        invariant
            k <= entries@.len(),
            body@ == entries_json(entries@.subrange(0, k as int)),
        decreases entries@.len() - k,
    {
        let ghost before = body@;
        let ghost prefix = entries@.subrange(0, k + 1);
        if k > 0 {
            body.append(",");
        }
        body.append("{\"data\":");
        body.append(entries[k].1.as_str());
        body.append(",\"name\":");
        body.append(entries[k].0.as_str());
        body.append("}");
        proof {
            reveal_strlit(",");
            assert(prefix.drop_last() =~= entries@.subrange(0, k as int));
            assert(prefix.last() == entries@[k as int]);
            if k > 0 {
                assert(body@ =~= before + ","@ + entry_json(entries@[k as int].0@, entries@[k as int].1@));
            } else {
                assert(before == Seq::<char>::empty());
                assert(body@ =~= entry_json(entries@[k as int].0@, entries@[k as int].1@));
            }
        }
        k = k + 1;
    }
    assert(entries@.subrange(0, k as int) =~= entries@);
    let mut out = String::new();
    out.append("[");
    out.append(body.as_str());
    out.append("]");
    assert(out@ =~= bundle_json(entries@));
    out
}

/// The page with the bundle in place of the insertion point; an error if the page has
/// no insertion point.
pub fn bundle_into_page(index_html: &str, bundle: &str) -> (r: Result<String, ExportError>)
    ensures
        !occurs_in(index_html@, INSERTION_POINT@) <==> r is Err,
        r is Err ==> r == Err::<String, ExportError>(ExportError::InsertionPointMissing),
        r matches Ok(page) ==> page@ == replaced(index_html@, INSERTION_POINT@, bundle_statement(bundle@)),
{
    if !contains_text(index_html, INSERTION_POINT) {
        return Err(ExportError::InsertionPointMissing);
    }
    let mut statement = String::new();
    statement.append("const BUNDLED_REPORTS = ");
    statement.append(bundle);
    statement.append(";");
    assert(statement@ =~= bundle_statement(bundle@));
    proof {
        reveal_strlit("const BUNDLED_REPORTS = []");
    }
    Ok(replace_text(index_html, INSERTION_POINT, statement.as_str()))
}

/// One log's name and data as JSON strings: the data compressed and base64-encoded.
pub open spec fn encoded_entry(name: Seq<char>, content: Seq<u8>) -> (Seq<char>, Seq<char>) {
    (json_string_of(name), json_string_of(base64_of(gzip_best_of(content))))
}

/// The viewer's page with every log of a session bundled in, each log given by its
/// file name and its bytes.
pub fn export_html(reports: &Vec<(String, Vec<u8>)>, index_html: &str) -> (r: Result<String, ExportError>)
    ensures
        !occurs_in(index_html@, INSERTION_POINT@) <==> r is Err,
        r is Err ==> r == Err::<String, ExportError>(ExportError::InsertionPointMissing),
        r matches Ok(page) ==> exists|entries: Seq<(String, String)>|
            #![trigger bundle_json(entries)]
            entries.len() == reports@.len() && (forall|k: int|
                0 <= k < entries.len() ==> (#[trigger] entries[k]).0@ == encoded_entry(reports@[k].0@, reports@[k].1@).0
                    && entries[k].1@ == encoded_entry(reports@[k].0@, reports@[k].1@).1)
                && page@ == replaced(index_html@, INSERTION_POINT@, bundle_statement(bundle_json(entries))),
{
    let mut entries: Vec<(String, String)> = Vec::new();
    let mut k: usize = 0;
    while k < reports.len()
        invariant
            k <= reports@.len(),
            entries@.len() == k,
            forall|m: int|
                0 <= m < k ==> (#[trigger] entries@[m]).0@ == encoded_entry(reports@[m].0@, reports@[m].1@).0
                    && entries@[m].1@ == encoded_entry(reports@[m].0@, reports@[m].1@).1,
        decreases reports@.len() - k,
    {
        let compressed = gzip_best(&reports[k].1).unwrap();
        let encoded = base64_standard(&compressed);
        let data = json_string(encoded.as_str()).unwrap();
        let name = json_string(reports[k].0.as_str()).unwrap();
        entries.push((name, data));
        k = k + 1;
    }
    let bundle = reports_json(&entries);
    let r = bundle_into_page(index_html, bundle.as_str());
    proof {
        if r is Ok {
            assert(bundle@ == bundle_json(entries@));
        }
    }
    r
}

} // verus!
