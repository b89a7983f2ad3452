//! Calls into outside crates, each behind a contract stated over named results.
use vstd::prelude::*;

verus! {

/// The text of the first capture group of the leftmost match of `pattern` in `text`,
/// or nothing when the pattern does not compile, does not match, or the group is unset.
pub uninterp spec fn first_group_of(pattern: Seq<char>, text: Seq<char>) -> Option<Seq<char>>;

/// A field needs quotes when it holds the delimiter, the quote or a line break.
pub open spec fn needs_quotes(f: Seq<char>) -> bool {
    exists|i: int| 0 <= i < f.len() && (f[i] == ',' || f[i] == '"' || f[i] == '\r' || f[i] == '\n')
}

/// The field with every quote doubled.
pub open spec fn double_quotes(f: Seq<char>) -> Seq<char>
    decreases f.len(),
{
    if f.len() == 0 {
        f
    } else if f.last() == '"' {
        double_quotes(f.drop_last()) + seq!['"', '"']
    } else {
        double_quotes(f.drop_last()).push(f.last())
    }
}

/// One field as a CSV writer with default settings renders it.
pub open spec fn csv_field(f: Seq<char>) -> Seq<char> {
    if needs_quotes(f) {
        seq!['"'] + double_quotes(f) + seq!['"']
    } else {
        f
    }
}

/// The fields rendered and joined with commas.
pub open spec fn csv_fields(fields: Seq<Seq<char>>) -> Seq<char>
    decreases fields.len(),
{
    if fields.len() == 0 {
        Seq::empty()
    } else if fields.len() == 1 {
        csv_field(fields[0])
    } else {
        csv_fields(fields.drop_last()) + seq![','] + csv_field(fields.last())
    }
}

/// One CSV record with its `\n` terminator, as a CSV writer with default settings writes
/// it; a record of no bytes is written as an empty quoted field.
pub open spec fn csv_record_of(fields: Seq<Seq<char>>) -> Seq<char> {
    if fields.len() == 0 || (fields.len() == 1 && fields[0].len() == 0) {
        seq!['"', '"', '\n']
    } else {
        csv_fields(fields) + seq!['\n']
    }
}

/// Whether the text is accepted as an Itanium C++ mangled name.
pub uninterp spec fn is_mangled_cpp(name: Seq<char>) -> bool;

/// The rows `(name, vm size, file size)` that a CSV reader with a header line
/// deserializes from the text, or nothing when some row is malformed.
pub uninterp spec fn size_rows_of(text: Seq<char>) -> Option<Seq<(Seq<char>, u64, u64)>>;

pub open spec fn opt_view(o: Option<String>) -> Option<Seq<char>> {
    match o {
        Some(s) => Some(s@),
        None => None,
    }
}

pub open spec fn fields_view(fields: Seq<String>) -> Seq<Seq<char>> {
    fields.map_values(|f: String| f@)
}

pub open spec fn rows_view(rows: Seq<(String, u64, u64)>) -> Seq<(Seq<char>, u64, u64)> {
    rows.map_values(|r: (String, u64, u64)| (r.0@, r.1, r.2))
}

/// Relies on `regex::Regex::new` and `regex::Regex::captures`: the first group of the
/// leftmost match.
#[verifier::external_body]
pub fn first_group(pattern: &str, text: &str) -> (r: Option<String>)
    ensures
        opt_view(r) == first_group_of(pattern@, text@),
{
    match regex::Regex::new(pattern) {
        Ok(re) => re.captures(text).and_then(|c| c.get(1)).map(|m| m.as_str().to_string()),
        Err(_) => None,
    }
}

/// Relies on `csv::Writer::write_record` into an in-memory buffer, default settings: fields
/// joined with commas, quoted (inner quotes doubled) when they hold a comma, a quote, CR or
/// LF, then `\n`; a record with no bytes is written as `""`.
#[verifier::external_body]
pub fn csv_record(fields: &Vec<String>) -> (r: String)
    ensures
        r@ == csv_record_of(fields_view(fields@)),
{
    let mut w = csv::Writer::from_writer(Vec::new());
    let _ = w.write_record(fields);
    match w.into_inner() {
        Ok(bytes) => String::from_utf8(bytes).unwrap_or_default(),
        Err(_) => String::new(),
    }
}

/// Relies on `cpp_demangle::Symbol::new`: whether the name parses as a mangled C++ symbol.
#[verifier::external_body]
pub fn demangles(name: &str) -> (r: bool)
    ensures
        r == is_mangled_cpp(name@),
{
    cpp_demangle::Symbol::new(name).is_ok()
}

/// Relies on `csv::Reader::deserialize` over a text with a header line: every row as
/// `(String, u64, u64)`, or nothing when one fails.
#[verifier::external_body]
pub fn size_rows(text: &str) -> (r: Option<Vec<(String, u64, u64)>>)
    ensures
        match r {
            Some(v) => size_rows_of(text@) == Some(rows_view(v@)),
            None => size_rows_of(text@) is None,
        },
{
    let mut rdr = csv::ReaderBuilder::new().has_headers(true).from_reader(text.as_bytes());
    rdr.deserialize::<(String, u64, u64)>().collect::<Result<Vec<_>, _>>().ok()
}

} // verus!
