//! External data: temporary tables that travel with a query.
//!
//! A temporary table is materialized once per request, unlike a `WITH`
//! subquery, which the server scans again for every reference.

use bytes::Bytes;
use core::ops::Deref;
use vstd::prelude::*;
use vstd::utf8::encode_utf8;

use crate::boundary_laws::law_some_boundary_is_free;
use crate::error::Error;
use crate::interop::buffer::contents;
use crate::interop::search::{find, occurs};
use crate::interop::string::{is_white_space, quote, quoted, trims_to};
use crate::layout::{
    body_frames, contents_of, crlf, header, is_boundary_for, is_first_free, is_free,
    joined, lemma_joined_len_le, lemma_joined_take, query_frame, table_frames, texts, Part,
};
use crate::read_back::{law_body_reads_back, read_body, sent_parts};
use crate::settings::QUERY;
use crate::text::to_decimal;

verus! {

/// The format that the server assumes where no `<name>_format` is given.
pub const DEFAULT_FORMAT: &'static str = "TabSeparated";

/// What an [`ExternalTable`] says.
pub ghost struct TableView {
    pub name: Seq<char>,
    pub data: Seq<u8>,
    pub structure: Seq<char>,
    pub format: Seq<char>,
}

/// The characters that would break the header line in which a name stands.
pub open spec fn breaks_header(c: char) -> bool {
    c == '"' || c == '\r' || c == '\n'
}

/// `name` can name a table.
pub open spec fn is_table_name(name: Seq<char>) -> bool {
    &&& name.len() > 0
    &&& forall|i: int| 0 <= i < name.len() ==> !breaks_header(#[trigger] name[i])
}

/// `text` holds nothing but white space.
pub open spec fn is_blank(text: Seq<char>) -> bool {
    forall|i: int| 0 <= i < text.len() ==> is_white_space(#[trigger] text[i])
}

/// Why a table with this name and structure is refused, if it is.
pub open spec fn refusal(name: Seq<char>, structure: Seq<char>) -> Option<Seq<char>> {
    if name.len() == 0 {
        Some("external table name must not be empty"@)
    } else if !is_table_name(name) {
        Some("external table name must not contain '\"', CR, or LF"@)
    } else if is_blank(structure) {
        Some("external table structure must not be empty"@)
    } else {
        None
    }
}

/// One external (temporary) table sent with a query.
///
/// The data must already be encoded in the chosen format. The `structure`
/// names the columns and their types, e.g. `"id UInt64, name String"`. The
/// server does not infer it.
#[must_use]
pub struct ExternalTable {
    name: String,
    data: Bytes,
    structure: String,
    format: String,
}

impl View for ExternalTable {
    type V = TableView;

    closed spec fn view(&self) -> TableView {
        TableView {
            name: self.name@,
            data: contents(self.data),
            structure: self.structure@,
            format: self.format@,
        }
    }
}

impl ExternalTable {
    /// The name can stand in a header line, and the structure says something.
    pub open spec fn well_formed(self) -> bool {
        is_table_name(self@.name) && !is_blank(self@.structure)
    }

    #[verifier::type_invariant]
    spec fn type_inv(self) -> bool {
        self.well_formed()
    }

    /// The handle on the payload.
    pub closed spec fn payload(self) -> Bytes {
        self.data
    }

    /// The name and the payload, as the body shows them.
    pub open spec fn part(self) -> Part {
        Part { name: self@.name, data: self@.data }
    }

    /// What comes of making a table out of these parts.
    pub open spec fn made(
        name: Seq<char>,
        data: Bytes,
        structure: Seq<char>,
        outcome: Result<ExternalTable, Error>,
    ) -> bool {
        match outcome {
            Ok(table) => {
                &&& refusal(name, structure) is None
                &&& table.payload() == data
                &&& table@ == (TableView {
                    name,
                    data: contents(data),
                    structure,
                    format: DEFAULT_FORMAT@,
                })
            },
            Err(Error::InvalidParams(reason)) => refusal(name, structure) == Some(reason@),
        }
    }

    /// Creates a table named `name`, holding pre-formatted `data`, with the
    /// given `structure` (`"col Type, col Type, ..."`).
    ///
    /// The format defaults to `TabSeparated`. Override it with
    /// [`Self::with_format`].
    pub fn new<N: Into<String>, D: Into<Bytes>, S: Into<String>>(
        name: N,
        data: D,
        structure: S,
    ) -> (outcome: Result<Self, Error>)
        ensures
            exists|n: String, d: Bytes, s: String|
                {
                    &&& #[trigger] call_ensures(<N as Into<String>>::into, (name,), n)
                    &&& #[trigger] call_ensures(<D as Into<Bytes>>::into, (data,), d)
                    &&& #[trigger] call_ensures(<S as Into<String>>::into, (structure,), s)
                    &&& Self::made(n@, d, s@, outcome)
                },
    {
        let name = name.into();
        let data = data.into();
        let structure = structure.into();
        Self::from_parts(name, data, structure)
    }

    /// Creates a table as [`Self::new`] does, out of values that need no
    /// conversion.
    pub fn from_parts(name: String, data: Bytes, structure: String) -> (outcome: Result<
        Self,
        Error,
    >)
        ensures
            Self::made(name@, data, structure@, outcome),
    {
        if name.as_str().is_empty() {
            return Err(invalid("external table name must not be empty"));
        }
        // The name lands in a `Content-Disposition` header, so it must not carry a
        // quote or newline.
        if has_header_breaker(name.as_str()) {
            return Err(invalid("external table name must not contain '\"', CR, or LF"));
        }
        // An empty structure would make the server reject the request anyway.
        let trimmed = structure.as_str().trim();
        proof {
            lemma_trims_to_empty(structure@, trimmed@);
        }
        if trimmed.is_empty() {
            return Err(invalid("external table structure must not be empty"));
        }
        Ok(Self { name, data, structure, format: DEFAULT_FORMAT.to_owned() })
    }

    /// Sets the format that the `data` is encoded in (default `TabSeparated`).
    pub fn with_format<F: Into<String>>(self, format: F) -> (table: Self)
        ensures
            exists|f: String| #[trigger]
                call_ensures(<F as Into<String>>::into, (format,), f) && table@ == (TableView {
                    format: f@,
                    ..self@
                }),
            table.payload() == self.payload(),
    {
        let mut table = self;
        proof {
            use_type_invariant(&table);
        }
        table.format = format.into();
        table
    }

    /// The table name, as referenced in the query.
    pub fn name(&self) -> (name: &str)
        ensures
            name@ == self@.name,
            is_table_name(name@),
    {
        proof {
            use_type_invariant(self);
        }
        self.name.as_str()
    }

    /// The table structure, as a comma-separated list of `col Type` pairs.
    pub fn structure(&self) -> (structure: &str)
        ensures
            structure@ == self@.structure,
            !is_blank(structure@),
    {
        proof {
            use_type_invariant(self);
        }
        self.structure.as_str()
    }

    /// The format that `data` is encoded in.
    pub fn format_name(&self) -> (format: &str)
        ensures
            format@ == self@.format,
    {
        self.format.as_str()
    }

    /// The table in the `Debug` form of a struct, without its payload: on one
    /// line, as `{:?}` shows it, or in the alternate form with a line for each
    /// field, as `{:#?}` does.
    pub fn to_debug_string(&self, alternate: bool) -> (text: String)
        ensures
            text@ == shown(self@, alternate),
    {
        let name = quote(self.name.as_str());
        let structure = quote(self.structure.as_str());
        let format = quote(self.format.as_str());
        write_debug(name.as_str(), structure.as_str(), format.as_str(), alternate)
    }
}

impl Clone for ExternalTable {
    fn clone(&self) -> (copy: Self)
        ensures
            copy@ == self@,
            cloned(self.payload(), copy.payload()),
    {
        proof {
            use_type_invariant(self);
        }
        ExternalTable {
            name: self.name.clone(),
            data: self.data.clone(),
            structure: self.structure.clone(),
            format: self.format.clone(),
        }
    }
}

/// The `Debug` form of a table, out of those of its fields.
pub open spec fn debug_text(
    name: Seq<char>,
    structure: Seq<char>,
    format: Seq<char>,
    alternate: bool,
) -> Seq<char> {
    if alternate {
        "ExternalTable {\n    name: "@ + name + ",\n    structure: "@ + structure
            + ",\n    format: "@ + format + ",\n    ..\n}"@
    } else {
        "ExternalTable { name: "@ + name + ", structure: "@ + structure + ", format: "@ + format
            + ", .. }"@
    }
}

/// The `Debug` form of what a table says.
pub open spec fn shown(table: TableView, alternate: bool) -> Seq<char> {
    debug_text(quoted(table.name), quoted(table.structure), quoted(table.format), alternate)
}

/// Writes the `Debug` form of a table, out of those of its fields.
pub fn write_debug(name: &str, structure: &str, format: &str, alternate: bool) -> (text: String)
    ensures
        text@ == debug_text(name@, structure@, format@, alternate),
{
    if alternate {
        let mut text: String = "ExternalTable {\n    name: ".to_owned();
        text.append(name);
        text.append(",\n    structure: ");
        text.append(structure);
        text.append(",\n    format: ");
        text.append(format);
        text.append(",\n    ..\n}");
        text
    } else {
        let mut text: String = "ExternalTable { name: ".to_owned();
        text.append(name);
        text.append(", structure: ");
        text.append(structure);
        text.append(", format: ");
        text.append(format);
        text.append(", .. }");
        text
    }
}

/// The `Debug` form of a table tells nothing of its payload: tables that differ in
/// nothing else look the same, on one line and in the alternate form.
pub proof fn law_debug_hides_payload(table: TableView, data: Seq<u8>, alternate: bool)
    ensures
        shown((TableView { data, ..table }), alternate) == shown(table, alternate),
{
}

/// Trimming leaves nothing exactly where there is nothing but white space.
proof fn lemma_trims_to_empty(text: Seq<char>, trimmed: Seq<char>)
    requires
        trims_to(text, trimmed),
    ensures
        trimmed.len() == 0 <==> is_blank(text),
{
    let (i, j) = choose|i: int, j: int|
        {
            &&& 0 <= i <= j <= text.len()
            &&& trimmed == #[trigger] text.subrange(i, j)
            &&& forall|k: int|
                0 <= k < i || j <= k < text.len() ==> is_white_space(#[trigger] text[k])
            &&& i < j ==> !is_white_space(text[i]) && !is_white_space(text[j - 1])
        };
    assert(trimmed.len() == j - i);
    if i < j {
        assert(!is_white_space(text[i]));
    }
}

/// Tells whether a character of `name` would break the header line.
fn has_header_breaker(name: &str) -> (found: bool)
    ensures
        found == exists|i: int| 0 <= i < name@.len() && breaks_header(#[trigger] name@[i]),
{
    for c in it: name.chars()
        invariant
            it.seq() == name@,
            forall|i: int| 0 <= i < it.index() ==> !breaks_header(#[trigger] name@[i]),
    {
        if c == '"' || c == '\r' || c == '\n' {
            assert(breaks_header(name@[it.index() as int]));
            return true;
        }
    }
    false
}

/// The error for a parameter that is not acceptable.
pub fn invalid(msg: &'static str) -> (error: Error)
    ensures
        error matches Error::InvalidParams(reason) && reason@ == msg@,
{
    Error::InvalidParams(String::from(msg))
}

/// A `multipart/form-data` body as an ordered list of frames, with the boundary
/// chosen for it. Framing bytes are small frames of their own. Each payload is
/// chained in as its table's own [`Bytes`].
#[derive(Debug)]
pub struct Multipart {
    pub boundary: String,
    pub frames: Vec<Bytes>,
}

impl Multipart {
    /// Exact body size, for the `Content-Length` header.
    pub fn content_length(&self) -> (n: usize)
        requires
            joined(self.frames@).len() <= usize::MAX,
        ensures
            n == joined(self.frames@).len(),
    {
        let mut n: usize = 0;
        let mut i: usize = 0;
        proof {
            lemma_joined_take(self.frames@, 0);
        }
        while i < self.frames.len()
            invariant
                joined(self.frames@).len() <= usize::MAX,
                i <= self.frames@.len(),
                n == joined(self.frames@.take(i as int)).len(),
            decreases self.frames@.len() - i,
        {
            proof {
                lemma_joined_take(self.frames@, i as int);
                lemma_joined_len_le(self.frames@, i + 1);
            }
            n = n + self.frames[i].len();
            i = i + 1;
        }
        assert(self.frames@.take(i as int) =~= self.frames@);
        n
    }
}

/// The external tables, as the body shows them.
pub open spec fn parts(tables: Seq<ExternalTable>) -> Seq<Part> {
    tables.map_values(|t: ExternalTable| t.part())
}

/// Writes the head of a part.
pub fn part_header(boundary: &str, name: &str, filename: Option<&str>) -> (head: String)
    ensures
        head@ == header(
            boundary@,
            name@,
            match filename {
                Some(filename) => Some(filename@),
                None => None,
            },
        ),
{
    let mut head: String = "--".to_owned();
    head.append(boundary);
    head.append("\r\nContent-Disposition: form-data; name=\"");
    head.append(name);
    head.append("\"");
    if let Some(filename) = filename {
        head.append("; filename=\"");
        head.append(filename);
        head.append("\"");
    }
    head.append("\r\n\r\n");
    assert(head@ =~= header(
        boundary@,
        name@,
        match filename {
            Some(filename) => Some(filename@),
            None => None,
        },
    ));
    head
}

/// Tells whether the query or a payload holds `delim`.
fn occurs_in_parts(delim: &str, query: &str, tables: &[ExternalTable]) -> (found: bool)
    ensures
        found == exists|j: int|
            0 <= j < texts(query@, parts(tables@)).len() && occurs(
                #[trigger] texts(query@, parts(tables@))[j],
                encode_utf8(delim@),
            ),
        forall|j: int|
            0 <= j < texts(query@, parts(tables@)).len() ==> (#[trigger] texts(
                query@,
                parts(tables@),
            )[j]).len() <= usize::MAX,
{
    let ghost all = texts(query@, parts(tables@));
    let ghost needle = encode_utf8(delim@);
    let text = query.as_bytes();
    let mut found = find(text, delim.as_bytes()).is_some();
    assert(all[0] == text@ && text@.len() == text.len());
    let mut i: usize = 0;
    while i < tables.len()
        invariant
            i <= tables.len(),
            all == texts(query@, parts(tables@)),
            needle == encode_utf8(delim@),
            found == exists|j: int| 0 <= j <= i && occurs(#[trigger] all[j], needle),
            forall|j: int| 0 <= j <= i ==> (#[trigger] all[j]).len() <= usize::MAX,
        decreases tables.len() - i,
    {
        let payload: &[u8] = tables[i].data.deref();
        assert(all[i + 1] == payload@ && payload@.len() == payload.len());
        found = found || find(payload, delim.as_bytes()).is_some();
        i = i + 1;
    }
    found
}

/// Picks a boundary that appears in none of the texts, so that no payload can
/// be mistaken for a delimiter. A distinctive prefix makes the first candidate
/// succeed in practice. The counter guarantees termination.
pub fn pick_boundary(query: &str, tables: &[ExternalTable]) -> (boundary: String)
    ensures
        is_boundary_for(boundary@, texts(query@, parts(tables@))),
{
    let ghost all = texts(query@, parts(tables@));
    // Wide enough to count past every delimiter that fits into memory.
    let mut n: u128 = 0;
    loop
        invariant
            all == texts(query@, parts(tables@)),
            forall|k: nat| k < n ==> !#[trigger] is_free(k, all),
        decreases u128::MAX - n,
    {
        let mut candidate: String = "clickhouse-rs-boundary-".to_owned();
        candidate.append(to_decimal(n).as_str());
        let mut delim: String = "--".to_owned();
        delim.append(candidate.as_str());
        if !occurs_in_parts(delim.as_str(), query, tables) {
            assert(is_first_free(n as nat, all));
            return candidate;
        }
        proof {
            assert(!is_free(n as nat, all));
            law_some_boundary_is_free(all);
            assert(all.len() == tables.len() + 1);
            lemma_total_is_countable(all);
        }
        n = n + 1;
    }
}

/// A 128-bit number counts the bytes of all the texts in memory.
proof fn lemma_total_is_countable(all: Seq<Seq<u8>>)
    requires
        all.len() <= usize::MAX + 1,
        forall|j: int| 0 <= j < all.len() ==> (#[trigger] all[j]).len() <= usize::MAX,
    ensures
        all.flatten().len() < u128::MAX,
{
    let count = all.len() as int;
    let size = usize::MAX as int;
    all.lemma_flatten_length_le_mul(size);
    all.lemma_flatten_and_flatten_alt_are_equivalent();
    assert(count * size < u128::MAX) by (nonlinear_arith)
        requires
            0 <= count <= size + 1,
            size <= u64::MAX,
    ;
}

/// Builds the request body for a query that carries external data. The SQL
/// becomes a `query` form field, followed by one file part per table.
///
/// `structure` and `format` are not encoded here. They travel as URL query
/// parameters (`<name>_structure`, `<name>_format`).
///
/// The frame of a payload is a clone of the table's own handle, which is what
/// keeps the payload from being copied.
pub fn build_multipart(query: &str, tables: &[ExternalTable]) -> (multipart: Multipart)
    ensures
        is_boundary_for(multipart.boundary@, texts(query@, parts(tables@))),
        contents_of(multipart.frames@) == body_frames(
            multipart.boundary@,
            query@,
            parts(tables@),
        ),
        forall|i: int|
            0 <= i < tables@.len() ==> cloned(
                (#[trigger] tables@[i]).payload(),
                multipart.frames@[3 * i + 2],
            ),
        forall|i: int| 0 <= i < tables@.len() ==> (#[trigger] tables@[i]).well_formed(),
        read_body(joined(multipart.frames@), multipart.boundary@) == sent_parts(
            query@,
            parts(tables@),
        ),
{
    let boundary = pick_boundary(query, tables);

    // The query is a form field (no filename). Each table is a file part. The
    // server only routes parts that carry a `filename` to the external tables. The
    // value is ignored, presence is not.
    let mut frames: Vec<Bytes> = Vec::new();
    // The query is small, so its header, body and trailing CRLF fold into one
    // owned frame. Only the table payloads are worth not copying.
    let mut first = part_header(boundary.as_str(), QUERY, None);
    first.append(query);
    first.append("\r\n");
    frames.push(Bytes::from(first));
    let ghost head = seq![query_frame(boundary@, query@)];
    assert(contents_of(frames@) =~= head + table_frames(boundary@, parts(tables@).take(0)));
    let mut i: usize = 0;
    while i < tables.len()
        invariant
            i <= tables.len(),
            head == seq![query_frame(boundary@, query@)],
            frames@.len() == 3 * i + 1,
            contents_of(frames@) == head + table_frames(boundary@, parts(tables@).take(i as int)),
            forall|k: int|
                0 <= k < i ==> cloned((#[trigger] tables@[k]).payload(), frames@[3 * k + 2]),
            forall|k: int| 0 <= k < i ==> (#[trigger] tables@[k]).well_formed(),
        decreases tables.len() - i,
    {
        let table = &tables[i];
        proof {
            use_type_invariant(table);
        }
        let ghost before = frames@;
        frames.push(
            Bytes::from(part_header(boundary.as_str(), table.name(), Some(table.name()))),
        );
        frames.push(table.data.clone());  // shares the buffer, not a copy
        frames.push(Bytes::from("\r\n"));
        proof {
            let done = parts(tables@).take(i + 1);
            assert(done.drop_last() =~= parts(tables@).take(i as int));
            assert(done.last() == table.part());
            assert(contents_of(frames@) =~= contents_of(before).push(
                encode_utf8(header(boundary@, table@.name, Some(table@.name))),
            ).push(table@.data).push(crlf()));
            assert(contents_of(frames@) =~= head + table_frames(boundary@, done));
        }
        i = i + 1;
    }
    let mut last: String = "--".to_owned();
    last.append(boundary.as_str());
    last.append("--\r\n");
    frames.push(Bytes::from(last));
    proof {
        assert(parts(tables@).take(i as int) =~= parts(tables@));
        assert(contents_of(frames@) =~= body_frames(boundary@, query@, parts(tables@)));
        assert forall|k: int| 0 <= k < parts(tables@).len() implies is_table_name(
            (#[trigger] parts(tables@)[k]).name,
        ) by {
            assert(tables@[k].well_formed());
        }
        law_body_reads_back(boundary@, query@, parts(tables@));
    }
    Multipart { boundary, frames }
}

} // verus!
