//! What a caller can count on when tables are made, shown and sent. The laws speak
//! of what the functions were given and of what came back.

use bytes::Bytes;
use vstd::prelude::*;
use vstd::utf8::encode_utf8;

use crate::boundary_laws::{law_boundary_in_no_text, law_boundary_is_determined};
use crate::error::Error;
use crate::external_data::{
    breaks_header, build_multipart, invalid, is_blank, is_table_name, part_header, parts,
    pick_boundary, write_debug, ExternalTable, Multipart, TableView, DEFAULT_FORMAT,
};
use crate::interop::buffer::contents;
use crate::interop::search::occurs;
use crate::interop::string::{is_white_space, quoted};
use crate::layout::{
    boundary_text, contents_of, delimiter, header, is_boundary_for, is_first_free, is_free,
    law_frame_positions, texts, Part,
};
use crate::read_back::{read_body, sent_parts, FormPart};
use crate::settings::QUERY;
use crate::text::{decimal, digit, lemma_decimal_digits, lemma_encode_injective, to_decimal};

verus! {

/// White space is the blank, the five controls from tab to carriage return, and the
/// white space of Unicode beyond ASCII.
pub proof fn law_white_space(c: char)
    ensures
        is_white_space(c) <==> {
            let n = c as u32;
            ||| n == 0x09 || n == 0x0a || n == 0x0b || n == 0x0c || n == 0x0d || n == 0x20
            ||| n == 0x85 || n == 0xa0 || n == 0x1680 || 0x2000 <= n <= 0x200a
            ||| n == 0x2028 || n == 0x2029 || n == 0x202f || n == 0x205f || n == 0x3000
        },
{
}

/// A table is accepted exactly where its name is not empty and holds no double
/// quote, no carriage return and no line feed, and its structure holds a character
/// that is not white space. Nothing else about the name, the structure or the
/// payload matters.
pub proof fn law_table_is_accepted(
    name: String,
    data: Bytes,
    structure: String,
    outcome: Result<ExternalTable, Error>,
)
    requires
        call_ensures(ExternalTable::from_parts, (name, data, structure), outcome),
    ensures
        outcome is Ok <==> {
            &&& name@.len() > 0
            &&& forall|i: int|
                0 <= i < name@.len() ==> #[trigger] name@[i] != '\u{22}' && name@[i] != '\u{0d}'
                    && name@[i] != '\u{0a}'
            &&& exists|i: int|
                0 <= i < structure@.len() && !is_white_space(#[trigger] structure@[i])
        },
{
    lemma_usable(name@, structure@);
}

/// What makes a name and a structure usable, character by character.
proof fn lemma_usable(name: Seq<char>, structure: Seq<char>)
    ensures
        is_table_name(name) <==> {
            &&& name.len() > 0
            &&& forall|i: int|
                0 <= i < name.len() ==> #[trigger] name[i] != '\u{22}' && name[i] != '\u{0d}'
                    && name[i] != '\u{0a}'
        },
        name.len() > 0 && !is_table_name(name) ==> exists|i: int|
            0 <= i < name.len() && (#[trigger] name[i] == '\u{22}' || name[i] == '\u{0d}' || name[i]
                == '\u{0a}'),
        !is_blank(structure) <==> exists|i: int|
            0 <= i < structure.len() && !is_white_space(#[trigger] structure[i]),
{
    if is_table_name(name) {
        assert forall|i: int| 0 <= i < name.len() implies #[trigger] name[i] != '\u{22}' && name[i]
            != '\u{0d}' && name[i] != '\u{0a}' by {
            assert(!breaks_header(name[i]));
        }
    } else if name.len() > 0 {
        let i = choose|i: int| 0 <= i < name.len() && breaks_header(#[trigger] name[i]);
        assert(name[i] == '\u{22}' || name[i] == '\u{0d}' || name[i] == '\u{0a}');
    }
}

/// A table that is refused is refused for what is wrong with it. An empty name
/// comes first, then a character that a name must not hold, then a structure that
/// says nothing.
pub proof fn law_refusal_says_what_is_wrong(
    name: String,
    data: Bytes,
    structure: String,
    reason: String,
)
    requires
        call_ensures(
            ExternalTable::from_parts,
            (name, data, structure),
            Err(Error::InvalidParams(reason)),
        ),
    ensures
        ({
            let empty = name@.len() == 0;
            let breaking = exists|i: int|
                0 <= i < name@.len() && (#[trigger] name@[i] == '\u{22}' || name@[i] == '\u{0d}'
                    || name@[i] == '\u{0a}');
            let blank = forall|i: int|
                0 <= i < structure@.len() ==> is_white_space(#[trigger] structure@[i]);
            &&& empty ==> reason@ == "external table name must not be empty"@
            &&& breaking ==> reason@ == "external table name must not contain '\"', CR, or LF"@
            &&& !empty && !breaking ==> blank && reason@
                == "external table structure must not be empty"@
        }),
{
    lemma_usable(name@, structure@);
    if !is_table_name(name@) && name@.len() > 0 {
        assert(exists|i: int|
            0 <= i < name@.len() && (#[trigger] name@[i] == '\u{22}' || name@[i] == '\u{0d}'
                || name@[i] == '\u{0a}'));
    }
}

/// A new table tells the name and the structure that it was given, and holds the
/// payload. Its format is `TabSeparated`, whatever the rest is.
pub proof fn law_new_table_tells_what_it_was_given(
    name: String,
    data: Bytes,
    structure: String,
    table: ExternalTable,
    told_name: &str,
    told_structure: &str,
    told_format: &str,
)
    requires
        call_ensures(ExternalTable::from_parts, (name, data, structure), Ok(table)),
        call_ensures(ExternalTable::name, (&table,), told_name),
        call_ensures(ExternalTable::structure, (&table,), told_structure),
        call_ensures(ExternalTable::format_name, (&table,), told_format),
    ensures
        told_name@ == name@,
        told_structure@ == structure@,
        told_format@ == "TabSeparated"@,
        told_format@ == DEFAULT_FORMAT@,
        table@.format == "TabSeparated"@,
        table@.data == contents(data),
        table.payload() == data,
{
}

/// What holds of a table that is made out of its parts holds of one that is made
/// out of what converts into them: it is accepted for the same names and structures,
/// is refused for the same reasons, and then tells what it was given.
pub proof fn law_new_converts_and_makes<N: Into<String>, D: Into<Bytes>, S: Into<String>>(
    name: N,
    data: D,
    structure: S,
    outcome: Result<ExternalTable, Error>,
)
    requires
        call_ensures(ExternalTable::new::<N, D, S>, (name, data, structure), outcome),
    ensures
        exists|n: String, d: Bytes, s: String|
            {
                &&& #[trigger] call_ensures(<N as Into<String>>::into, (name,), n)
                &&& #[trigger] call_ensures(<D as Into<Bytes>>::into, (data,), d)
                &&& #[trigger] call_ensures(<S as Into<String>>::into, (structure,), s)
                &&& outcome is Ok <==> {
                    &&& n@.len() > 0
                    &&& forall|i: int|
                        0 <= i < n@.len() ==> #[trigger] n@[i] != '\u{22}' && n@[i] != '\u{0d}'
                            && n@[i] != '\u{0a}'
                    &&& exists|i: int| 0 <= i < s@.len() && !is_white_space(#[trigger] s@[i])
                }
                &&& outcome matches Ok(table) ==> {
                    &&& table@.name == n@
                    &&& table@.data == contents(d)
                    &&& table@.structure == s@
                    &&& table@.format == "TabSeparated"@
                    &&& table.payload() == d
                }
                &&& outcome matches Err(Error::InvalidParams(reason)) ==> {
                    ||| n@.len() == 0 && reason@ == "external table name must not be empty"@
                    ||| n@.len() > 0 && reason@
                        == "external table name must not contain '\"', CR, or LF"@ && exists|i: int|
                        0 <= i < n@.len() && (#[trigger] n@[i] == '\u{22}' || n@[i] == '\u{0d}'
                            || n@[i] == '\u{0a}')
                    ||| reason@ == "external table structure must not be empty"@ && forall|i: int|
                        0 <= i < s@.len() ==> is_white_space(#[trigger] s@[i])
                }
            },
{
    let (n, d, s) = choose|n: String, d: Bytes, s: String|
        {
            &&& #[trigger] call_ensures(<N as Into<String>>::into, (name,), n)
            &&& #[trigger] call_ensures(<D as Into<Bytes>>::into, (data,), d)
            &&& #[trigger] call_ensures(<S as Into<String>>::into, (structure,), s)
            &&& ExternalTable::made(n@, d, s@, outcome)
        };
    lemma_usable(n@, s@);
    assert(call_ensures(<N as Into<String>>::into, (name,), n));
    assert(call_ensures(<D as Into<Bytes>>::into, (data,), d));
    assert(call_ensures(<S as Into<String>>::into, (structure,), s));
}

/// Setting the format changes the format and nothing else.
pub proof fn law_format_changes_alone<F: Into<String>>(
    table: ExternalTable,
    format: F,
    changed: ExternalTable,
    told_name: &str,
    told_structure: &str,
    told_format: &str,
)
    requires
        call_ensures(ExternalTable::with_format::<F>, (table, format), changed),
        call_ensures(ExternalTable::name, (&changed,), told_name),
        call_ensures(ExternalTable::structure, (&changed,), told_structure),
        call_ensures(ExternalTable::format_name, (&changed,), told_format),
    ensures
        exists|f: String| #[trigger]
            call_ensures(<F as Into<String>>::into, (format,), f) && told_format@ == f@
                && changed@.format == f@,
        told_name@ == table@.name,
        told_structure@ == table@.structure,
        changed@.name == table@.name,
        changed@.structure == table@.structure,
        changed@.data == table@.data,
        changed.payload() == table.payload(),
{
    let f = choose|f: String| #[trigger]
        call_ensures(<F as Into<String>>::into, (format,), f) && changed@ == (TableView {
            format: f@,
            ..table@
        });
    assert(call_ensures(<F as Into<String>>::into, (format,), f));
}

/// A clone of a table is the same in everything that a table tells, and holds a
/// clone of its payload.
pub proof fn law_clone_tells_the_same(
    table: ExternalTable,
    copy: ExternalTable,
    told_name: &str,
    told_structure: &str,
    told_format: &str,
)
    requires
        call_ensures(<ExternalTable as Clone>::clone, (&table,), copy),
        call_ensures(ExternalTable::name, (&copy,), told_name),
        call_ensures(ExternalTable::structure, (&copy,), told_structure),
        call_ensures(ExternalTable::format_name, (&copy,), told_format),
    ensures
        told_name@ == table@.name,
        told_structure@ == table@.structure,
        told_format@ == table@.format,
        copy@.data == table@.data,
        cloned(table.payload(), copy.payload()),
{
}

/// The error that is made of a message carries that message.
pub proof fn law_invalid_carries_its_message(message: &'static str, error: Error)
    requires
        call_ensures(invalid, (message,), error),
    ensures
        error matches Error::InvalidParams(reason) && reason@ == message@,
{
}

/// Tables that tell the same name, structure and format are shown alike, whatever
/// their payloads are.
pub proof fn law_shown_alike(
    a: ExternalTable,
    b: ExternalTable,
    alternate: bool,
    shown_a: String,
    shown_b: String,
)
    requires
        call_ensures(ExternalTable::to_debug_string, (&a, alternate), shown_a),
        call_ensures(ExternalTable::to_debug_string, (&b, alternate), shown_b),
        a@.name == b@.name,
        a@.structure == b@.structure,
        a@.format == b@.format,
    ensures
        shown_a@ == shown_b@,
{
}

/// A table is shown as a struct of its name, its structure and its format, on one
/// line or with a line for each field.
pub proof fn law_shown_as_a_struct(
    table: ExternalTable,
    on_one_line: String,
    alternate: String,
)
    requires
        call_ensures(ExternalTable::to_debug_string, (&table, false), on_one_line),
        call_ensures(ExternalTable::to_debug_string, (&table, true), alternate),
    ensures
        on_one_line@ == "ExternalTable { name: "@ + quoted(table@.name) + ", structure: "@ + quoted(
            table@.structure,
        ) + ", format: "@ + quoted(table@.format) + ", .. }"@,
        alternate@ == "ExternalTable {\n    name: "@ + quoted(table@.name) + ",\n    structure: "@
            + quoted(table@.structure) + ",\n    format: "@ + quoted(table@.format)
            + ",\n    ..\n}"@,
{
}

/// The form of a table is made of those of its fields in the same way.
pub proof fn law_fields_shown_as_a_struct(
    name: &str,
    structure: &str,
    format: &str,
    on_one_line: String,
    alternate: String,
)
    requires
        call_ensures(write_debug, (name, structure, format, false), on_one_line),
        call_ensures(write_debug, (name, structure, format, true), alternate),
    ensures
        on_one_line@ == "ExternalTable { name: "@ + name@ + ", structure: "@ + structure@
            + ", format: "@ + format@ + ", .. }"@,
        alternate@ == "ExternalTable {\n    name: "@ + name@ + ",\n    structure: "@ + structure@
            + ",\n    format: "@ + format@ + ",\n    ..\n}"@,
{
}

/// The number that some digits stand for.
pub open spec fn number_of(digits: Seq<char>) -> nat
    decreases digits.len(),
{
    if digits.len() == 0 {
        0
    } else {
        (10 * number_of(digits.drop_last()) + (digits.last() as int - '0' as int)) as nat
    }
}

/// A number that was written in decimal reads as that number. It consists of digits
/// and has no leading zero.
pub proof fn law_decimal_reads_back(n: u128, text: String)
    requires
        call_ensures(to_decimal, (n,), text),
    ensures
        number_of(text@) == n,
        text@.len() > 0,
        text@.len() > 1 ==> text@[0] != '0',
        forall|i: int| 0 <= i < text@.len() ==> '0' <= #[trigger] text@[i] <= '9',
{
    lemma_decimal_value(n as nat);
    lemma_decimal_digits(n as nat);
}

/// The digits of a number stand for it, the first of them not for zero where there
/// are more.
pub proof fn lemma_decimal_value(n: nat)
    ensures
        number_of(decimal(n)) == n,
        decimal(n).len() > 1 ==> decimal(n)[0] != '0',
        n > 0 ==> decimal(n)[0] != '0',
    decreases n,
{
    lemma_decimal_digits(n);
    let s = decimal(n);
    if n < 10 {
        assert(s.drop_last() =~= Seq::empty());
        assert(number_of(s.drop_last()) == 0);
        assert(s.last() == digit(n));
    } else {
        lemma_decimal_value(n / 10);
        lemma_decimal_digits(n / 10);
        assert(s.drop_last() =~= decimal(n / 10));
        assert(s[0] == decimal(n / 10)[0]);
        assert(s.last() == digit(n % 10));
    }
}

/// The head of a part is the boundary with two dashes in front of it, a header line
/// with the name, and with the file name where there is one, and an empty line.
pub proof fn law_part_header_is_exact(
    boundary: &str,
    name: &str,
    filename: &str,
    field: String,
    file: String,
)
    requires
        call_ensures(part_header, (boundary, name, None::<&str>), field),
        call_ensures(part_header, (boundary, name, Some(filename)), file),
    ensures
        field@ == "--"@ + boundary@ + "\r\nContent-Disposition: form-data; name=\""@ + name@
            + "\"\r\n\r\n"@,
        file@ == "--"@ + boundary@ + "\r\nContent-Disposition: form-data; name=\""@ + name@
            + "\"; filename=\""@ + filename@ + "\"\r\n\r\n"@,
{
    lemma_header_text(boundary@, name@, None);
    lemma_header_text(boundary@, name@, Some(filename@));
}

/// The head of a part, with the literal texts drawn together.
proof fn lemma_header_text(boundary: Seq<char>, name: Seq<char>, filename: Option<Seq<char>>)
    ensures
        header(boundary, name, filename) == "--"@ + boundary
            + "\r\nContent-Disposition: form-data; name=\""@ + name + (match filename {
            Some(filename) => "\"; filename=\""@ + filename + "\"\r\n\r\n"@,
            None => "\"\r\n\r\n"@,
        }),
{
    reveal_strlit("\"");
    reveal_strlit("\r\n\r\n");
    reveal_strlit("\"\r\n\r\n");
    reveal_strlit("; filename=\"");
    reveal_strlit("\"; filename=\"");
    assert("\"\r\n\r\n"@ =~= "\""@ + "\r\n\r\n"@);
    assert("\"; filename=\""@ =~= "\""@ + "; filename=\""@);
    let front = "--"@ + boundary + "\r\nContent-Disposition: form-data; name=\""@ + name;
    let head = header(boundary, name, filename);
    match filename {
        Some(filename) => {
            assert(head =~= front + ("\"; filename=\""@ + filename + "\"\r\n\r\n"@));
        },
        None => {
            assert(head =~= front + "\"\r\n\r\n"@);
        },
    }
}

/// The delimiter of the boundary with number `n`, spelled out.
proof fn lemma_delimiter_text(n: nat)
    ensures
        boundary_text(n) == "clickhouse-rs-boundary-"@ + decimal(n),
        delimiter(boundary_text(n)) == encode_utf8("--clickhouse-rs-boundary-"@ + decimal(n)),
{
    reveal_strlit("--");
    reveal_strlit("clickhouse-rs-boundary-");
    reveal_strlit("--clickhouse-rs-boundary-");
    assert("--"@ + boundary_text(n) =~= "--clickhouse-rs-boundary-"@ + decimal(n));
}

/// The query and the payloads, as the tables themselves tell them.
proof fn lemma_texts_of(query: Seq<char>, tables: Seq<ExternalTable>)
    ensures
        texts(query, parts(tables)).len() == tables.len() + 1,
        texts(query, parts(tables))[0] == encode_utf8(query),
        forall|i: int|
            0 <= i < tables.len() ==> texts(query, parts(tables))[i + 1] == (
            #[trigger] tables[i])@.data,
        parts(tables).len() == tables.len(),
        forall|i: int|
            0 <= i < tables.len() ==> parts(tables)[i] == (Part {
                name: (#[trigger] tables[i])@.name,
                data: tables[i]@.data,
            }),
{
}

/// The boundary that is picked is the common beginning with the first number, counted
/// from zero, whose delimiter stands neither in the query nor in a payload: that of
/// every smaller number stands in one of them.
pub proof fn law_boundary_is_the_first_unused(
    query: &str,
    tables: &[ExternalTable],
    boundary: String,
)
    requires
        call_ensures(pick_boundary, (query, tables), boundary),
    ensures
        exists|n: nat|
            {
                &&& boundary@ == "clickhouse-rs-boundary-"@ + #[trigger] decimal(n)
                &&& !occurs(
                    encode_utf8(query@),
                    encode_utf8("--clickhouse-rs-boundary-"@ + decimal(n)),
                )
                &&& forall|i: int|
                    0 <= i < tables@.len() ==> !occurs(
                        (#[trigger] tables@[i])@.data,
                        encode_utf8("--clickhouse-rs-boundary-"@ + decimal(n)),
                    )
                &&& forall|k: nat|
                    k < n ==> {
                        let d = encode_utf8("--clickhouse-rs-boundary-"@ + #[trigger] decimal(k));
                        ||| occurs(encode_utf8(query@), d)
                        ||| exists|i: int|
                            0 <= i < tables@.len() && occurs((#[trigger] tables@[i])@.data, d)
                    }
            },
{
    lemma_first_unused(query@, tables@, boundary@);
}

/// What the choice of the boundary means for the query and the tables.
proof fn lemma_first_unused(query: Seq<char>, tables: Seq<ExternalTable>, boundary: Seq<char>)
    requires
        is_boundary_for(boundary, texts(query, parts(tables))),
    ensures
        exists|n: nat|
            {
                &&& boundary == "clickhouse-rs-boundary-"@ + #[trigger] decimal(n)
                &&& !occurs(
                    encode_utf8(query),
                    encode_utf8("--clickhouse-rs-boundary-"@ + decimal(n)),
                )
                &&& forall|i: int|
                    0 <= i < tables.len() ==> !occurs(
                        (#[trigger] tables[i])@.data,
                        encode_utf8("--clickhouse-rs-boundary-"@ + decimal(n)),
                    )
                &&& forall|k: nat|
                    k < n ==> {
                        let d = encode_utf8("--clickhouse-rs-boundary-"@ + #[trigger] decimal(k));
                        ||| occurs(encode_utf8(query), d)
                        ||| exists|i: int|
                            0 <= i < tables.len() && occurs((#[trigger] tables[i])@.data, d)
                    }
            },
{
    let all = texts(query, parts(tables));
    let n = choose|n: nat| #[trigger] is_first_free(n, all) && boundary == boundary_text(n);
    lemma_texts_of(query, tables);
    lemma_delimiter_text(n);
    law_boundary_in_no_text(boundary, all, 0);
    assert forall|i: int| 0 <= i < tables.len() implies !occurs(
        (#[trigger] tables[i])@.data,
        encode_utf8("--clickhouse-rs-boundary-"@ + decimal(n)),
    ) by {
        law_boundary_in_no_text(boundary, all, i + 1);
    }
    assert forall|k: nat| k < n implies {
        let d = encode_utf8("--clickhouse-rs-boundary-"@ + #[trigger] decimal(k));
        ||| occurs(encode_utf8(query), d)
        ||| exists|i: int| 0 <= i < tables.len() && occurs((#[trigger] tables[i])@.data, d)
    } by {
        lemma_delimiter_text(k);
        let d = delimiter(boundary_text(k));
        assert(!is_free(k, all));
        let j = choose|j: int| 0 <= j < all.len() && occurs(#[trigger] all[j], d);
        if j > 0 {
            assert(occurs(tables[j - 1]@.data, d));
        }
    }
    assert(boundary == "clickhouse-rs-boundary-"@ + decimal(n));
}

/// Each table arrives: the reader of a body finds the query as a field, and then for
/// each table, in the order of the tables, a file under that table's name with that
/// table's payload, and nothing else.
pub proof fn law_each_table_arrives(query: &str, tables: &[ExternalTable], multipart: Multipart)
    requires
        call_ensures(build_multipart, (query, tables), multipart),
    ensures
        ({
            let body = multipart.frames@.map_values(|b: Bytes| contents(b)).flatten();
            let found = read_body(body, multipart.boundary@);
            &&& found.len() == tables@.len() + 1
            &&& found[0] == (FormPart {
                name: encode_utf8("query"@),
                filename: None,
                data: encode_utf8(query@),
            })
            &&& forall|i: int|
                0 <= i < tables@.len() ==> found[i + 1] == (FormPart {
                    name: encode_utf8((#[trigger] tables@[i])@.name),
                    filename: Some(encode_utf8(tables@[i]@.name)),
                    data: tables@[i]@.data,
                })
        }),
{
    lemma_texts_of(query@, tables@);
    assert(multipart.frames@.map_values(|b: Bytes| contents(b)) =~= contents_of(multipart.frames@));
    let sent = sent_parts(query@, parts(tables@));
    assert forall|i: int| 0 <= i < tables@.len() implies sent[i + 1] == (FormPart {
        name: encode_utf8((#[trigger] tables@[i])@.name),
        filename: Some(encode_utf8(tables@[i]@.name)),
        data: tables@[i]@.data,
    }) by {
        assert(sent[i + 1].data == parts(tables@)[i].data);
    }
}

/// The frames of a body, one by one: the query part in one frame, then for each
/// table, in the order of the tables, the head with that table's name, that table's
/// payload alone, shared and not changed, and a line end, and last the closing
/// delimiter.
pub proof fn law_frames_are_exact(query: &str, tables: &[ExternalTable], multipart: Multipart)
    requires
        call_ensures(build_multipart, (query, tables), multipart),
    ensures
        ({
            let frames = multipart.frames@;
            let boundary = multipart.boundary@;
            &&& frames.len() == 3 * tables@.len() + 2
            &&& contents(frames[0]) == encode_utf8(
                "--"@ + boundary + "\r\nContent-Disposition: form-data; name=\"query\"\r\n\r\n"@
                    + query@ + "\r\n"@,
            )
            &&& forall|i: int|
                0 <= i < tables@.len() ==> {
                    let name = (#[trigger] tables@[i])@.name;
                    &&& contents(frames[3 * i + 1]) == encode_utf8(
                        "--"@ + boundary + "\r\nContent-Disposition: form-data; name=\""@ + name
                            + "\"; filename=\""@ + name + "\"\r\n\r\n"@,
                    )
                    &&& contents(frames[3 * i + 2]) == tables@[i]@.data
                    &&& cloned(tables@[i].payload(), frames[3 * i + 2])
                    &&& contents(frames[3 * i + 3]) == encode_utf8("\r\n"@)
                }
            &&& contents(frames[frames.len() - 1]) == encode_utf8(
                "--"@ + boundary + "--\r\n"@,
            )
        }),
{
    let frames = multipart.frames@;
    let boundary = multipart.boundary@;
    let shown = contents_of(frames);
    lemma_texts_of(query@, tables@);
    law_frame_positions(boundary, query@, parts(tables@));
    assert(shown.len() == frames.len());
    assert(contents(frames[0]) == shown[0]);
    assert(contents(frames[frames.len() - 1]) == shown.last());
    lemma_header_text(boundary, QUERY@, None);
    reveal_strlit("query");
    reveal_strlit("\r\nContent-Disposition: form-data; name=\"");
    reveal_strlit("\"\r\n\r\n");
    reveal_strlit("\r\nContent-Disposition: form-data; name=\"query\"\r\n\r\n");
    assert("\r\nContent-Disposition: form-data; name=\"query\"\r\n\r\n"@
        =~= "\r\nContent-Disposition: form-data; name=\""@ + "query"@ + "\"\r\n\r\n"@);
    assert(header(boundary, QUERY@, None) + query@ + "\r\n"@ =~= "--"@ + boundary
        + "\r\nContent-Disposition: form-data; name=\"query\"\r\n\r\n"@ + query@ + "\r\n"@);
    assert forall|i: int| 0 <= i < tables@.len() implies {
        let name = (#[trigger] tables@[i])@.name;
        &&& contents(frames[3 * i + 1]) == encode_utf8(
            "--"@ + boundary + "\r\nContent-Disposition: form-data; name=\""@ + name
                + "\"; filename=\""@ + name + "\"\r\n\r\n"@,
        )
        &&& contents(frames[3 * i + 2]) == tables@[i]@.data
        &&& cloned(tables@[i].payload(), frames[3 * i + 2])
        &&& contents(frames[3 * i + 3]) == encode_utf8("\r\n"@)
    } by {
        let name = tables@[i]@.name;
        let p = parts(tables@)[i];
        assert(p.name == name);
        lemma_header_text(boundary, name, Some(name));
        assert("--"@ + boundary + "\r\nContent-Disposition: form-data; name=\""@ + name
            + "\"; filename=\""@ + name + "\"\r\n\r\n"@ =~= header(
            boundary,
            name,
            Some(name),
        ));
        assert(contents(frames[3 * i + 1]) == shown[3 * i + 1]);
        assert(contents(frames[3 * i + 2]) == shown[3 * i + 2]);
        assert(contents(frames[3 * i + 3]) == shown[3 * i + 3]);
    }
}

/// A body is built with the boundary that is picked for its query and tables, whose
/// delimiter stands neither in the query nor in a payload.
pub proof fn law_body_has_the_picked_boundary(
    query: &str,
    tables: &[ExternalTable],
    multipart: Multipart,
    boundary: String,
)
    requires
        call_ensures(build_multipart, (query, tables), multipart),
        call_ensures(pick_boundary, (query, tables), boundary),
    ensures
        multipart.boundary@ == boundary@,
        !occurs(encode_utf8(query@), encode_utf8("--"@ + multipart.boundary@)),
        forall|i: int|
            0 <= i < tables@.len() ==> !occurs(
                (#[trigger] tables@[i])@.data,
                encode_utf8("--"@ + multipart.boundary@),
            ),
{
    let all = texts(query@, parts(tables@));
    lemma_texts_of(query@, tables@);
    law_boundary_is_determined(multipart.boundary@, boundary@, all);
    law_boundary_in_no_text(boundary@, all, 0);
    assert forall|i: int| 0 <= i < tables@.len() implies !occurs(
        (#[trigger] tables@[i])@.data,
        encode_utf8("--"@ + multipart.boundary@),
    ) by {
        law_boundary_in_no_text(boundary@, all, i + 1);
    }
}

/// A body depends on the query and on the names and payloads of the tables alone:
/// neither the structure nor the format of a table changes it.
pub proof fn law_body_shows_names_and_payloads_alone(
    query: &str,
    first: &[ExternalTable],
    second: &[ExternalTable],
    one: Multipart,
    other: Multipart,
)
    requires
        call_ensures(build_multipart, (query, first), one),
        call_ensures(build_multipart, (query, second), other),
        first@.len() == second@.len(),
        forall|i: int|
            0 <= i < first@.len() ==> (#[trigger] first@[i])@.name == second@[i]@.name
                && first@[i]@.data == second@[i]@.data,
    ensures
        one.boundary@ == other.boundary@,
        one.frames@.len() == other.frames@.len(),
        forall|j: int|
            0 <= j < one.frames@.len() ==> contents(#[trigger] one.frames@[j]) == contents(
                other.frames@[j],
            ),
{
    lemma_texts_of(query@, first@);
    lemma_texts_of(query@, second@);
    assert(parts(first@) =~= parts(second@));
    law_boundary_is_determined(
        one.boundary@,
        other.boundary@,
        texts(query@, parts(first@)),
    );
    assert(contents_of(one.frames@).len() == contents_of(other.frames@).len());
    assert forall|j: int| 0 <= j < one.frames@.len() implies contents(#[trigger] one.frames@[j])
        == contents(other.frames@[j]) by {
        assert(contents_of(one.frames@)[j] == contents_of(other.frames@)[j]);
    }
}

/// A body tells its tables apart: bodies with the same bytes and the same boundary
/// carry the same query, and as many tables, with the same names and the same
/// payloads in the same order.
pub proof fn law_body_determines_what_was_sent(
    query: &str,
    tables: &[ExternalTable],
    multipart: Multipart,
    other_query: &str,
    other_tables: &[ExternalTable],
    other: Multipart,
)
    requires
        call_ensures(build_multipart, (query, tables), multipart),
        call_ensures(build_multipart, (other_query, other_tables), other),
        multipart.boundary@ == other.boundary@,
        multipart.frames@.map_values(|b: Bytes| contents(b)).flatten() == other.frames@.map_values(
            |b: Bytes| contents(b),
        ).flatten(),
    ensures
        query@ == other_query@,
        tables@.len() == other_tables@.len(),
        forall|i: int|
            0 <= i < tables@.len() ==> (#[trigger] tables@[i])@.name == other_tables@[i]@.name
                && tables@[i]@.data == other_tables@[i]@.data,
{
    law_each_table_arrives(query, tables, multipart);
    law_each_table_arrives(other_query, other_tables, other);
    lemma_encode_injective(query@, other_query@);
    let body = multipart.frames@.map_values(|b: Bytes| contents(b)).flatten();
    let found = read_body(body, multipart.boundary@);
    assert forall|i: int| 0 <= i < tables@.len() implies (#[trigger] tables@[i])@.name
        == other_tables@[i]@.name && tables@[i]@.data == other_tables@[i]@.data by {
        assert(found[i + 1].name == encode_utf8(other_tables@[i]@.name));
        lemma_encode_injective(tables@[i]@.name, other_tables@[i]@.name);
    }
}

/// The content length is the number of bytes of all frames together.
pub proof fn law_content_length_counts_all_bytes(multipart: Multipart, length: usize)
    requires
        call_ensures(Multipart::content_length, (&multipart,), length),
    ensures
        length == multipart.frames@.map_values(|b: Bytes| contents(b)).flatten().len(),
{
    assert(multipart.frames@.map_values(|b: Bytes| contents(b)) =~= contents_of(multipart.frames@));
}

/// Whatever the name, the payload, the structure and the query are, a table can be
/// asked for, shown and sent: nothing but what [`law_table_is_accepted`] says is asked
/// of them.
pub proof fn law_every_input_is_taken(
    name: String,
    data: Bytes,
    structure: String,
    table: ExternalTable,
    alternate: bool,
    query: &str,
    tables: &[ExternalTable],
    boundary: &str,
    filename: Option<&str>,
    n: u128,
)
    ensures
        call_requires(ExternalTable::from_parts, (name, data, structure)),
        call_requires(ExternalTable::name, (&table,)),
        call_requires(ExternalTable::structure, (&table,)),
        call_requires(ExternalTable::format_name, (&table,)),
        call_requires(<ExternalTable as Clone>::clone, (&table,)),
        call_requires(ExternalTable::to_debug_string, (&table, alternate)),
        call_requires(pick_boundary, (query, tables)),
        call_requires(build_multipart, (query, tables)),
        call_requires(part_header, (boundary, query, filename)),
        call_requires(to_decimal, (n,)),
{
}

/// The content length can be asked for wherever a `usize` can count the bytes.
pub proof fn law_content_length_can_be_asked(multipart: Multipart)
    requires
        multipart.frames@.map_values(|b: Bytes| contents(b)).flatten().len() <= usize::MAX,
    ensures
        call_requires(Multipart::content_length, (&multipart,)),
{
    assert(multipart.frames@.map_values(|b: Bytes| contents(b)) =~= contents_of(multipart.frames@));
}

} // verus!
