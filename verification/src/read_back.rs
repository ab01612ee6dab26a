//! What a reader of a multipart body finds in it.

use vstd::prelude::*;
use vstd::utf8::{encode_utf8, is_ascii_chars, is_ascii_chars_encode_utf8};

use crate::boundary_laws::{law_boundary_in_no_text, lemma_delimiter, prefix};
use crate::external_data::{breaks_header, is_table_name};
use crate::interop::search::{occurs, occurs_at, occurs_first_at};
use crate::layout::{
    body_frames, boundary_text, closing_frame, crlf, delimiter, header, is_boundary_for,
    is_first_free, query_frame, table_frames, texts, Part,
};
use crate::settings::QUERY;
use crate::text::{decimal, lemma_decimal_digits, lemma_encode_absent, lemma_encode_concat};

verus! {

/// Where `needle` first stands in `text`.
pub open spec fn first_position(text: Seq<u8>, needle: Seq<u8>) -> int {
    choose|i: int| occurs_first_at(text, needle, i)
}

/// The pieces of `text` between the occurrences of `separator`, found from left
/// to right.
pub open spec fn split(text: Seq<u8>, separator: Seq<u8>) -> Seq<Seq<u8>>
    decreases text.len(),
{
    if separator.len() > 0 && exists|i: int| occurs_first_at(text, separator, i) {
        let i = first_position(text, separator);
        seq![text.take(i)] + split(text.skip(i + separator.len()), separator)
    } else {
        seq![text]
    }
}

/// A part of a form, as its reader sees it.
pub ghost struct FormPart {
    pub name: Seq<u8>,
    pub filename: Option<Seq<u8>>,
    pub data: Seq<u8>,
}

/// What the header line of a part begins with.
pub open spec fn line_start() -> Seq<u8> {
    encode_utf8("Content-Disposition: form-data; name=\""@)
}

/// What stands between the name and the file name.
pub open spec fn filename_start() -> Seq<u8> {
    encode_utf8("; filename=\""@)
}

/// The closing quote of a name.
pub open spec fn quote_mark() -> Seq<u8> {
    encode_utf8("\""@)
}

/// The end of the header line and the empty line behind it.
pub open spec fn head_end() -> Seq<u8> {
    encode_utf8("\r\n\r\n"@)
}

/// Reads what stands between two delimiters: a line end, the header line, an
/// empty line, and then the data. The name goes up to the next quote, and what
/// is left of the line, if anything, is the file name.
pub open spec fn read_part(piece: Seq<u8>) -> FormPart {
    let end = first_position(piece, head_end());
    let line = piece.subrange(crlf().len() as int, end);
    let field = line.skip(line_start().len() as int);
    let close = first_position(field, quote_mark());
    let rest = field.skip(close + 1);
    FormPart {
        name: field.take(close),
        filename: if rest.len() == 0 {
            None
        } else {
            Some(rest.subrange(filename_start().len() as int, rest.len() - 1))
        },
        data: piece.skip(end + head_end().len()),
    }
}

/// The body cut at its delimiters. A delimiter stands at the start of a line,
/// and the body starts a line.
pub open spec fn pieces(body: Seq<u8>, boundary: Seq<char>) -> Seq<Seq<u8>> {
    split(crlf() + body, crlf() + delimiter(boundary))
}

/// The parts that a reader finds in a body: what stands between each delimiter
/// and the next.
pub open spec fn read_body(body: Seq<u8>, boundary: Seq<char>) -> Seq<FormPart> {
    let all = pieces(body, boundary);
    all.subrange(1, all.len() - 1).map_values(|piece: Seq<u8>| read_part(piece))
}

/// The parts that were to be sent: the query as a field, and each table as a
/// file.
pub open spec fn sent_parts(query: Seq<char>, tables: Seq<Part>) -> Seq<FormPart> {
    seq![
        FormPart { name: encode_utf8(QUERY@), filename: None, data: encode_utf8(query) },
    ] + tables.map_values(
        |t: Part|
            FormPart {
                name: encode_utf8(t.name),
                filename: Some(encode_utf8(t.name)),
                data: t.data,
            },
    )
}

/// The header line of a part.
pub open spec fn line(name: Seq<char>, filename: Option<Seq<char>>) -> Seq<u8> {
    line_start() + encode_utf8(name) + quote_mark() + (match filename {
        Some(filename) => filename_start() + encode_utf8(filename) + quote_mark(),
        None => Seq::empty(),
    })
}

/// A part, from behind its delimiter to the line end in front of the next.
pub open spec fn piece(name: Seq<char>, filename: Option<Seq<char>>, data: Seq<u8>) -> Seq<u8> {
    crlf() + line(name, filename) + head_end() + data
}

/// The pieces of the tables.
spec fn table_pieces(tables: Seq<Part>) -> Seq<Seq<u8>> {
    tables.map_values(|t: Part| piece(t.name, Some(t.name), t.data))
}

/// What stands behind the last delimiter.
spec fn closing_mark() -> Seq<u8> {
    encode_utf8("--\r\n"@)
}

/// All pieces of a body, from in front of the first delimiter to behind the
/// last.
spec fn all_pieces(query: Seq<char>, tables: Seq<Part>) -> Seq<Seq<u8>> {
    seq![Seq::<u8>::empty(), piece(QUERY@, None, encode_utf8(query))] + table_pieces(tables)
        + seq![closing_mark()]
}

/// Some pieces with a separator between each and the next.
spec fn join(pieces: Seq<Seq<u8>>, separator: Seq<u8>) -> Seq<u8>
    decreases pieces.len(),
{
    if pieces.len() == 0 {
        Seq::empty()
    } else if pieces.len() == 1 {
        pieces[0]
    } else {
        join(pieces.drop_last(), separator) + separator + pieces.last()
    }
}

/// Joined pieces, seen from the first one.
proof fn lemma_join_first(pieces: Seq<Seq<u8>>, separator: Seq<u8>)
    requires
        pieces.len() > 1,
    ensures
        join(pieces, separator) == pieces[0] + separator + join(pieces.drop_first(), separator),
    decreases pieces.len(),
{
    let rest = pieces.drop_first();
    if pieces.len() == 2 {
        assert(join(pieces.drop_last(), separator) == pieces[0]);
    } else {
        lemma_join_first(pieces.drop_last(), separator);
        assert(pieces.drop_last().drop_first() =~= rest.drop_last());
        assert(join(pieces, separator) =~= pieces[0] + separator + (join(
            rest.drop_last(),
            separator,
        ) + separator + rest.last()));
    }
}

/// There is one first position.
proof fn lemma_first_position(text: Seq<u8>, needle: Seq<u8>, i: int)
    requires
        occurs_first_at(text, needle, i),
    ensures
        first_position(text, needle) == i,
{
    let k = first_position(text, needle);
    assert(occurs_first_at(text, needle, k));
    if k < i {
        assert(!occurs_at(text, needle, k));
    } else if i < k {
        assert(!occurs_at(text, needle, i));
    }
}

/// Where `needle` stands, each of its bytes does.
proof fn lemma_occurs_bytes(text: Seq<u8>, needle: Seq<u8>, at: int, k: int)
    requires
        occurs_at(text, needle, at),
        0 <= k < needle.len(),
    ensures
        text[at + k] == needle[k],
{
    assert(text.subrange(at, at + needle.len())[k] == needle[k]);
}

/// A piece and the separator behind it: the separator stands there, and not
/// before.
spec fn ends_at_separator(piece: Seq<u8>, separator: Seq<u8>) -> bool {
    occurs_first_at(piece + separator, separator, piece.len() as int)
}

/// A piece that does not hold the separator ends at it, where the separator cannot
/// overlap itself.
proof fn lemma_ends_without_overlap(piece: Seq<u8>, separator: Seq<u8>)
    requires
        separator.len() > 0,
        forall|k: int| 0 < k < separator.len() ==> #[trigger] separator[k] != separator[0],
        !occurs(piece, separator),
    ensures
        ends_at_separator(piece, separator),
{
    let text = piece + separator;
    let at = piece.len() as int;
    assert(text.subrange(at, at + separator.len()) =~= separator);
    assert forall|k: int| k < at implies !occurs_at(text, separator, k) by {
        if occurs_at(text, separator, k) {
            if k + separator.len() <= at {
                assert(piece.subrange(k, k + separator.len()) =~= text.subrange(
                    k,
                    k + separator.len(),
                ));
                assert(occurs_at(piece, separator, k));
            } else {
                lemma_occurs_bytes(text, separator, k, at - k);
                assert(text[at] == separator[0]);
            }
        }
    }
}

/// A piece that does not hold the separator ends at it, where the last byte of the
/// piece is none of the separator's.
proof fn lemma_ends_behind_other_byte(piece: Seq<u8>, separator: Seq<u8>)
    requires
        separator.len() > 0,
        piece.len() > 0 ==> forall|k: int|
            0 <= k < separator.len() ==> #[trigger] separator[k] != piece.last(),
        !occurs(piece, separator),
    ensures
        ends_at_separator(piece, separator),
{
    let text = piece + separator;
    let at = piece.len() as int;
    assert(text.subrange(at, at + separator.len()) =~= separator);
    assert forall|k: int| k < at implies !occurs_at(text, separator, k) by {
        if occurs_at(text, separator, k) {
            if k + separator.len() <= at {
                assert(piece.subrange(k, k + separator.len()) =~= text.subrange(
                    k,
                    k + separator.len(),
                ));
                assert(occurs_at(piece, separator, k));
            } else {
                lemma_occurs_bytes(text, separator, k, at - 1 - k);
                assert(text[at - 1] == piece.last());
            }
        }
    }
}

/// Cutting joined pieces gives them back, where each ends at the separator behind
/// it and the last one holds no separator.
proof fn lemma_split_join(pieces: Seq<Seq<u8>>, separator: Seq<u8>)
    requires
        pieces.len() > 0,
        separator.len() > 0,
        forall|j: int|
            0 <= j < pieces.len() - 1 ==> ends_at_separator(#[trigger] pieces[j], separator),
        !occurs(pieces.last(), separator),
    ensures
        split(join(pieces, separator), separator) == pieces,
    decreases pieces.len(),
{
    let text = join(pieces, separator);
    if pieces.len() == 1 {
        assert forall|i: int| !occurs_first_at(text, separator, i) by {
            if occurs_first_at(text, separator, i) {
                assert(occurs_at(text, separator, i));
            }
        }
        assert(split(text, separator) =~= pieces);
    } else {
        lemma_join_first(pieces, separator);
        let first = pieces[0];
        let rest = join(pieces.drop_first(), separator);
        let at = first.len() as int;
        assert(ends_at_separator(pieces[0], separator));
        assert(text.subrange(at, at + separator.len()) =~= separator);
        assert forall|k: int| k < at implies !occurs_at(text, separator, k) by {
            if occurs_at(text, separator, k) {
                assert((first + separator).subrange(k, k + separator.len()) =~= text.subrange(
                    k,
                    k + separator.len(),
                ));
                assert(occurs_at(first + separator, separator, k));
            }
        }
        assert(occurs_first_at(text, separator, at));
        lemma_first_position(text, separator, at);
        assert(text.take(at) =~= first);
        assert(text.skip(at + separator.len()) =~= rest);
        assert forall|j: int| 0 <= j < pieces.drop_first().len() - 1 implies ends_at_separator(
            #[trigger] pieces.drop_first()[j],
            separator,
        ) by {
            assert(pieces.drop_first()[j] == pieces[j + 1]);
        }
        lemma_split_join(pieces.drop_first(), separator);
        assert(split(text, separator) =~= seq![first] + pieces.drop_first());
        assert(seq![first] + pieces.drop_first() =~= pieces);
    }
}

/// The bytes of the short texts that the framing is made of.
proof fn lemma_framing_bytes()
    ensures
        crlf() == seq![0x0du8, 0x0a],
        head_end() == seq![0x0du8, 0x0a, 0x0d, 0x0a],
        quote_mark() == seq![0x22u8],
        closing_mark().len() == 4,
        line_start().len() == 38,
        line_start()[0] == 0x43,
        filename_start().len() == 12,
{
    reveal_strlit("\r\n");
    reveal_strlit("\r\n\r\n");
    reveal_strlit("\"");
    reveal_strlit("--\r\n");
    reveal_strlit("Content-Disposition: form-data; name=\"");
    reveal_strlit("; filename=\"");
    let end = "\r\n"@;
    let blank = "\r\n\r\n"@;
    let mark = "\""@;
    let start = "Content-Disposition: form-data; name=\""@;
    assert(is_ascii_chars(end));
    is_ascii_chars_encode_utf8(end);
    assert(end[0] as u8 == crlf()[0] && end[1] as u8 == crlf()[1]);
    assert(crlf() =~= seq![0x0du8, 0x0a]);
    assert(is_ascii_chars(blank));
    is_ascii_chars_encode_utf8(blank);
    assert(blank[0] as u8 == head_end()[0] && blank[1] as u8 == head_end()[1]);
    assert(blank[2] as u8 == head_end()[2] && blank[3] as u8 == head_end()[3]);
    assert(head_end() =~= seq![0x0du8, 0x0a, 0x0d, 0x0a]);
    assert(is_ascii_chars(mark));
    is_ascii_chars_encode_utf8(mark);
    assert(mark[0] as u8 == quote_mark()[0]);
    assert(quote_mark() =~= seq![0x22u8]);
    assert(is_ascii_chars("--\r\n"@));
    is_ascii_chars_encode_utf8("--\r\n"@);
    assert(is_ascii_chars(start));
    is_ascii_chars_encode_utf8(start);
    assert(start[0] as u8 == line_start()[0]);
    assert(is_ascii_chars("; filename=\""@));
    is_ascii_chars_encode_utf8("; filename=\""@);
}

/// Neither the header line of a table nor that of the query holds a line end.
proof fn lemma_line_is_one_line(name: Seq<char>, filename: Option<Seq<char>>)
    requires
        is_table_name(name),
        filename matches Some(filename) ==> is_table_name(filename),
    ensures
        forall|i: int|
            0 <= i < line(name, filename).len() ==> #[trigger] line(name, filename)[i] != 0x0d
                && line(name, filename)[i] != 0x0a,
        line(name, filename).len() > 0,
        line(name, filename)[0] == 0x43,
{
    lemma_framing_bytes();
    reveal_strlit("Content-Disposition: form-data; name=\"");
    reveal_strlit("; filename=\"");
    lemma_encode_absent("Content-Disposition: form-data; name=\""@, '\r');
    lemma_encode_absent("Content-Disposition: form-data; name=\""@, '\n');
    lemma_encode_absent("; filename=\""@, '\r');
    lemma_encode_absent("; filename=\""@, '\n');
    lemma_name_bytes(name);
    if let Some(filename) = filename {
        lemma_name_bytes(filename);
    }
}

/// The bytes of a name hold no line end and no quote.
proof fn lemma_name_bytes(name: Seq<char>)
    requires
        is_table_name(name),
    ensures
        forall|i: int|
            0 <= i < encode_utf8(name).len() ==> {
                let b = #[trigger] encode_utf8(name)[i];
                b != 0x0d && b != 0x0a && b != 0x22
            },
{
    assert forall|i: int| 0 <= i < name.len() implies #[trigger] name[i] != '\r' && name[i] != '\n'
        && name[i] != '"' by {
        assert(!breaks_header(name[i]));
    }
    lemma_encode_absent(name, '\r');
    lemma_encode_absent(name, '\n');
    lemma_encode_absent(name, '"');
}

/// The form field of the query has a name that can stand in a header line.
proof fn lemma_query_is_name()
    ensures
        is_table_name(QUERY@),
{
    reveal_strlit("query");
}

/// A delimiter begins with two dashes and holds no line end and no quote.
proof fn lemma_delimiter_bytes(n: nat)
    ensures
        ({
            let d = delimiter(boundary_text(n));
            &&& d.len() > 25
            &&& d[0] == 0x2d
            &&& d[1] == 0x2d
            &&& forall|k: int|
                0 <= k < d.len() ==> #[trigger] d[k] != 0x0d && d[k] != 0x0a && d[k] != 0x22
        }),
{
    lemma_delimiter(n);
    lemma_decimal_digits(n);
    reveal_strlit("--");
    reveal_strlit("clickhouse-rs-boundary-");
    let text = "--"@ + boundary_text(n);
    assert forall|i: int| 0 <= i < text.len() implies #[trigger] text[i] != '\r' && text[i] != '\n'
        && text[i] != '"' && text[i] <= '\u{7f}' by {
        if i >= 25 {
            assert(text[i] == decimal(n)[i - 25]);
        }
    }
    lemma_encode_absent(text, '\r');
    lemma_encode_absent(text, '\n');
    lemma_encode_absent(text, '"');
    assert(is_ascii_chars(text));
    is_ascii_chars_encode_utf8(text);
    assert(text[0] as u8 == delimiter(boundary_text(n))[0]);
    assert(text[1] as u8 == delimiter(boundary_text(n))[1]);
}

/// A line end and a delimiter in a row: no delimiter holds a line end, so that
/// two of these cannot overlap.
proof fn lemma_separator(n: nat)
    ensures
        ({
            let d = delimiter(boundary_text(n));
            let separator = crlf() + d;
            &&& d.len() > 25
            &&& d[0] == 0x2d
            &&& separator.len() == d.len() + 2
            &&& separator[0] == 0x0d
            &&& separator[1] == 0x0a
            &&& forall|k: int| 0 <= k < d.len() ==> separator[2 + k] == #[trigger] d[k]
            &&& forall|k: int| 0 < k < separator.len() ==> #[trigger] separator[k] != separator[0]
        }),
{
    lemma_framing_bytes();
    lemma_delimiter_bytes(n);
}

/// No piece holds a line end with the delimiter behind it, where the delimiter
/// does not stand in the data.
proof fn lemma_piece_holds_no_separator(
    n: nat,
    name: Seq<char>,
    filename: Option<Seq<char>>,
    data: Seq<u8>,
)
    requires
        is_table_name(name),
        filename matches Some(filename) ==> is_table_name(filename),
        !occurs(data, delimiter(boundary_text(n))),
    ensures
        !occurs(piece(name, filename, data), crlf() + delimiter(boundary_text(n))),
{
    let d = delimiter(boundary_text(n));
    let separator = crlf() + d;
    let text = piece(name, filename, data);
    let l = line(name, filename);
    let h = 2 + l.len();
    lemma_framing_bytes();
    lemma_separator(n);
    lemma_line_is_one_line(name, filename);
    assert forall|i: int| !occurs_at(text, separator, i) by {
        if occurs_at(text, separator, i) {
            lemma_occurs_bytes(text, separator, i, 0);
            lemma_occurs_bytes(text, separator, i, 1);
            lemma_occurs_bytes(text, separator, i, 2);
            assert(separator[2] == d[0]);
            if 2 <= i < h {
                assert(text[i] == l[i - 2]);
            } else if i == 0 {
                assert(text[2] == l[0]);
            } else if i >= h + 2 {
                let k = i + 2 - (h + 4);
                assert(data.subrange(k, k + d.len()) =~= d) by {
                    assert forall|j: int| 0 <= j < d.len() implies data[k + j] == d[j] by {
                        lemma_occurs_bytes(text, separator, i, 2 + j);
                        assert(separator[2 + j] == d[j]);
                        assert(text[i + (2 + j)] == data[k + j]);
                    }
                }
                assert(occurs_at(data, d, k));
            }
        }
    }
}

/// A reader of a piece finds in it what was written.
proof fn lemma_read_piece(name: Seq<char>, filename: Option<Seq<char>>, data: Seq<u8>)
    requires
        is_table_name(name),
        filename matches Some(filename) ==> is_table_name(filename),
    ensures
        read_part(piece(name, filename, data)) == (FormPart {
            name: encode_utf8(name),
            filename: match filename {
                Some(filename) => Some(encode_utf8(filename)),
                None => None,
            },
            data,
        }),
{
    let text = piece(name, filename, data);
    let l = line(name, filename);
    let h = 2 + l.len() as int;
    lemma_framing_bytes();
    lemma_line_is_one_line(name, filename);
    assert(text.subrange(h, h + 4) =~= head_end());
    assert forall|k: int| k < h implies !occurs_at(text, head_end(), k) by {
        if occurs_at(text, head_end(), k) {
            lemma_occurs_bytes(text, head_end(), k, 0);
            lemma_occurs_bytes(text, head_end(), k, 2);
            if k == 0 {
                assert(text[2] == l[0]);
            } else if k >= 2 {
                assert(text[k] == l[k - 2]);
            }
        }
    }
    lemma_first_position(text, head_end(), h);
    assert(text.subrange(2, h) =~= l);
    assert(text.skip(h + 4) =~= data);

    let field = l.skip(38);
    let close = encode_utf8(name).len() as int;
    lemma_name_bytes(name);
    assert(field.subrange(close, close + 1) =~= quote_mark());
    assert forall|k: int| k < close implies !occurs_at(field, quote_mark(), k) by {
        if occurs_at(field, quote_mark(), k) {
            lemma_occurs_bytes(field, quote_mark(), k, 0);
            assert(field[k] == encode_utf8(name)[k]);
        }
    }
    lemma_first_position(field, quote_mark(), close);
    assert(field.take(close) =~= encode_utf8(name));
    let rest = field.skip(close + 1);
    match filename {
        Some(filename) => {
            assert(rest =~= filename_start() + encode_utf8(filename) + quote_mark());
            assert(rest.subrange(12, rest.len() - 1) =~= encode_utf8(filename));
        },
        None => {
            assert(rest.len() == 0);
        },
    }
}

/// The head of a part is its delimiter and what stands in front of the data.
proof fn lemma_header_bytes(boundary: Seq<char>, name: Seq<char>, filename: Option<Seq<char>>)
    ensures
        encode_utf8(header(boundary, name, filename)) == delimiter(boundary) + crlf() + line(
            name,
            filename,
        ) + head_end(),
{
    let dash = "--"@ + boundary;
    let start = "\r\nContent-Disposition: form-data; name=\""@;
    let mark = "\""@;
    let tail = match filename {
        Some(filename) => "; filename=\""@ + filename + "\""@,
        None => Seq::empty(),
    };
    let blank = "\r\n\r\n"@;
    lemma_encode_concat(dash + start + name + mark + tail, blank);
    lemma_encode_concat(dash + start + name + mark, tail);
    lemma_encode_concat(dash + start + name, mark);
    lemma_encode_concat(dash + start, name);
    lemma_encode_concat(dash, start);
    reveal_strlit("\r\n");
    reveal_strlit("Content-Disposition: form-data; name=\"");
    reveal_strlit("\r\nContent-Disposition: form-data; name=\"");
    assert(start =~= "\r\n"@ + "Content-Disposition: form-data; name=\""@);
    lemma_encode_concat("\r\n"@, "Content-Disposition: form-data; name=\""@);
    match filename {
        Some(filename) => {
            lemma_encode_concat("; filename=\""@ + filename, "\""@);
            lemma_encode_concat("; filename=\""@, filename);
        },
        None => {},
    }
    assert(encode_utf8(header(boundary, name, filename)) =~= delimiter(boundary) + crlf() + line(
        name,
        filename,
    ) + head_end());
}

/// The frame of the query is its delimiter, its piece and a line end.
proof fn lemma_query_frame_bytes(boundary: Seq<char>, query: Seq<char>)
    ensures
        query_frame(boundary, query) == delimiter(boundary) + piece(
            QUERY@,
            None,
            encode_utf8(query),
        ) + crlf(),
{
    let head = header(boundary, QUERY@, None);
    lemma_header_bytes(boundary, QUERY@, None);
    lemma_encode_concat(head, query);
    lemma_encode_concat(head + query, "\r\n"@);
    assert(query_frame(boundary, query) =~= delimiter(boundary) + piece(
        QUERY@,
        None,
        encode_utf8(query),
    ) + crlf());
}

/// The last table adds its delimiter, its piece and a line end.
proof fn lemma_table_frames_bytes(boundary: Seq<char>, tables: Seq<Part>)
    requires
        tables.len() > 0,
    ensures
        table_frames(boundary, tables).flatten() == table_frames(
            boundary,
            tables.drop_last(),
        ).flatten() + (delimiter(boundary) + piece(
            tables.last().name,
            Some(tables.last().name),
            tables.last().data,
        ) + crlf()),
{
    let last = tables.last();
    let earlier = table_frames(boundary, tables.drop_last());
    let head = encode_utf8(header(boundary, last.name, Some(last.name)));
    let p = piece(last.name, Some(last.name), last.data);
    lemma_header_bytes(boundary, last.name, Some(last.name));
    earlier.lemma_flatten_push(head);
    earlier.push(head).lemma_flatten_push(last.data);
    earlier.push(head).push(last.data).lemma_flatten_push(crlf());
    assert(head + last.data =~= delimiter(boundary) + p);
    assert(table_frames(boundary, tables).flatten() =~= earlier.flatten() + (delimiter(boundary) + p
        + crlf()));
}

/// One more piece behind some that are joined.
proof fn lemma_join_push(pieces: Seq<Seq<u8>>, separator: Seq<u8>, piece: Seq<u8>)
    requires
        pieces.len() > 0,
    ensures
        join(pieces.push(piece), separator) == join(pieces, separator) + separator + piece,
{
    assert(pieces.push(piece).drop_last() =~= pieces);
}

/// The frames in front of the closing one are pieces with the separator between
/// them, and a line end.
proof fn lemma_frames_are_joined(boundary: Seq<char>, query: Seq<char>, tables: Seq<Part>)
    ensures
        crlf() + query_frame(boundary, query) + table_frames(boundary, tables).flatten() == join(
            seq![Seq::<u8>::empty(), piece(QUERY@, None, encode_utf8(query))] + table_pieces(
                tables,
            ),
            crlf() + delimiter(boundary),
        ) + crlf(),
    decreases tables.len(),
{
    let d = delimiter(boundary);
    let first = piece(QUERY@, None, encode_utf8(query));
    let start = seq![Seq::<u8>::empty(), first];
    let frame = query_frame(boundary, query);
    let flat = table_frames(boundary, tables).flatten();
    if tables.len() == 0 {
        lemma_query_frame_bytes(boundary, query);
        lemma_join_push(seq![Seq::<u8>::empty()], crlf() + d, first);
        assert(seq![Seq::<u8>::empty()].push(first) =~= start);
        assert(start + table_pieces(tables) =~= start);
        assert(flat =~= Seq::<u8>::empty());
        lemma_regroup(Seq::empty(), crlf(), d, first);
        assert(crlf() + frame + flat =~= crlf() + (d + first + crlf()));
        assert(Seq::<u8>::empty() + crlf() =~= crlf());
    } else {
        let before = tables.drop_last();
        let last = tables.last();
        let p = piece(last.name, Some(last.name), last.data);
        let open = start + table_pieces(before);
        let earlier = table_frames(boundary, before).flatten();
        lemma_frames_are_joined(boundary, query, before);
        lemma_table_frames_bytes(boundary, tables);
        assert(start + table_pieces(tables) =~= open.push(p));
        lemma_join_push(open, crlf() + d, p);
        lemma_regroup(join(open, crlf() + d), crlf(), d, p);
        assert(crlf() + frame + flat =~= (crlf() + frame + earlier) + (d + p + crlf()));
    }
}

/// Another way to group the same bytes.
proof fn lemma_regroup(a: Seq<u8>, end: Seq<u8>, d: Seq<u8>, p: Seq<u8>)
    ensures
        (a + end) + (d + p + end) == (a + (end + d) + p) + end,
{
    assert((a + end) + (d + p + end) =~= (a + (end + d) + p) + end);
}

/// A body is its pieces with the separator between them.
proof fn lemma_body_is_joined(boundary: Seq<char>, query: Seq<char>, tables: Seq<Part>)
    ensures
        crlf() + body_frames(boundary, query, tables).flatten() == join(
            all_pieces(query, tables),
            crlf() + delimiter(boundary),
        ),
{
    let separator = crlf() + delimiter(boundary);
    let all = all_pieces(query, tables);
    let first = seq![query_frame(boundary, query)];
    let frames = table_frames(boundary, tables);
    let closing = closing_frame(boundary);
    let open = seq![Seq::<u8>::empty(), piece(QUERY@, None, encode_utf8(query))] + table_pieces(
        tables,
    );
    lemma_frames_are_joined(boundary, query, tables);
    lemma_encode_concat("--"@ + boundary, "--\r\n"@);
    assert(body_frames(boundary, query, tables) =~= (first + frames).push(closing));
    (first + frames).lemma_flatten_push(closing);
    assert((first + frames).drop_first() =~= frames);
    assert((first + frames).flatten() =~= query_frame(boundary, query) + frames.flatten());
    assert(all.drop_last() =~= open);
    assert(all.last() == closing_mark());
    assert(crlf() + body_frames(boundary, query, tables).flatten() =~= (crlf() + query_frame(
        boundary,
        query,
    ) + frames.flatten()) + closing);
    assert(join(all, separator) =~= join(open, separator) + crlf() + (delimiter(boundary)
        + closing_mark()));
}

/// The delimiter of a body shows as framing and nowhere else: a reader who cuts
/// the body at its delimiters finds nothing in front of the first, then the
/// parts, and the closing mark behind the last.
proof fn lemma_pieces_of_body(boundary: Seq<char>, query: Seq<char>, tables: Seq<Part>)
    requires
        is_boundary_for(boundary, texts(query, tables)),
        forall|i: int| 0 <= i < tables.len() ==> is_table_name((#[trigger] tables[i]).name),
    ensures
        pieces(body_frames(boundary, query, tables).flatten(), boundary) == all_pieces(
            query,
            tables,
        ),
{
    let separator = crlf() + delimiter(boundary);
    let all = all_pieces(query, tables);
    let n = choose|n: nat| #[trigger]
        is_first_free(n, texts(query, tables)) && boundary == boundary_text(n);
    lemma_framing_bytes();
    lemma_separator(n);
    lemma_query_is_name();
    assert forall|j: int| 0 <= j < all.len() - 1 implies ends_at_separator(
        #[trigger] all[j],
        separator,
    ) by {
        if j == 1 {
            law_boundary_in_no_text(boundary, texts(query, tables), 0);
            lemma_piece_holds_no_separator(n, QUERY@, None, encode_utf8(query));
        } else if 1 < j < all.len() - 1 {
            let t = tables[j - 2];
            assert(all[j] == piece(t.name, Some(t.name), t.data));
            assert(texts(query, tables)[j - 1] == t.data);
            law_boundary_in_no_text(boundary, texts(query, tables), j - 1);
            lemma_piece_holds_no_separator(n, t.name, Some(t.name), t.data);
        }
        lemma_ends_without_overlap(all[j], separator);
    }
    lemma_split_join(all, separator);
    lemma_body_is_joined(boundary, query, tables);
}

/// A body reads back as what was sent: the query, and then each table with its
/// name, as a file of that name, with its payload byte for byte. No query, name
/// or payload changes where a reader sees a part begin or end.
pub proof fn law_body_reads_back(boundary: Seq<char>, query: Seq<char>, tables: Seq<Part>)
    requires
        is_boundary_for(boundary, texts(query, tables)),
        forall|i: int| 0 <= i < tables.len() ==> is_table_name((#[trigger] tables[i]).name),
    ensures
        read_body(body_frames(boundary, query, tables).flatten(), boundary) == sent_parts(
            query,
            tables,
        ),
{
    let body = body_frames(boundary, query, tables).flatten();
    let all = all_pieces(query, tables);
    lemma_pieces_of_body(boundary, query, tables);
    lemma_query_is_name();
    let found = read_body(body, boundary);
    let sent = sent_parts(query, tables);
    assert(found.len() == sent.len());
    assert forall|i: int| 0 <= i < found.len() implies #[trigger] found[i] == sent[i] by {
        assert(found[i] == read_part(all[i + 1]));
        if i == 0 {
            lemma_read_piece(QUERY@, None, encode_utf8(query));
        } else {
            let t = tables[i - 1];
            assert(all[i + 1] == piece(t.name, Some(t.name), t.data));
            lemma_read_piece(t.name, Some(t.name), t.data);
        }
    }
    assert(found =~= sent);
}

/// Nothing stands in front of the first delimiter of a body, and behind the last
/// only the mark that closes it.
pub proof fn law_body_is_closed(boundary: Seq<char>, query: Seq<char>, tables: Seq<Part>)
    requires
        is_boundary_for(boundary, texts(query, tables)),
        forall|i: int| 0 <= i < tables.len() ==> is_table_name((#[trigger] tables[i]).name),
    ensures
        ({
            let found = pieces(body_frames(boundary, query, tables).flatten(), boundary);
            &&& found.len() == tables.len() + 3
            &&& found.first() == Seq::<u8>::empty()
            &&& found.last() == encode_utf8("--\r\n"@)
        }),
{
    lemma_pieces_of_body(boundary, query, tables);
}

/// The pieces of a body between its bare delimiters: nothing, then each part with
/// the line ends around it, and then the mark that closes the body.
pub open spec fn bare_pieces(query: Seq<char>, tables: Seq<Part>) -> Seq<Seq<u8>> {
    seq![Seq::<u8>::empty(), piece(QUERY@, None, encode_utf8(query)) + crlf()]
        + tables.map_values(|t: Part| piece(t.name, Some(t.name), t.data) + crlf()) + seq![
        encode_utf8("--\r\n"@),
    ]
}

/// What stands across a gap that shares no byte with the needle stands on one side
/// of it.
proof fn lemma_occurs_beside_gap(a: Seq<u8>, gap: Seq<u8>, b: Seq<u8>, needle: Seq<u8>)
    requires
        gap.len() > 0,
        needle.len() > 0,
        forall|k: int, j: int|
            0 <= k < needle.len() && 0 <= j < gap.len() ==> #[trigger] needle[k]
                != #[trigger] gap[j],
        !occurs(a, needle),
        !occurs(b, needle),
    ensures
        !occurs(a + gap + b, needle),
{
    let text = a + gap + b;
    assert forall|i: int| !occurs_at(text, needle, i) by {
        if occurs_at(text, needle, i) {
            let g = a.len() as int;
            let h = g + gap.len();
            let end = i + needle.len();
            if end <= g {
                assert(a.subrange(i, end) =~= text.subrange(i, end));
                assert(occurs_at(a, needle, i));
            } else if i >= h {
                assert(b.subrange(i - h, end - h) =~= text.subrange(i, end));
                assert(occurs_at(b, needle, i - h));
            } else {
                let m = if i >= g {
                    i
                } else {
                    g
                };
                lemma_occurs_bytes(text, needle, i, m - i);
                assert(text[m] == gap[m - g]);
            }
        }
    }
}

/// What the header line of a part begins with ends with a quote, and has no two
/// dashes in a row.
proof fn lemma_line_start_bytes()
    ensures
        line_start().len() == 38,
        line_start().last() == 0x22,
        forall|i: int|
            0 <= i < 37 ==> #[trigger] line_start()[i] != 0x2d || line_start()[i + 1] != 0x2d,
        filename_start().len() == 12,
        filename_start().last() == 0x22,
{
    reveal_strlit("Content-Disposition: form-data; name=\"");
    reveal_strlit("; filename=\"");
    let start = "Content-Disposition: form-data; name=\""@;
    let file = "; filename=\""@;
    assert(is_ascii_chars(start));
    is_ascii_chars_encode_utf8(start);
    assert(is_ascii_chars(file));
    is_ascii_chars_encode_utf8(file);
    assert(start[37] as u8 == line_start()[37]);
    assert(file[11] as u8 == filename_start()[11]);
    assert forall|i: int| 0 <= i < 37 implies #[trigger] line_start()[i] != 0x2d || line_start()[i
        + 1] != 0x2d by {
        assert(start[i] as u8 == line_start()[i]);
        assert(start[i + 1] as u8 == line_start()[i + 1]);
        assert(start[i] != '-' || start[i + 1] != '-');
    }
}

/// No header line holds the delimiter, where no name in it does.
proof fn lemma_line_holds_no_delimiter(n: nat, name: Seq<char>, filename: Option<Seq<char>>)
    requires
        !occurs(encode_utf8(name), delimiter(boundary_text(n))),
        filename matches Some(filename) ==> !occurs(
            encode_utf8(filename),
            delimiter(boundary_text(n)),
        ),
    ensures
        !occurs(line(name, filename), delimiter(boundary_text(n))),
{
    let d = delimiter(boundary_text(n));
    let mark = quote_mark();
    let start = line_start().drop_last();
    let file = filename_start().drop_last();
    lemma_framing_bytes();
    lemma_delimiter_bytes(n);
    lemma_line_start_bytes();
    assert(line_start() =~= start + mark);
    assert(filename_start() =~= file + mark);
    assert forall|i: int| !occurs_at(start, d, i) by {
        if occurs_at(start, d, i) {
            lemma_occurs_bytes(start, d, i, 0);
            lemma_occurs_bytes(start, d, i, 1);
            assert(line_start()[i] == start[i] && line_start()[i + 1] == start[i + 1]);
        }
    }
    let tail = match filename {
        Some(filename) => filename_start() + encode_utf8(filename) + mark,
        None => Seq::empty(),
    };
    if let Some(filename) = filename {
        let f = encode_utf8(filename);
        lemma_occurs_beside_gap(f, mark, Seq::empty(), d);
        lemma_occurs_beside_gap(file, mark, f + mark + Seq::<u8>::empty(), d);
        assert(tail =~= file + mark + (f + mark + Seq::<u8>::empty()));
    }
    lemma_occurs_beside_gap(encode_utf8(name), mark, tail, d);
    lemma_occurs_beside_gap(start, mark, encode_utf8(name) + mark + tail, d);
    assert(line(name, filename) =~= start + mark + (encode_utf8(name) + mark + tail));
}

/// A part with the line ends around it ends at the delimiter behind it, where
/// neither its names nor its data hold the delimiter.
proof fn lemma_part_ends_at_delimiter(
    n: nat,
    name: Seq<char>,
    filename: Option<Seq<char>>,
    data: Seq<u8>,
)
    requires
        !occurs(encode_utf8(name), delimiter(boundary_text(n))),
        filename matches Some(filename) ==> !occurs(
            encode_utf8(filename),
            delimiter(boundary_text(n)),
        ),
        !occurs(data, delimiter(boundary_text(n))),
    ensures
        ends_at_separator(piece(name, filename, data) + crlf(), delimiter(boundary_text(n))),
{
    let d = delimiter(boundary_text(n));
    let l = line(name, filename);
    let whole = piece(name, filename, data) + crlf();
    lemma_framing_bytes();
    lemma_delimiter_bytes(n);
    lemma_line_holds_no_delimiter(n, name, filename);
    lemma_occurs_beside_gap(data, crlf(), Seq::empty(), d);
    let behind = data + crlf() + Seq::<u8>::empty();
    lemma_occurs_beside_gap(l, head_end(), behind, d);
    lemma_occurs_beside_gap(Seq::empty(), crlf(), l + head_end() + behind, d);
    assert(whole =~= Seq::<u8>::empty() + crlf() + (l + head_end() + behind));
    lemma_ends_behind_other_byte(whole, d);
}

/// The frames in front of the closing one are bare pieces with the delimiter
/// between them.
proof fn lemma_frames_are_joined_at_delimiters(
    boundary: Seq<char>,
    query: Seq<char>,
    tables: Seq<Part>,
)
    ensures
        query_frame(boundary, query) + table_frames(boundary, tables).flatten() == join(
            bare_pieces(query, tables).drop_last(),
            delimiter(boundary),
        ),
    decreases tables.len(),
{
    let d = delimiter(boundary);
    let first = piece(QUERY@, None, encode_utf8(query)) + crlf();
    let open = bare_pieces(query, tables).drop_last();
    let frame = query_frame(boundary, query);
    let flat = table_frames(boundary, tables).flatten();
    if tables.len() == 0 {
        lemma_query_frame_bytes(boundary, query);
        assert(open =~= seq![Seq::<u8>::empty()].push(first));
        lemma_join_push(seq![Seq::<u8>::empty()], d, first);
        assert(flat =~= Seq::<u8>::empty());
        assert(frame + flat =~= Seq::<u8>::empty() + d + first);
    } else {
        let before = tables.drop_last();
        let last = tables.last();
        let p = piece(last.name, Some(last.name), last.data) + crlf();
        let earlier = table_frames(boundary, before).flatten();
        let opened = bare_pieces(query, before).drop_last();
        lemma_frames_are_joined_at_delimiters(boundary, query, before);
        lemma_table_frames_bytes(boundary, tables);
        assert(open =~= opened.push(p));
        lemma_join_push(opened, d, p);
        assert(frame + flat =~= (frame + earlier) + d + p);
    }
}

/// A reader who cuts a body at its bare delimiters, and does not look for the line
/// ends around them, finds the parts too, if no table name holds the delimiter:
/// nothing in front of the first delimiter, then each part with the line ends
/// around it, and the closing mark behind the last delimiter.
pub proof fn law_body_cut_at_bare_delimiters(
    boundary: Seq<char>,
    query: Seq<char>,
    tables: Seq<Part>,
)
    requires
        is_boundary_for(boundary, texts(query, tables)),
        forall|i: int|
            0 <= i < tables.len() ==> !occurs(
                encode_utf8((#[trigger] tables[i]).name),
                delimiter(boundary),
            ),
    ensures
        split(body_frames(boundary, query, tables).flatten(), delimiter(boundary)) == bare_pieces(
            query,
            tables,
        ),
        bare_pieces(query, tables).len() == tables.len() + 3,
{
    let d = delimiter(boundary);
    let all = bare_pieces(query, tables);
    let n = choose|n: nat| #[trigger]
        is_first_free(n, texts(query, tables)) && boundary == boundary_text(n);
    lemma_framing_bytes();
    lemma_delimiter_bytes(n);
    assert(encode_utf8(QUERY@).len() == 5) by {
        reveal_strlit("query");
        assert(is_ascii_chars(QUERY@));
        is_ascii_chars_encode_utf8(QUERY@);
    }
    assert forall|j: int| 0 <= j < all.len() - 1 implies ends_at_separator(
        #[trigger] all[j],
        d,
    ) by {
        if j == 0 {
            lemma_ends_behind_other_byte(all[0], d);
        } else if j == 1 {
            law_boundary_in_no_text(boundary, texts(query, tables), 0);
            lemma_part_ends_at_delimiter(n, QUERY@, None, encode_utf8(query));
        } else {
            let t = tables[j - 2];
            assert(all[j] == piece(t.name, Some(t.name), t.data) + crlf());
            assert(texts(query, tables)[j - 1] == t.data);
            law_boundary_in_no_text(boundary, texts(query, tables), j - 1);
            lemma_part_ends_at_delimiter(n, t.name, Some(t.name), t.data);
        }
    }
    lemma_split_join(all, d);

    let frames = seq![query_frame(boundary, query)] + table_frames(boundary, tables);
    lemma_frames_are_joined_at_delimiters(boundary, query, tables);
    lemma_encode_concat("--"@ + boundary, "--\r\n"@);
    assert(body_frames(boundary, query, tables) =~= frames.push(closing_frame(boundary)));
    frames.lemma_flatten_push(closing_frame(boundary));
    assert(frames.drop_first() =~= table_frames(boundary, tables));
    assert(frames.flatten() =~= query_frame(boundary, query) + table_frames(
        boundary,
        tables,
    ).flatten());
    assert(body_frames(boundary, query, tables).flatten() =~= join(all, d));
}

/// The same holds whatever the boundary is, if no table name holds what all
/// delimiters begin with.
pub proof fn law_body_of_plain_names_cut_at_bare_delimiters(
    boundary: Seq<char>,
    query: Seq<char>,
    tables: Seq<Part>,
)
    requires
        is_boundary_for(boundary, texts(query, tables)),
        forall|i: int|
            0 <= i < tables.len() ==> !occurs(encode_utf8((#[trigger] tables[i]).name), prefix()),
    ensures
        split(body_frames(boundary, query, tables).flatten(), delimiter(boundary)) == bare_pieces(
            query,
            tables,
        ),
{
    let d = delimiter(boundary);
    let n = choose|n: nat| #[trigger]
        is_first_free(n, texts(query, tables)) && boundary == boundary_text(n);
    lemma_delimiter(n);
    assert forall|i: int| 0 <= i < tables.len() implies !occurs(
        encode_utf8((#[trigger] tables[i]).name),
        d,
    ) by {
        let name = encode_utf8(tables[i].name);
        assert forall|k: int| !occurs_at(name, d, k) by {
            if occurs_at(name, d, k) {
                assert(name.subrange(k, k + prefix().len()) =~= name.subrange(
                    k,
                    k + d.len(),
                ).take(prefix().len() as int));
                assert(d.take(prefix().len() as int) =~= prefix());
                assert(occurs_at(name, prefix(), k));
            }
        }
    }
    law_body_cut_at_bare_delimiters(boundary, query, tables);
}

} // verus!
