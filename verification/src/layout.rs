//! What a multipart body looks like.

use bytes::Bytes;
use vstd::prelude::*;
use vstd::utf8::encode_utf8;

use crate::interop::buffer::contents;
use crate::interop::search::occurs;
use crate::settings::QUERY;
use crate::text::decimal;

verus! {

/// One table, as far as the body shows it: its name and its payload.
pub ghost struct Part {
    pub name: Seq<char>,
    pub data: Seq<u8>,
}

/// The boundary with number `n`.
pub open spec fn boundary_text(n: nat) -> Seq<char> {
    "clickhouse-rs-boundary-"@ + decimal(n)
}

/// The line that stands between the parts, without its line end.
pub open spec fn delimiter(boundary: Seq<char>) -> Seq<u8> {
    encode_utf8("--"@ + boundary)
}

/// The texts that the boundary must not be confused with: the query, then the
/// payload of each table.
pub open spec fn texts(query: Seq<char>, tables: Seq<Part>) -> Seq<Seq<u8>> {
    seq![encode_utf8(query)] + tables.map_values(|t: Part| t.data)
}

/// The boundary with number `n` can be used: its delimiter stands in none of
/// the texts.
pub open spec fn is_free(n: nat, texts: Seq<Seq<u8>>) -> bool {
    forall|j: int|
        0 <= j < texts.len() ==> !occurs(#[trigger] texts[j], delimiter(boundary_text(n)))
}

/// `n` is the first number whose boundary can be used.
pub open spec fn is_first_free(n: nat, texts: Seq<Seq<u8>>) -> bool {
    &&& is_free(n, texts)
    &&& forall|k: nat| k < n ==> !#[trigger] is_free(k, texts)
}

/// `boundary` is the one to use with these texts.
pub open spec fn is_boundary_for(boundary: Seq<char>, texts: Seq<Seq<u8>>) -> bool {
    exists|n: nat| #[trigger] is_first_free(n, texts) && boundary == boundary_text(n)
}

/// The head of a part: its delimiter, its one header line and an empty line.
pub open spec fn header(boundary: Seq<char>, name: Seq<char>, filename: Option<Seq<char>>) -> Seq<
    char,
> {
    "--"@ + boundary + "\r\nContent-Disposition: form-data; name=\""@ + name + "\""@ + (
    match filename {
        Some(filename) => "; filename=\""@ + filename + "\""@,
        None => Seq::empty(),
    }) + "\r\n\r\n"@
}

/// The line end.
pub open spec fn crlf() -> Seq<u8> {
    encode_utf8("\r\n"@)
}

/// The first frame: the query as a form field, with the line end behind it.
pub open spec fn query_frame(boundary: Seq<char>, query: Seq<char>) -> Seq<u8> {
    encode_utf8(header(boundary, QUERY@, None) + query + "\r\n"@)
}

/// The three frames of each table: the head of a file part, the payload as it
/// is, and a line end.
pub open spec fn table_frames(boundary: Seq<char>, tables: Seq<Part>) -> Seq<Seq<u8>>
    decreases tables.len(),
{
    if tables.len() == 0 {
        Seq::empty()
    } else {
        let last = tables.last();
        table_frames(boundary, tables.drop_last()).push(
            encode_utf8(header(boundary, last.name, Some(last.name))),
        ).push(last.data).push(crlf())
    }
}

/// The last frame: the closing delimiter.
pub open spec fn closing_frame(boundary: Seq<char>) -> Seq<u8> {
    encode_utf8("--"@ + boundary + "--\r\n"@)
}

/// The whole body, frame by frame.
pub open spec fn body_frames(boundary: Seq<char>, query: Seq<char>, tables: Seq<Part>) -> Seq<
    Seq<u8>,
> {
    seq![query_frame(boundary, query)] + table_frames(boundary, tables) + seq![
        closing_frame(boundary),
    ]
}

/// What each of some frames holds.
pub open spec fn contents_of(frames: Seq<Bytes>) -> Seq<Seq<u8>> {
    frames.map_values(|b: Bytes| contents(b))
}

/// The bytes of some frames, in a row.
pub open spec fn joined(frames: Seq<Bytes>) -> Seq<u8> {
    contents_of(frames).flatten()
}

/// Frames joined up to `i`, and one frame more.
pub proof fn lemma_joined_take(frames: Seq<Bytes>, i: int)
    requires
        0 <= i <= frames.len(),
    ensures
        i == 0 ==> joined(frames.take(i)) == Seq::<u8>::empty(),
        i < frames.len() ==> joined(frames.take(i + 1)) == joined(frames.take(i)) + contents(
            frames[i],
        ),
{
    if i == 0 {
        assert(contents_of(frames.take(0)) =~= Seq::empty());
    }
    if i < frames.len() {
        let all = contents_of(frames.take(i + 1));
        assert(all.drop_last() =~= contents_of(frames.take(i)));
        all.lemma_flatten_and_flatten_alt_are_equivalent();
        all.drop_last().lemma_flatten_and_flatten_alt_are_equivalent();
    }
}

/// The first frames hold no more bytes than all of them.
pub proof fn lemma_joined_len_le(frames: Seq<Bytes>, i: int)
    requires
        0 <= i <= frames.len(),
    ensures
        joined(frames.take(i)).len() <= joined(frames).len(),
    decreases frames.len() - i,
{
    if i < frames.len() {
        lemma_joined_take(frames, i);
        lemma_joined_len_le(frames, i + 1);
    } else {
        assert(frames.take(i) =~= frames);
    }
}

/// The frames of the tables, by position.
proof fn lemma_table_frame_positions(boundary: Seq<char>, tables: Seq<Part>)
    ensures
        table_frames(boundary, tables).len() == 3 * tables.len(),
        forall|i: int|
            0 <= i < tables.len() ==> {
                let frames = table_frames(boundary, tables);
                let t = #[trigger] tables[i];
                &&& frames[3 * i] == encode_utf8(header(boundary, t.name, Some(t.name)))
                &&& frames[3 * i + 1] == t.data
                &&& frames[3 * i + 2] == crlf()
            },
    decreases tables.len(),
{
    if tables.len() > 0 {
        let before = tables.drop_last();
        let earlier = table_frames(boundary, before);
        let frames = table_frames(boundary, tables);
        lemma_table_frame_positions(boundary, before);
        assert forall|i: int| 0 <= i < tables.len() implies {
            let t = #[trigger] tables[i];
            &&& frames[3 * i] == encode_utf8(header(boundary, t.name, Some(t.name)))
            &&& frames[3 * i + 1] == t.data
            &&& frames[3 * i + 2] == crlf()
        } by {
            if i < before.len() {
                assert(before[i] == tables[i]);
                assert(frames[3 * i] == earlier[3 * i]);
                assert(frames[3 * i + 1] == earlier[3 * i + 1]);
                assert(frames[3 * i + 2] == earlier[3 * i + 2]);
            }
        }
    }
}

/// The frames keep the order of the tables: first the query, then the head, the
/// payload alone and a line end for each table, and last the closing delimiter.
pub proof fn law_frame_positions(boundary: Seq<char>, query: Seq<char>, tables: Seq<Part>)
    ensures
        ({
            let frames = body_frames(boundary, query, tables);
            &&& frames.len() == 3 * tables.len() + 2
            &&& frames.first() == query_frame(boundary, query)
            &&& frames.last() == closing_frame(boundary)
            &&& forall|i: int|
                0 <= i < tables.len() ==> {
                    let t = #[trigger] tables[i];
                    &&& frames[3 * i + 1] == encode_utf8(header(boundary, t.name, Some(t.name)))
                    &&& frames[3 * i + 2] == t.data
                    &&& frames[3 * i + 3] == crlf()
                }
        }),
{
    let frames = body_frames(boundary, query, tables);
    let inner = table_frames(boundary, tables);
    lemma_table_frame_positions(boundary, tables);
    assert forall|i: int| 0 <= i < tables.len() implies {
        let t = #[trigger] tables[i];
        &&& frames[3 * i + 1] == encode_utf8(header(boundary, t.name, Some(t.name)))
        &&& frames[3 * i + 2] == t.data
        &&& frames[3 * i + 3] == crlf()
    } by {
        assert(frames[3 * i + 1] == inner[3 * i]);
        assert(frames[3 * i + 2] == inner[3 * i + 1]);
        assert(frames[3 * i + 3] == inner[3 * i + 2]);
    }
}

} // verus!
