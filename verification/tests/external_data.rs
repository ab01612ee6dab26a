use bstr::ByteSlice;
use bytes::Bytes;
use clickhouse::error::Error;
use clickhouse::external_data::{
    build_multipart, invalid, part_header, pick_boundary, write_debug, ExternalTable, Multipart,
    DEFAULT_FORMAT,
};
use clickhouse::text::to_decimal;
use std::fmt::{Debug, Formatter};

fn joined(mp: &Multipart) -> Vec<u8> {
    mp.frames.iter().flatten().copied().collect()
}

fn parts(body: &[u8]) -> Vec<&[u8]> {
    body.split_str(b"\r\n").collect()
}

/// The parts that a reader finds in a body: name, file name, data.
fn read(body: &[u8], boundary: &str) -> Vec<(String, Option<String>, Vec<u8>)> {
    let separator = format!("\r\n--{boundary}");
    let mut text = b"\r\n".to_vec();
    text.extend_from_slice(body);
    let pieces: Vec<&[u8]> = text.split_str(&separator).collect();
    assert_eq!(pieces[0], b"");
    assert_eq!(pieces[pieces.len() - 1], b"--\r\n");
    let mut found = vec![];
    for piece in &pieces[1..pieces.len() - 1] {
        let end = piece.find("\r\n\r\n").unwrap();
        let line = piece[2..end].to_str().unwrap();
        let field = line
            .strip_prefix("Content-Disposition: form-data; name=\"")
            .unwrap();
        let close = field.find('"').unwrap();
        let rest = &field[close + 1..];
        let filename = if rest.is_empty() {
            None
        } else {
            let rest = rest.strip_prefix("; filename=\"").unwrap();
            Some(rest.strip_suffix('"').unwrap().to_owned())
        };
        found.push((field[..close].to_owned(), filename, piece[end + 4..].to_vec()));
    }
    found
}

fn reason(err: Error) -> String {
    let Error::InvalidParams(reason) = err;
    reason
}

#[test]
fn single_table() {
    let table = ExternalTable::new("ext", "1\tA\n", "id UInt64, name String")
        .ok()
        .unwrap()
        .with_format("TSV");
    let mp = build_multipart("SELECT * FROM ext", std::slice::from_ref(&table));

    let body = joined(&mp);
    let text = body.to_str().unwrap();
    assert!(
        text.contains("name=\"query\""),
        "query field missing: {text}"
    );
    assert!(text.contains("SELECT * FROM ext"), "sql missing: {text}");
    assert!(text.contains("name=\"ext\""), "table field missing: {text}");
    assert!(text.contains("1\tA\n"), "data missing: {text}");
    assert!(
        text.ends_with(&format!("--{}--\r\n", mp.boundary)),
        "missing closing delimiter: {text}"
    );
    assert_eq!(
        mp.content_length(),
        body.len(),
        "Content-Length must equal the concatenated frame bytes"
    );
}

#[test]
fn multiple_tables_each_present() {
    let a = ExternalTable::new("a", "x", "c String").ok().unwrap();
    let b = ExternalTable::new("b", "y", "c String").ok().unwrap();
    let mp = build_multipart("SELECT 1", &[a, b]);

    let count = parts(&joined(&mp))
        .iter()
        .filter(|line| line.starts_with(b"Content-Disposition"))
        .count();
    assert_eq!(count, 3, "expected query + 2 tables, got {count}");
}

#[test]
fn boundary_avoids_collision() {
    // Data literally contains the default boundary delimiter.
    let colliding = "--clickhouse-rs-boundary-0 payload";
    let table = ExternalTable::new("ext", colliding, "c String").ok().unwrap();
    let mp = build_multipart("SELECT 1", std::slice::from_ref(&table));

    assert_ne!(
        mp.boundary, "clickhouse-rs-boundary-0",
        "must have bumped past the colliding boundary"
    );
    // The chosen delimiter appears only as framing, never inside the payload.
    let delim = format!("--{}", mp.boundary);
    assert!(
        !colliding.contains(&delim),
        "payload still contains the chosen boundary"
    );
}

#[test]
fn rejects_name_injection() {
    let err = ExternalTable::new("ev\"il", "x", "c String").err().unwrap();
    assert!(matches!(err, Error::InvalidParams(_)), "got {err:?}");
}

#[test]
fn rejects_empty_structure() {
    let err = ExternalTable::new("ext", "x", "   ").err().unwrap();
    assert!(matches!(err, Error::InvalidParams(_)), "got {err:?}");
}

#[test]
fn payload_is_not_copied() {
    let data = Bytes::from(vec![7u8; 4096]);
    let original_ptr = data.as_ptr();
    let table = ExternalTable::new("ext", data.clone(), "c String").ok().unwrap();
    let mp = build_multipart("SELECT * FROM ext", std::slice::from_ref(&table));

    let shares_buffer = mp.frames.iter().any(|f| f.as_ptr() == original_ptr);
    assert!(
        shares_buffer,
        "payload was copied. frames should share the original buffer"
    );
}

#[test]
fn frames_preserve_order() {
    let table = ExternalTable::new("ext", "PAYLOAD", "c String").ok().unwrap();
    let mp = build_multipart("SELECT 1", std::slice::from_ref(&table));

    assert_eq!(
        mp.frames.len(),
        5,
        "expected 5 frames, got {}",
        mp.frames.len()
    );
    assert!(
        mp.frames[0].starts_with(b"--"),
        "frame 0 must open with the query part"
    );
    assert!(
        mp.frames[0].ends_with(b"SELECT 1\r\n"),
        "frame 0 must carry the query"
    );
    assert!(
        mp.frames[1].to_str().unwrap().contains("filename=\"ext\""),
        "frame 1 must be the table part header"
    );
    assert_eq!(
        &mp.frames[2][..],
        b"PAYLOAD",
        "frame 2 must be the raw payload alone"
    );
    assert_eq!(
        &mp.frames[3][..],
        b"\r\n",
        "frame 3 must be the trailing CRLF"
    );
    assert_eq!(
        mp.frames[4].to_str().unwrap(),
        format!("--{}--\r\n", mp.boundary),
        "last frame must be the closing delimiter"
    );
}

#[test]
fn content_length_matches_multiple_tables() {
    let a = ExternalTable::new("a", "xxx", "c String").ok().unwrap();
    let b = ExternalTable::new("b", "yyyy", "c String").ok().unwrap();
    let mp = build_multipart("SELECT 1", &[a, b]);

    assert_eq!(
        mp.content_length(),
        joined(&mp).len(),
        "Content-Length must equal the concatenated frame bytes"
    );
}

#[test]
fn empty_payload() {
    let table = ExternalTable::new("ext", "", "c String").ok().unwrap();
    let mp = build_multipart("SELECT 1", std::slice::from_ref(&table));

    assert_eq!(&mp.frames[2][..], b"", "payload frame must be empty");
    assert_eq!(
        mp.content_length(),
        joined(&mp).len(),
        "Content-Length must still equal the frame bytes"
    );
}

#[test]
fn boundary_avoids_collision_in_query() {
    let mut query = "SELECT 'v'".to_owned();
    for n in 0..20 {
        query.push_str(&format!(", '--clickhouse-rs-boundary-{n}'"));
        let table = ExternalTable::new("ext", "x", "c String").ok().unwrap();
        let mp = build_multipart(&query, std::slice::from_ref(&table));

        for i in 0..n {
            assert_ne!(
                mp.boundary,
                format!("clickhouse-rs-boundary-{i}"),
                "must have bumped past the boundary colliding with the query"
            );
        }
        assert!(
            !query.contains(&format!("--{}", mp.boundary)),
            "query still contains the chosen boundary"
        );
    }
}

#[test]
fn new_table_has_what_it_was_given() {
    let table = ExternalTable::new("t\u{e4}ble", "1\n", "id UInt64").ok().unwrap();
    assert_eq!(table.name(), "t\u{e4}ble");
    assert_eq!(table.structure(), "id UInt64");
    assert_eq!(table.format_name(), "TabSeparated");
    assert_eq!(DEFAULT_FORMAT, "TabSeparated");

    let named = ExternalTable::new(String::from("t"), vec![1u8, 2], String::from("c UInt8"));
    let named = named.ok().unwrap().with_format(String::from("RowBinary"));
    assert_eq!(named.name(), "t");
    assert_eq!(named.structure(), "c UInt8");
    assert_eq!(named.format_name(), "RowBinary");
    let mp = build_multipart("", std::slice::from_ref(&named));
    assert_eq!(&mp.frames[2][..], &[1u8, 2]);
}

#[test]
fn from_parts_agrees_with_new() {
    let name = String::from("t");
    let structure = String::from("c String");
    let table = ExternalTable::from_parts(name, Bytes::from("x"), structure).ok().unwrap();
    assert_eq!(table.name(), "t");
    assert_eq!(table.structure(), "c String");
    assert_eq!(table.format_name(), "TabSeparated");
    let err = ExternalTable::from_parts(String::new(), Bytes::new(), String::new());
    assert_eq!(
        reason(err.err().unwrap()),
        "external table name must not be empty"
    );
}

#[test]
fn each_refusal_has_its_reason() {
    let empty = ExternalTable::new("", "x", "c String").err().unwrap();
    assert_eq!(reason(empty), "external table name must not be empty");
    for name in ["a\"", "\rb", "a\nb"] {
        let bad = ExternalTable::new(name, "x", "c String").err().unwrap();
        assert_eq!(
            reason(bad),
            "external table name must not contain '\"', CR, or LF"
        );
    }
    for structure in ["", " ", "\t\r\n \u{3000}\u{a0}"] {
        let blank = ExternalTable::new("ext", "x", structure).err().unwrap();
        assert_eq!(reason(blank), "external table structure must not be empty");
    }
    // The name is looked at before the structure.
    let both = ExternalTable::new("", "x", "").err().unwrap();
    assert_eq!(reason(both), "external table name must not be empty");
    let both = ExternalTable::new("\"", "x", "").err().unwrap();
    assert_eq!(
        reason(both),
        "external table name must not contain '\"', CR, or LF"
    );
    // White space round a structure is no reason to refuse it, and is kept.
    let padded = ExternalTable::new("ext", "x", " c String\n").ok().unwrap();
    assert_eq!(padded.structure(), " c String\n");
}

#[test]
fn invalid_carries_its_message() {
    assert_eq!(reason(invalid("no")), "no");
}

#[test]
fn blank_structures_are_those_of_white_space() {
    let mut white = vec!['\u{20}', '\u{85}', '\u{a0}', '\u{1680}'];
    white.extend('\u{9}'..='\u{d}');
    white.extend('\u{2000}'..='\u{200a}');
    white.extend(['\u{2028}', '\u{2029}', '\u{202f}', '\u{205f}', '\u{3000}']);
    for c in '\0'..=char::MAX {
        let refused = ExternalTable::new("ext", "x", String::from(c)).is_err();
        assert_eq!(refused, white.contains(&c), "{:?}", c);
    }
}

#[test]
fn with_format_changes_the_format_alone() {
    let table = ExternalTable::new("ext", "x", "c String").ok().unwrap();
    let other = table.clone().with_format("CSV");
    assert_eq!(other.name(), table.name());
    assert_eq!(other.structure(), table.structure());
    assert_eq!(other.format_name(), "CSV");
    assert_eq!(table.format_name(), "TabSeparated");
    let before = build_multipart("q", std::slice::from_ref(&table));
    let after = build_multipart("q", std::slice::from_ref(&other));
    assert_eq!(joined(&before), joined(&after));
}

#[test]
fn clone_shares_the_payload() {
    let data = Bytes::from(vec![1u8; 100]);
    let table = ExternalTable::new("ext", data.clone(), "c String").ok().unwrap();
    let mp = build_multipart("q", &[table.clone(), table]);
    assert_eq!(mp.frames[2].as_ptr(), data.as_ptr());
    assert_eq!(mp.frames[5].as_ptr(), data.as_ptr());
}

/// A struct with the fields that a table shows.
struct Fields(&'static str, &'static str, &'static str);

impl Debug for Fields {
    fn fmt(&self, f: &mut Formatter<'_>) -> std::fmt::Result {
        f.debug_struct("ExternalTable")
            .field("name", &self.0)
            .field("structure", &self.1)
            .field("format", &self.2)
            .finish_non_exhaustive()
    }
}

#[test]
fn debug_string_leaves_the_payload_out() {
    let table = ExternalTable::new("a\tb", "PAYLOAD", "c String").ok().unwrap().with_format("TSV");
    assert_eq!(
        table.to_debug_string(false),
        "ExternalTable { name: \"a\\tb\", structure: \"c String\", format: \"TSV\", .. }"
    );
    assert_eq!(
        table.to_debug_string(true),
        "ExternalTable {\n    name: \"a\\tb\",\n    structure: \"c String\",\n    \
         format: \"TSV\",\n    ..\n}"
    );
    assert_eq!(
        write_debug("1", "2", "3", false),
        "ExternalTable { name: 1, structure: 2, format: 3, .. }"
    );
    assert_eq!(
        write_debug("1", "2", "3", true),
        "ExternalTable {\n    name: 1,\n    structure: 2,\n    format: 3,\n    ..\n}"
    );
}

#[test]
fn debug_string_is_that_of_a_struct() {
    let texts = ["ext", "a b", "\t'\\", "\u{1f980}\u{e4}\u{7f}", "{}, ..", "x: y,"];
    for name in texts {
        for structure in texts {
            let table = ExternalTable::new(name, "PAYLOAD", structure).ok().unwrap();
            let table = table.with_format("line\nline");
            let fields = Fields(name, structure, "line\nline");
            assert_eq!(table.to_debug_string(false), format!("{fields:?}"));
            assert_eq!(table.to_debug_string(true), format!("{fields:#?}"));
        }
    }
}

#[test]
fn debug_string_does_not_depend_on_the_payload() {
    let a = ExternalTable::new("t", "one", "c String").ok().unwrap();
    let b = ExternalTable::new("t", "", "c String").ok().unwrap();
    assert_eq!(a.to_debug_string(false), b.to_debug_string(false));
    assert_eq!(a.to_debug_string(true), b.to_debug_string(true));
}

#[test]
fn part_headers_are_exact() {
    assert_eq!(
        part_header("B", "query", None),
        "--B\r\nContent-Disposition: form-data; name=\"query\"\r\n\r\n"
    );
    assert_eq!(
        part_header("B", "n", Some("f")),
        "--B\r\nContent-Disposition: form-data; name=\"n\"; filename=\"f\"\r\n\r\n"
    );
}

#[test]
fn whole_body_is_exact() {
    let table = ExternalTable::new("t", "1\n", "c UInt8").ok().unwrap();
    let mp = build_multipart("SELECT 1", std::slice::from_ref(&table));
    assert_eq!(mp.boundary, "clickhouse-rs-boundary-0");
    let expected = "--clickhouse-rs-boundary-0\r\n\
        Content-Disposition: form-data; name=\"query\"\r\n\r\nSELECT 1\r\n\
        --clickhouse-rs-boundary-0\r\n\
        Content-Disposition: form-data; name=\"t\"; filename=\"t\"\r\n\r\n1\n\r\n\
        --clickhouse-rs-boundary-0--\r\n";
    assert_eq!(joined(&mp), expected.as_bytes());
    assert_eq!(mp.content_length(), expected.len());
}

#[test]
fn body_without_tables() {
    let mp = build_multipart("", &[]);
    assert_eq!(mp.frames.len(), 2);
    assert_eq!(
        read(&joined(&mp), &mp.boundary),
        vec![(String::from("query"), None, vec![])]
    );
}

#[test]
fn first_free_number_is_chosen() {
    assert_eq!(pick_boundary("", &[]), "clickhouse-rs-boundary-0");
    // A number stands in a longer number that begins with it.
    let query = "--clickhouse-rs-boundary-0 --clickhouse-rs-boundary-10";
    assert_eq!(pick_boundary(query, &[]), "clickhouse-rs-boundary-2");
    // The boundary without its dashes is no delimiter.
    let query = "-clickhouse-rs-boundary-0";
    assert_eq!(pick_boundary(query, &[]), "clickhouse-rs-boundary-0");
    // Every text counts.
    let a = ExternalTable::new("a", "x--clickhouse-rs-boundary-1y", "c String").ok().unwrap();
    let b = ExternalTable::new("b", "--clickhouse-rs-boundary-2", "c String").ok().unwrap();
    let query = "--clickhouse-rs-boundary-0";
    assert_eq!(pick_boundary(query, &[a, b]), "clickhouse-rs-boundary-3");
}

#[test]
fn numbers_have_as_many_digits_as_they_need() {
    let mut query = String::new();
    for n in 0..12 {
        query.push_str(&format!("--clickhouse-rs-boundary-{n} "));
    }
    assert_eq!(pick_boundary(&query, &[]), "clickhouse-rs-boundary-12");
}

#[test]
fn boundary_number_is_at_most_the_number_of_bytes() {
    let mut query = String::new();
    for n in 0..60 {
        query.push_str(&format!("--clickhouse-rs-boundary-{n}"));
        let boundary = pick_boundary(&query, &[]);
        let number = boundary.strip_prefix("clickhouse-rs-boundary-").unwrap();
        let number: usize = number.parse().unwrap();
        assert_eq!(number, n + 1);
        assert!(number <= query.len());
    }
}

#[test]
fn boundary_depends_on_the_texts_alone() {
    let a = ExternalTable::new("a", "--clickhouse-rs-boundary-0", "c String").ok().unwrap();
    let b = ExternalTable::new("b", "--clickhouse-rs-boundary-0", "d UInt8").ok().unwrap();
    let b = b.with_format("CSV");
    assert_eq!(pick_boundary("q", &[a]), pick_boundary("q", &[b]));
}

#[test]
fn bodies_read_back() {
    let payloads = [
        "",
        "\r\n",
        "\r\n\r\n",
        "--\r\n",
        "--",
        "-",
        "--clickhouse-rs-boundary-0",
        "\r\n--clickhouse-rs-boundary-0--\r\n",
        "--clickhouse-rs-boundary-0\r\nContent-Disposition: form-data; name=\"query\"\r\n\r\nX",
        "--clickhouse-rs-boundary-",
        "\u{1f980}",
    ];
    let names = ["t", "--clickhouse-rs-boundary-1", "; filename=", "t\u{e4}ble ", "--"];
    for query in payloads {
        for payload in payloads {
            for name in names {
                let first = ExternalTable::new(name, payload, "c String").ok().unwrap();
                let second = ExternalTable::new("z", query, "c String").ok().unwrap();
                let mp = build_multipart(query, &[first, second]);
                assert_eq!(
                    read(&joined(&mp), &mp.boundary),
                    vec![
                        (String::from("query"), None, query.as_bytes().to_vec()),
                        (
                            name.to_owned(),
                            Some(name.to_owned()),
                            payload.as_bytes().to_vec()
                        ),
                        (
                            String::from("z"),
                            Some(String::from("z")),
                            query.as_bytes().to_vec()
                        ),
                    ]
                );
                assert_eq!(mp.frames.len(), 8);
            }
        }
    }
}

#[test]
fn payloads_need_not_be_text() {
    let data: Vec<u8> = (0..=255).collect();
    let table = ExternalTable::new("t", data.clone(), "c String").ok().unwrap();
    let mp = build_multipart("q", std::slice::from_ref(&table));
    assert_eq!(read(&joined(&mp), &mp.boundary)[1].2, data);
}

#[test]
fn bodies_cut_at_bare_delimiters() {
    let payloads = ["", "\r\n", "--", "--\r\n", "--clickhouse-rs-boundary-0", "-\r\n-"];
    let names = ["t", "--", "--clickhouse-rs-boundary", "; filename="];
    for query in payloads {
        for payload in payloads {
            for name in names {
                let first = ExternalTable::new(name, payload, "c String").ok().unwrap();
                let second = ExternalTable::new("z", query, "c String").ok().unwrap();
                let mp = build_multipart(query, &[first, second]);
                let body = joined(&mp);
                let delimiter = format!("--{}", mp.boundary);
                let pieces: Vec<&[u8]> = body.split_str(&delimiter).collect();
                let start = "\r\nContent-Disposition: form-data; name=";
                let expected = [
                    String::new(),
                    format!("{start}\"query\"\r\n\r\n{query}\r\n"),
                    format!("{start}\"{name}\"; filename=\"{name}\"\r\n\r\n{payload}\r\n"),
                    format!("{start}\"z\"; filename=\"z\"\r\n\r\n{query}\r\n"),
                    String::from("--\r\n"),
                ];
                assert_eq!(pieces.len(), expected.len());
                for (piece, expected) in pieces.iter().zip(&expected) {
                    assert_eq!(*piece, expected.as_bytes());
                }
            }
        }
    }
}

#[test]
fn delimiter_in_a_name_is_a_bare_delimiter() {
    let table = ExternalTable::new("--clickhouse-rs-boundary-0", "x", "c String").ok().unwrap();
    let mp = build_multipart("q", std::slice::from_ref(&table));
    assert_eq!(mp.boundary, "clickhouse-rs-boundary-0");
    let body = joined(&mp);
    assert_eq!(body.split_str("--clickhouse-rs-boundary-0").count(), 6);
    assert_eq!(read(&body, &mp.boundary).len(), 2);
}

#[test]
fn decimals_are_those_of_std() {
    for n in [0, 1, 9, 10, 11, 99, 100, 101, 1234567890, u128::MAX - 1, u128::MAX] {
        assert_eq!(to_decimal(n), n.to_string());
    }
}
