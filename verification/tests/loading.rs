use dirdiff::dir_csv::{
    docs_from_records, latest_entries, load_csv_entries, load_csv_latest_entries, parse_millis,
};
use dirdiff::docs::{Doc, MovedDoc, RenamedDoc};
use dirdiff::error::{DiffError, ParseError, PreconditionError};
use dirdiff::history::{setup_compare_local, setup_history};

fn doc(hash: &str, name: &str, path: &str, mod_date: u64) -> Doc {
    Doc { hash: hash.to_string(), name: name.to_string(), path: path.to_string(), mod_date }
}

fn row(fields: &[&str]) -> Vec<String> {
    fields.iter().map(|f| f.to_string()).collect()
}

#[test]
fn capture_time_is_decimal_digits() {
    assert_eq!(parse_millis("0"), Some(0));
    assert_eq!(parse_millis("7"), Some(7));
    assert_eq!(parse_millis("1600000000123"), Some(1_600_000_000_123));
    assert_eq!(parse_millis("000123"), Some(123));
    assert_eq!(parse_millis("+42"), Some(42));
    assert_eq!(parse_millis("18446744073709551615"), Some(u64::MAX));
    assert_eq!(parse_millis("00018446744073709551615"), Some(u64::MAX));
}

#[test]
fn capture_time_rejects_everything_else() {
    assert_eq!(parse_millis(""), None);
    assert_eq!(parse_millis("+"), None);
    assert_eq!(parse_millis("-1"), None);
    assert_eq!(parse_millis("++1"), None);
    assert_eq!(parse_millis("1+"), None);
    assert_eq!(parse_millis(" 1"), None);
    assert_eq!(parse_millis("1 "), None);
    assert_eq!(parse_millis("12a"), None);
    assert_eq!(parse_millis("1_000"), None);
    assert_eq!(parse_millis("1.5"), None);
    assert_eq!(parse_millis("0x10"), None);
    assert_eq!(parse_millis("١٢٣"), None);
    assert_eq!(parse_millis("12é"), None);
    assert_eq!(parse_millis("18446744073709551616"), None);
    assert_eq!(parse_millis("18446744073709551620"), None);
    assert_eq!(parse_millis("99999999999999999999999"), None);
}

#[test]
fn capture_time_agrees_with_the_standard_parser() {
    let fields = [
        "0", "1", "+1", "-0", "+0", "", "+", "10", "0010", "18446744073709551615",
        "18446744073709551616", "184467440737095516150", "a", "1a", "a1", "1 ", "９",
    ];
    for f in fields.iter() {
        assert_eq!(parse_millis(f), f.parse::<u64>().ok(), "field {:?}", f);
    }
}

#[test]
fn rows_become_records() {
    let rows = vec![
        row(&["h1", "a.txt", "/d", "1000"]),
        row(&["h2", "b, c.txt", "/d/e", "+2000", "extra"]),
    ];
    assert_eq!(
        docs_from_records(&rows),
        Ok(vec![doc("h1", "a.txt", "/d", 1_000), doc("h2", "b, c.txt", "/d/e", 2_000)])
    );
    assert_eq!(docs_from_records(&Vec::new()), Ok(Vec::new()));
}

#[test]
fn first_faulty_row_is_reported() {
    let rows = vec![
        row(&["h1", "a.txt", "/d", "1000"]),
        row(&["h2", "b.txt", "/d"]),
        row(&["h3", "c.txt", "/d", "soon"]),
    ];
    assert_eq!(docs_from_records(&rows), Err(ParseError::MissingField(1)));
    let rows = vec![
        row(&["h1", "a.txt", "/d", "1000"]),
        row(&["h3", "c.txt", "/d", "soon"]),
        row(&["h2", "b.txt", "/d"]),
    ];
    assert_eq!(docs_from_records(&rows), Err(ParseError::BadTimestamp(1)));
    assert_eq!(docs_from_records(&vec![row(&[])]), Err(ParseError::MissingField(0)));
    assert_eq!(
        docs_from_records(&vec![row(&["", "a.txt", "/d", "1"])]),
        Err(ParseError::MissingField(0))
    );
    assert_eq!(
        docs_from_records(&vec![row(&["h", "", "/d", "1"])]),
        Err(ParseError::MissingField(0))
    );
    assert_eq!(
        docs_from_records(&vec![row(&["h", "a.txt", "", "1"])]),
        Err(ParseError::MissingField(0))
    );
    // a row that lacks a field and has a bad time lacks a field
    assert_eq!(
        docs_from_records(&vec![row(&["", "a.txt", "/d", "x"])]),
        Err(ParseError::MissingField(0))
    );
    assert_eq!(
        docs_from_records(&vec![row(&["h", "a.txt", "/d", ""])]),
        Err(ParseError::BadTimestamp(0))
    );
}

#[test]
fn stored_text_is_read_record_by_record() {
    let data = b"h1,a.txt,/d,1000\nh2,b.txt,/d,1000\nh1,a.txt,/d,2000\n";
    assert_eq!(
        load_csv_entries(data),
        Ok(vec![
            doc("h1", "a.txt", "/d", 1_000),
            doc("h2", "b.txt", "/d", 1_000),
            doc("h1", "a.txt", "/d", 2_000),
        ])
    );
    assert_eq!(load_csv_entries(b""), Ok(Vec::new()));
}

#[test]
fn first_line_is_a_record_and_no_header() {
    let data = b"hash,name,path,17\n";
    assert_eq!(load_csv_entries(data), Ok(vec![doc("hash", "name", "path", 17)]));
}

#[test]
fn quoted_fields_keep_their_delimiters() {
    let data = b"h1,\"a, b.txt\",\"/d/\"\"x\"\"\",1000\r\nh2,\"two\nlines\",/d,2000";
    assert_eq!(
        load_csv_entries(data),
        Ok(vec![doc("h1", "a, b.txt", "/d/\"x\"", 1_000), doc("h2", "two\nlines", "/d", 2_000)])
    );
}

#[test]
fn text_that_is_not_well_formed_is_refused() {
    // records of unequal length
    assert_eq!(
        load_csv_entries(b"h1,a.txt,/d,1000\nh2,b.txt,/d\n"),
        Err(ParseError::Malformed)
    );
    assert_eq!(
        load_csv_entries(b"h1,a.txt,/d,1000\nh2,b.txt,/d,2000,more\n"),
        Err(ParseError::Malformed)
    );
    // bytes that are no text
    assert_eq!(load_csv_entries(b"h1,a\xff.txt,/d,1000\n"), Err(ParseError::Malformed));
}

#[test]
fn faulty_record_in_stored_text_stops_the_load() {
    assert_eq!(load_csv_entries(b"h1,a.txt,/d\nh2,b.txt,/e\n"), Err(ParseError::MissingField(0)));
    assert_eq!(
        load_csv_entries(b"h1,a.txt,/d,1000\nh2,b.txt,/d,12.5\nh3,c.txt,/d,3\n"),
        Err(ParseError::BadTimestamp(1))
    );
    assert_eq!(
        load_csv_entries(b"h1,a.txt,/d,1000\nh2,b.txt,/d,-5\n"),
        Err(ParseError::BadTimestamp(1))
    );
    assert_eq!(
        load_csv_entries(b"h1,a.txt,/d,1000\n,b.txt,/d,5\n"),
        Err(ParseError::MissingField(1))
    );
}

#[test]
fn newest_snapshot_is_kept() {
    let docs = vec![
        doc("h1", "a", "/d", 5),
        doc("h2", "b", "/d", 9),
        doc("h3", "c", "/d", 5),
        doc("h4", "d", "/d", 9),
        doc("h5", "e", "/d", 1),
    ];
    assert_eq!(latest_entries(&docs), Ok(vec![doc("h2", "b", "/d", 9), doc("h4", "d", "/d", 9)]));
    assert_eq!(latest_entries(&vec![doc("h", "a", "/d", 0)]), Ok(vec![doc("h", "a", "/d", 0)]));
    assert_eq!(latest_entries(&Vec::new()), Err(PreconditionError::NoSnapshot));
}

#[test]
fn newest_snapshot_is_loaded_from_stored_text() {
    let data = b"h1,a.txt,/d,1000\nh2,b.txt,/d,3000\nh1,a.txt,/d,2000\nh3,c.txt,/d,3000\n";
    assert_eq!(
        load_csv_latest_entries(data),
        Ok(vec![doc("h2", "b.txt", "/d", 3_000), doc("h3", "c.txt", "/d", 3_000)])
    );
    assert_eq!(
        load_csv_latest_entries(b""),
        Err(DiffError::Precondition(PreconditionError::NoSnapshot))
    );
    assert_eq!(
        load_csv_latest_entries(b"h1,a.txt,/d,now\n"),
        Err(DiffError::Parse(ParseError::BadTimestamp(0)))
    );
    assert_eq!(
        load_csv_latest_entries(b"h1,a.txt,/d,1\nh1\n"),
        Err(DiffError::Parse(ParseError::Malformed))
    );
}

#[test]
fn stored_snapshots_are_compared() {
    let data = b"h0,z.txt,/d,500\n\
h1,a.txt,/d,1000\nh2,b.txt,/d,1000\nh3,c.txt,/d1,1000\nh4,d.txt,/d,1000\n\
h1,a.txt,/d,2000\nh2,b2.txt,/d,2000\nh3,c.txt,/d2,2000\nh5,e.txt,/d,2000\n";
    let rs = setup_history(data).unwrap();
    assert_eq!(rs.revisions, vec![2_000, 1_000, 500]);
    assert_eq!(rs.unchanged, 1);
    assert_eq!(
        rs.renamed,
        vec![RenamedDoc { doc: doc("h2", "b.txt", "/d", 1_000), new_name: "b2.txt".to_string() }]
    );
    assert_eq!(
        rs.moved,
        vec![MovedDoc { doc: doc("h3", "c.txt", "/d1", 1_000), dest_path: "/d2".to_string() }]
    );
    assert_eq!(rs.added, vec![doc("h5", "e.txt", "/d", 2_000)]);
    assert_eq!(rs.missing, vec![doc("h4", "d.txt", "/d", 1_000)]);
}

#[test]
fn stored_snapshots_that_cannot_be_compared() {
    assert_eq!(
        setup_history(b"").unwrap_err(),
        DiffError::Precondition(PreconditionError::NoSnapshot)
    );
    assert_eq!(
        setup_history(b"h1,a.txt,/d,1000\nh2,b.txt,/d,1000\n").unwrap_err(),
        DiffError::Precondition(PreconditionError::SingleSnapshot)
    );
    assert_eq!(
        setup_history(b"h1,a.txt,/d,1000\nh2,b.txt,/d,x\n").unwrap_err(),
        DiffError::Parse(ParseError::BadTimestamp(1))
    );
    assert_eq!(
        setup_history(b"h1,a.txt,/d,1000\nh2,b.txt\n").unwrap_err(),
        DiffError::Parse(ParseError::Malformed)
    );
    assert_eq!(
        setup_history(b"h1,a.txt\n").unwrap_err(),
        DiffError::Parse(ParseError::MissingField(0))
    );
}

#[test]
fn two_stores_are_compared_by_their_newest_snapshots() {
    let first = b"h1,a.txt,/d,100\nh9,old.txt,/d,100\nh1,a.txt,/d,1000\nh2,b.txt,/d,1000\n";
    let second = b"h1,a.txt,/d,2000\nh2,b.txt,/e,2000\nh3,c.txt,/d,2000\n";
    let rs = setup_compare_local(first, second).unwrap();
    assert_eq!((rs.latest, rs.previous), (2_000, 1_000));
    assert_eq!(rs.revisions, vec![2_000, 1_000]);
    assert_eq!(rs.unchanged, 1);
    assert!(rs.renamed.is_empty());
    assert_eq!(
        rs.moved,
        vec![MovedDoc { doc: doc("h2", "b.txt", "/d", 1_000), dest_path: "/e".to_string() }]
    );
    assert_eq!(rs.added, vec![doc("h3", "c.txt", "/d", 2_000)]);
    assert!(rs.missing.is_empty());

    // the store with the older snapshot is the previous one, whichever comes first
    let rs = setup_compare_local(second, first).unwrap();
    assert_eq!((rs.latest, rs.previous), (2_000, 1_000));
    assert_eq!(rs.added, vec![doc("h3", "c.txt", "/d", 2_000)]);
}

#[test]
fn two_stores_that_cannot_be_compared() {
    let good = b"h1,a.txt,/d,1000\n";
    assert_eq!(
        setup_compare_local(b"", good).unwrap_err(),
        DiffError::Precondition(PreconditionError::NoSnapshot)
    );
    assert_eq!(
        setup_compare_local(good, b"").unwrap_err(),
        DiffError::Precondition(PreconditionError::NoSnapshot)
    );
    assert_eq!(
        setup_compare_local(b"h1,a.txt,/d,x\n", b"h1\n").unwrap_err(),
        DiffError::Parse(ParseError::BadTimestamp(0))
    );
    assert_eq!(
        setup_compare_local(good, b"h1\n").unwrap_err(),
        DiffError::Parse(ParseError::MissingField(0))
    );
    // two snapshots taken in the same millisecond cannot be told apart
    assert_eq!(
        setup_compare_local(good, b"h2,b.txt,/d,1000\n").unwrap_err(),
        DiffError::Precondition(PreconditionError::SingleSnapshot)
    );
}
