//! Capturing a snapshot from the files of a tree, and reading stored
//! snapshots back.
//!
//! A stored record is one line of delimited text with four fields: the
//! content hash, the file name, the directory, and the capture time of the
//! snapshot in milliseconds. There is no header line.

use vstd::prelude::*;
use sha1::Digest;
use crate::db::{has_date, of_snapshot, records_of_snapshot};
use crate::docs::{doc_views, Doc, DocView};
use crate::error::{DiffError, ParseError, PreconditionError};

verus! {

/// The digest that `Sha1::digest` of the `sha1` crate gives for `data`: its
/// SHA-1 hash, twenty bytes long.
pub uninterp spec fn sha1_of(data: Seq<u8>) -> Seq<u8>;

/// The records that the `csv` crate reads from `data` as text without a
/// header line, each record as the list of its fields; `None` where it
/// reports an error on some record.
pub uninterp spec fn csv_rows(data: Seq<u8>) -> Option<Seq<Seq<Seq<char>>>>;

/// The error of the `csv` crate. Nothing is read from it: a text on which the
/// reader reports one is not well-formed.
#[verifier::external_type_specification]
#[verifier::external_body]
pub struct ExCsvError(csv::Error);

/// The lower-case hexadecimal digit of a value below sixteen.
pub open spec fn hex_digit(n: int) -> char {
    seq!['0', '1', '2', '3', '4', '5', '6', '7', '8', '9', 'a', 'b', 'c', 'd', 'e', 'f'][n]
}

/// The lower-case hexadecimal text of `bytes`: two digits for each byte, the
/// high half first.
pub open spec fn hex_lower(bytes: Seq<u8>) -> Seq<char> {
    Seq::new(
        2 * bytes.len(),
        |k: int|
            hex_digit(
                if k % 2 == 0 {
                    bytes[k / 2] as int / 16
                } else {
                    bytes[k / 2] as int % 16
                },
            ),
    )
}

/// Calls `Sha1::digest` of the `sha1` crate. The contract names the digest
/// and states its length, twenty bytes; the input is kept below 2^61 bytes,
/// where the bit count of the message still fits in 64 bits.
#[verifier::external_body]
fn sha1_digest(data: &[u8]) -> (digest: Vec<u8>)
    requires
        data@.len() < 0x2000_0000_0000_0000,
    ensures
        digest@ == sha1_of(data@),
        digest@.len() == 20,
{
    sha1::Sha1::digest(data).to_vec()
}

/// Calls `hex::encode`. The contract states the text that it returns: for
/// each byte two lower-case hexadecimal digits, the high half first.
#[verifier::external_body]
fn hex_encode(bytes: &[u8]) -> (text: String)
    requires
        2 * bytes@.len() <= isize::MAX,
    ensures
        text@ == hex_lower(bytes@),
{
    hex::encode(bytes)
}

/// Reads `data` with a `csv::Reader` built without a header line, through
/// `Reader::records`, up to the first error. The contract names what was
/// read: the fields of every record on success, and an error exactly where
/// the reader reports one.
#[verifier::external_body]
fn read_records(data: &[u8]) -> (outcome: Result<Vec<Vec<String>>, csv::Error>)
    ensures
        match outcome {
            Ok(rows) => csv_rows(data@) == Some(rows.deep_view()),
            Err(_) => csv_rows(data@) is None,
        },
{
    let mut reader = csv::ReaderBuilder::new().has_headers(false).from_reader(data);
    let mut rows: Vec<Vec<String>> = Vec::new();
    for record in reader.records() {
        rows.push(record?.iter().map(String::from).collect());
    }
    Ok(rows)
}

/// Whether a file name marks a hidden entry: it starts with a dot.
pub open spec fn hidden(name: Seq<char>) -> bool {
    name.len() > 0 && name[0] == '.'
}

/// Whether the entry of this name is hidden.
pub fn is_hidden(name: &str) -> (yes: bool)
    ensures
        yes == hidden(name@),
{
    !name.is_empty() && name.get_char(0) == '.'
}

/// One entry that a walk of a tree came upon: a directory, or a file with
/// its content.
#[derive(Debug)]
pub struct WalkEntry {
    /// The last component of the entry's path.
    pub name: String,
    /// The directory that holds the entry.
    pub parent: String,
    pub is_dir: bool,
    /// The bytes of a file; of no account for a directory.
    pub data: Vec<u8>,
}

/// What a [`WalkEntry`] holds, as mathematical values.
pub ghost struct WalkEntryView {
    pub name: Seq<char>,
    pub parent: Seq<char>,
    pub is_dir: bool,
    pub data: Seq<u8>,
}

impl View for WalkEntry {
    type V = WalkEntryView;

    open spec fn view(&self) -> WalkEntryView {
        WalkEntryView {
            name: self.name@,
            parent: self.parent@,
            is_dir: self.is_dir,
            data: self.data@,
        }
    }
}

/// The views of a list of entries, in order.
pub open spec fn entry_views(entries: Seq<WalkEntry>) -> Seq<WalkEntryView> {
    entries.map_values(|e: WalkEntry| e@)
}

/// Whether an entry gives a record: it is a file, and not hidden.
pub open spec fn recorded(e: WalkEntryView) -> bool {
    !e.is_dir && !hidden(e.name)
}

/// The record of a file whose content has the digest `digest`.
pub open spec fn digest_doc(
    digest: Seq<u8>,
    name: Seq<char>,
    parent: Seq<char>,
    mod_date: u64,
) -> DocView {
    DocView { hash: hex_lower(digest), name: name, path: parent, mod_date: mod_date }
}

/// The record of a file entry in the snapshot taken at `mod_date`.
pub open spec fn entry_doc(e: WalkEntryView, mod_date: u64) -> DocView {
    digest_doc(sha1_of(e.data), e.name, e.parent, mod_date)
}

/// The snapshot that a walk gives at `mod_date`: one record for each file
/// that is not hidden, in the order of the walk.
pub open spec fn captured(entries: Seq<WalkEntryView>, mod_date: u64) -> Seq<DocView> {
    entries.filter(|e: WalkEntryView| recorded(e)).map_values(
        |e: WalkEntryView| entry_doc(e, mod_date),
    )
}

/// Makes the record of a file from the digest of its content.
pub fn file_doc(digest: &[u8], name: &str, parent: &str, mod_date: u64) -> (doc: Doc)
    requires
        2 * digest@.len() <= isize::MAX,
    ensures
        doc@ == digest_doc(digest@, name@, parent@, mod_date),
{
    Doc {
        hash: hex_encode(digest),
        name: name.to_owned(),
        path: parent.to_owned(),
        mod_date,
    }
}

/// Makes the snapshot of a walk: hashes every file that is not hidden and
/// stamps all records with `mod_date`. Directories and hidden entries give no
/// record.
pub fn gen_dir_struct(entries: &Vec<WalkEntry>, mod_date: u64) -> (docs: Vec<Doc>)
    requires
        forall|i: int|
            0 <= i < entries.len() ==> (#[trigger] entries[i]).data@.len() < 0x2000_0000_0000_0000,
    ensures
        doc_views(docs@) == captured(entry_views(entries@), mod_date),
        forall|i: int| 0 <= i < docs.len() ==> (#[trigger] docs[i]).hash@.len() == 40,
{
    let ghost all = entry_views(entries@);
    let ghost wanted = |e: WalkEntryView| recorded(e);
    let ghost to_doc = |e: WalkEntryView| entry_doc(e, mod_date);
    let mut docs: Vec<Doc> = Vec::new();
    let mut i: usize = 0;
    proof {
        reveal(Seq::filter);
        assert(all.take(0) =~= Seq::<WalkEntryView>::empty());
        assert(doc_views(docs@) =~= all.take(0).filter(wanted).map_values(to_doc));
    }
    while i < entries.len()
        invariant
            0 <= i <= entries.len(),
            all == entry_views(entries@),
            wanted == (|e: WalkEntryView| recorded(e)),
            to_doc == (|e: WalkEntryView| entry_doc(e, mod_date)),
            doc_views(docs@) == all.take(i as int).filter(wanted).map_values(to_doc),
            forall|k: int| 0 <= k < docs.len() ==> (#[trigger] docs[k]).hash@.len() == 40,
            forall|k: int|
                0 <= k < entries.len() ==> (#[trigger] entries[k]).data@.len()
                    < 0x2000_0000_0000_0000,
        decreases entries.len() - i,
    {
        let ghost before = doc_views(docs@);
        let entry = &entries[i];
        proof {
            reveal(Seq::filter);
            assert(all.take(i + 1).drop_last() =~= all.take(i as int));
            assert(all.take(i + 1).last() == entry@);
        }
        if !entry.is_dir && !is_hidden(entry.name.as_str()) {
            let digest = sha1_digest(entry.data.as_slice());
            let doc = file_doc(digest.as_slice(), entry.name.as_str(), entry.parent.as_str(), mod_date);
            docs.push(doc);
            assert(doc_views(docs@) =~= before.push(entry_doc(entry@, mod_date)));
            assert(all.take(i + 1).filter(wanted).map_values(to_doc) =~= all.take(
                i as int,
            ).filter(wanted).map_values(to_doc).push(to_doc(entry@)));
        }
        i += 1;
    }
    assert(all.take(entries.len() as int) =~= all);
    docs
}

/// Whether `c` is a decimal digit.
pub open spec fn is_digit(c: char) -> bool {
    '0' <= c <= '9'
}

/// The number that a text of decimal digits writes.
pub open spec fn decimal(digits: Seq<char>) -> nat
    decreases digits.len(),
{
    if digits.len() == 0 {
        0
    } else {
        (decimal(digits.drop_last()) * 10 + (digits.last() as u32 - '0' as u32)) as nat
    }
}

/// A field without its leading `+`, where it has one.
pub open spec fn unsigned(field: Seq<char>) -> Seq<char> {
    if field.len() > 0 && field[0] == '+' {
        field.skip(1)
    } else {
        field
    }
}

/// The capture time that a field writes: an optional `+`, then at least one
/// decimal digit and nothing else, with a value that fits in 64 bits. `None`
/// for any other field.
pub open spec fn millis_of(field: Seq<char>) -> Option<u64> {
    let digits = unsigned(field);
    if digits.len() > 0 && (forall|i: int| 0 <= i < digits.len() ==> is_digit(#[trigger] digits[i]))
        && decimal(digits) <= u64::MAX {
        Some(decimal(digits) as u64)
    } else {
        None
    }
}

proof fn lemma_decimal_grows(digits: Seq<char>, n: int)
    requires
        0 <= n <= digits.len(),
        forall|i: int| 0 <= i < digits.len() ==> is_digit(#[trigger] digits[i]),
    ensures
        decimal(digits.take(n)) <= decimal(digits),
    decreases digits.len() - n,
{
    if n == digits.len() {
        assert(digits.take(n) =~= digits);
    } else {
        lemma_decimal_grows(digits, n + 1);
        assert(digits.take(n + 1).drop_last() =~= digits.take(n));
        assert(is_digit(digits[n]));
    }
}

/// Reads the capture time that a field writes.
pub fn parse_millis(field: &str) -> (millis: Option<u64>)
    ensures
        millis == millis_of(field@),
{
    broadcast use vstd::string::is_ascii_spec_bytes;

    if !field.is_ascii() {
        proof {
            let i = choose|i: int|
                0 <= i < field@.len() && !('\0' <= #[trigger] field@[i] <= '\u{7f}');
            if i == 0 {
                assert(unsigned(field@) =~= field@);
            } else if field@[0] == '+' {
                assert(unsigned(field@)[i - 1] == field@[i]);
            }
            assert(!is_digit(field@[i]));
        }
        return None;
    }
    let bytes = field.as_bytes();
    let ghost digits = unsigned(field@);
    let n = bytes.len();
    assert(n == field@.len());
    assert(forall|k: int| 0 <= k < n ==> bytes@[k] == #[trigger] field@[k] as u8);
    let start: usize = if n > 0 && bytes[0] == 43 {
        1
    } else {
        0
    };
    assert(digits =~= field@.skip(start as int));
    if start == n {
        return None;
    }
    let mut value: u64 = 0;
    let mut i: usize = start;
    assert(digits.take(0) =~= Seq::<char>::empty());
    while i < n
        invariant
            start <= i <= n,
            n == bytes@.len(),
            n == field@.len(),
            digits == field@.skip(start as int),
            digits == unsigned(field@),
            forall|k: int| 0 <= k < n ==> bytes@[k] == #[trigger] field@[k] as u8,
            forall|k: int| 0 <= k < n ==> '\0' <= #[trigger] field@[k] <= '\u{7f}',
            forall|k: int| 0 <= k < i - start ==> is_digit(#[trigger] digits[k]),
            value == decimal(digits.take(i - start)),
        decreases n - i,
    {
        let b = bytes[i];
        assert(digits[i - start] == field@[i as int]);
        if b < 48 || b > 57 {
            assert(!is_digit(digits[i - start]));
            return None;
        }
        let d: u64 = (b - 48) as u64;
        assert(digits.take(i - start + 1).drop_last() =~= digits.take(i - start));
        assert(decimal(digits.take(i - start + 1)) == value * 10 + d);
        if value > (u64::MAX - d) / 10 {
            proof {
                if forall|k: int| 0 <= k < digits.len() ==> is_digit(#[trigger] digits[k]) {
                    lemma_decimal_grows(digits, i - start + 1);
                }
            }
            return None;
        }
        value = value * 10 + d;
        i += 1;
    }
    assert(digits.take(n - start) =~= digits);
    Some(value)
}

/// Whether a row lacks its hash, its name or its directory: it has fewer than
/// four fields, or one of the first three is empty.
pub open spec fn lacks_field(row: Seq<Seq<char>>) -> bool {
    row.len() < 4 || row[0].len() == 0 || row[1].len() == 0 || row[2].len() == 0
}

/// What is wrong with the record at position `at`, if anything: it lacks a
/// field, or its fourth field writes no capture time.
pub open spec fn record_fault(row: Seq<Seq<char>>, at: int) -> Option<ParseError> {
    if lacks_field(row) {
        Some(ParseError::MissingField(at as usize))
    } else if millis_of(row[3]) is None {
        Some(ParseError::BadTimestamp(at as usize))
    } else {
        None
    }
}

/// The record that the fields of a faultless row give. Fields after the
/// fourth are of no account.
pub open spec fn record_doc(row: Seq<Seq<char>>) -> DocView {
    DocView { hash: row[0], name: row[1], path: row[2], mod_date: millis_of(row[3]).unwrap() }
}

/// The records that the rows give, or the fault of the first faulty row.
pub open spec fn parsed(rows: Seq<Seq<Seq<char>>>) -> Result<Seq<DocView>, ParseError>
    decreases rows.len(),
{
    if rows.len() == 0 {
        Ok(Seq::empty())
    } else {
        match parsed(rows.drop_last()) {
            Err(e) => Err(e),
            Ok(docs) => match record_fault(rows.last(), rows.len() - 1) {
                Some(e) => Err(e),
                None => Ok(docs.push(record_doc(rows.last()))),
            },
        }
    }
}

/// The records loaded from what was read of a text: nothing where the text
/// could not be read.
pub open spec fn loaded(read: Option<Seq<Seq<Seq<char>>>>) -> Result<Seq<DocView>, ParseError> {
    match read {
        None => Err(ParseError::Malformed),
        Some(rows) => parsed(rows),
    }
}

/// The views of the records of an outcome.
pub open spec fn outcome_views<E>(outcome: Result<Vec<Doc>, E>) -> Result<Seq<DocView>, E> {
    match outcome {
        Ok(docs) => Ok(doc_views(docs@)),
        Err(e) => Err(e),
    }
}

/// What [`parsed`] gives: one record for each row where no row is faulty;
/// else the fault of the first faulty row.
pub proof fn lemma_parsed(rows: Seq<Seq<Seq<char>>>)
    ensures
        match parsed(rows) {
            Ok(docs) => {
                &&& docs.len() == rows.len()
                &&& forall|i: int|
                    0 <= i < rows.len() ==> record_fault(#[trigger] rows[i], i) is None && docs[i]
                        == record_doc(rows[i])
            },
            Err(e) => exists|i: int|
                {
                    &&& 0 <= i < rows.len()
                    &&& record_fault(#[trigger] rows[i], i) == Some(e)
                    &&& forall|k: int| 0 <= k < i ==> record_fault(#[trigger] rows[k], k) is None
                },
        },
    decreases rows.len(),
{
    if rows.len() > 0 {
        let front = rows.drop_last();
        lemma_parsed(front);
        match parsed(front) {
            Err(e) => {
                let i = choose|i: int|
                    {
                        &&& 0 <= i < front.len()
                        &&& record_fault(#[trigger] front[i], i) == Some(e)
                        &&& forall|k: int|
                            0 <= k < i ==> record_fault(#[trigger] front[k], k) is None
                    };
                assert(rows[i] == front[i]);
                assert forall|k: int| 0 <= k < i implies record_fault(
                    #[trigger] rows[k],
                    k,
                ) is None by {
                    assert(rows[k] == front[k]);
                }
            },
            Ok(docs) => {
                assert forall|k: int| 0 <= k < front.len() implies record_fault(
                    #[trigger] rows[k],
                    k,
                ) is None && docs[k] == record_doc(rows[k]) by {
                    assert(rows[k] == front[k]);
                }
                if record_fault(rows.last(), rows.len() - 1) is Some {
                    assert(rows[rows.len() - 1] == rows.last());
                }
            },
        }
    }
}

/// Makes records of rows of fields: of each row the hash, the name, the
/// directory and the capture time, in this order. Stops at the first faulty
/// row and reports its fault.
pub fn docs_from_records(rows: &Vec<Vec<String>>) -> (outcome: Result<Vec<Doc>, ParseError>)
    ensures
        outcome_views(outcome) == parsed(rows.deep_view()),
{
    let ghost all = rows.deep_view();
    let mut docs: Vec<Doc> = Vec::new();
    let mut i: usize = 0;
    assert(all.take(0) =~= Seq::<Seq<Seq<char>>>::empty());
    assert(doc_views(docs@) =~= Seq::<DocView>::empty());
    while i < rows.len()
        invariant
            0 <= i <= rows.len(),
            all == rows.deep_view(),
            parsed(all.take(i as int)) == Ok::<Seq<DocView>, ParseError>(doc_views(docs@)),
        decreases rows.len() - i,
    {
        let ghost before = doc_views(docs@);
        let row = &rows[i];
        proof {
            assert(all.take(i + 1).drop_last() =~= all.take(i as int));
            assert(all.take(i + 1).last() == row.deep_view());
            assert(row.deep_view().len() == row.len());
            assert(forall|k: int| 0 <= k < row.len() ==> row.deep_view()[k] == row@[k]@);
            assert(forall|m: int| i < m <= all.len() ==> (#[trigger] all.take(m)).drop_last() =~= all.take(m - 1));
        }
        if row.len() < 4 || row[0].as_str().is_empty() || row[1].as_str().is_empty()
            || row[2].as_str().is_empty() {
            proof {
                lemma_fault_stays(all, i + 1, ParseError::MissingField(i));
            }
            return Err(ParseError::MissingField(i));
        }
        match parse_millis(row[3].as_str()) {
            None => {
                proof {
                    lemma_fault_stays(all, i + 1, ParseError::BadTimestamp(i));
                }
                return Err(ParseError::BadTimestamp(i));
            },
            Some(mod_date) => {
                docs.push(
                    Doc {
                        hash: row[0].clone(),
                        name: row[1].clone(),
                        path: row[2].clone(),
                        mod_date,
                    },
                );
                assert(doc_views(docs@) =~= before.push(record_doc(row.deep_view())));
            },
        }
        i += 1;
    }
    assert(all.take(rows.len() as int) =~= all);
    Ok(docs)
}

proof fn lemma_fault_stays(rows: Seq<Seq<Seq<char>>>, n: int, e: ParseError)
    requires
        0 <= n <= rows.len(),
        parsed(rows.take(n)) == Err::<Seq<DocView>, ParseError>(e),
    ensures
        parsed(rows) == Err::<Seq<DocView>, ParseError>(e),
    decreases rows.len() - n,
{
    if n == rows.len() {
        assert(rows.take(n) =~= rows);
    } else {
        assert(rows.take(n + 1).drop_last() =~= rows.take(n));
        lemma_fault_stays(rows, n + 1, e);
    }
}

/// Reads the records stored in `data`. Fails where the text is not
/// well-formed, and on the first record with a fault: no record is skipped.
pub fn load_csv_entries(data: &[u8]) -> (outcome: Result<Vec<Doc>, ParseError>)
    ensures
        outcome_views(outcome) == loaded(csv_rows(data@)),
{
    match read_records(data) {
        Err(_) => Err(ParseError::Malformed),
        Ok(rows) => docs_from_records(&rows),
    }
}

/// The newest snapshot of a list of records; zero for no record.
pub open spec fn newest(docs: Seq<DocView>) -> u64
    decreases docs.len(),
{
    if docs.len() == 0 {
        0
    } else if docs.last().mod_date > newest(docs.drop_last()) {
        docs.last().mod_date
    } else {
        newest(docs.drop_last())
    }
}

/// The newest snapshot of some records is the snapshot of one of them, and
/// none of them belongs to a later one.
pub proof fn lemma_newest(docs: Seq<DocView>)
    requires
        docs.len() > 0,
    ensures
        has_date(docs, newest(docs)),
        forall|k: int| 0 <= k < docs.len() ==> (#[trigger] docs[k]).mod_date <= newest(docs),
    decreases docs.len(),
{
    let front = docs.drop_last();
    let last = docs.len() - 1;
    assert(docs[last] == docs.last());
    if front.len() > 0 {
        lemma_newest(front);
        let m = choose|m: int| 0 <= m < front.len() && (#[trigger] front[m]).mod_date == newest(front);
        assert(docs[m] == front[m]);
        assert forall|k: int| 0 <= k < docs.len() implies (#[trigger] docs[k]).mod_date <= newest(
            docs,
        ) by {
            if k < front.len() {
                assert(docs[k] == front[k]);
            }
        }
        if docs.last().mod_date > newest(front) {
            assert(docs[last].mod_date == newest(docs));
        } else {
            assert(docs[m].mod_date == newest(docs));
        }
    } else {
        assert(newest(front) == 0);
        assert(docs[last].mod_date == newest(docs));
    }
}

/// The records of the newest snapshot; a failure where there is no record.
pub open spec fn latest_of(docs: Seq<DocView>) -> Result<Seq<DocView>, PreconditionError> {
    if docs.len() == 0 {
        Err(PreconditionError::NoSnapshot)
    } else {
        Ok(of_snapshot(docs, newest(docs)))
    }
}

/// The records of the newest snapshot loaded from what was read of a text.
pub open spec fn loaded_latest(read: Option<Seq<Seq<Seq<char>>>>) -> Result<
    Seq<DocView>,
    DiffError,
> {
    match loaded(read) {
        Err(e) => Err(DiffError::Parse(e)),
        Ok(docs) => match latest_of(docs) {
            Err(e) => Err(DiffError::Precondition(e)),
            Ok(latest) => Ok(latest),
        },
    }
}

/// Keeps the records of the newest snapshot, in their order. Fails where
/// there is no record.
pub fn latest_entries(docs: &Vec<Doc>) -> (outcome: Result<Vec<Doc>, PreconditionError>)
    ensures
        outcome_views(outcome) == latest_of(doc_views(docs@)),
{
    if docs.len() == 0 {
        return Err(PreconditionError::NoSnapshot);
    }
    let ghost all = doc_views(docs@);
    let mut latest: u64 = 0;
    let mut i: usize = 0;
    while i < docs.len()
        invariant
            0 <= i <= docs.len(),
            all == doc_views(docs@),
            latest == newest(all.take(i as int)),
        decreases docs.len() - i,
    {
        proof {
            assert(all.take(i + 1).drop_last() =~= all.take(i as int));
            assert(all.take(i + 1).last().mod_date == docs@[i as int].mod_date);
        }
        if docs[i].mod_date > latest {
            latest = docs[i].mod_date;
        }
        i += 1;
    }
    assert(all.take(docs.len() as int) =~= all);
    Ok(records_of_snapshot(docs, latest))
}

/// Reads the records stored in `data` and keeps those of the newest
/// snapshot. Fails as [`load_csv_entries`] does, and where no record is
/// stored.
pub fn load_csv_latest_entries(data: &[u8]) -> (outcome: Result<Vec<Doc>, DiffError>)
    ensures
        outcome_views(outcome) == loaded_latest(csv_rows(data@)),
{
    match load_csv_entries(data) {
        Err(e) => Err(DiffError::Parse(e)),
        Ok(docs) => match latest_entries(&docs) {
            Err(e) => Err(DiffError::Precondition(e)),
            Ok(latest) => Ok(latest),
        },
    }
}

} // verus!
