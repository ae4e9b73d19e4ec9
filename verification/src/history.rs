//! The comparison of the two newest snapshots of a store.

use vstd::prelude::*;
use crate::db::{
    added_files,
    after_phase,
    create_dir_entries_table,
    get_doclist_from_table,
    has_date,
    is_revision_index,
    load_to_local_sqlite,
    load_working_table,
    make_local_sqlite,
    missing_files,
    moved_entries,
    moved_files,
    of_either,
    of_snapshot,
    phase,
    remove_moved,
    remove_renamed,
    remove_unchanged_from_working_table,
    renamed_entries,
    renamed_files,
    revision_millis,
    setup_working_tables,
    Tables,
};
use crate::docs::{
    doc_views,
    moved_views,
    renamed_views,
    Doc,
    DocView,
    MovedDoc,
    MovedDocView,
    RenamedDoc,
    RenamedDocView,
};
use crate::dir_csv::{
    csv_rows,
    load_csv_entries,
    load_csv_latest_entries,
    loaded,
    loaded_latest,
};
use crate::error::{DiffError, PreconditionError};
use crate::matching::sides;
use crate::rules::Rule;

verus! {

/// What a comparison found.
///
/// `renamed`, `moved`, `added` and `missing` are the four reports. Unchanged
/// files are counted and not listed. The remaining fields record the course
/// of the comparison: the snapshots of the store, the two that were compared,
/// the working set as it was loaded and as each pairing phase left it.
#[derive(Debug)]
pub struct ResultSet {
    pub revisions: Vec<u64>,
    pub latest: u64,
    pub previous: u64,
    pub seeded: Vec<Doc>,
    pub unchanged: usize,
    pub after_unchanged: Vec<Doc>,
    pub renamed: Vec<RenamedDoc>,
    pub after_renamed: Vec<Doc>,
    pub moved: Vec<MovedDoc>,
    pub after_moved: Vec<Doc>,
    pub added: Vec<Doc>,
    pub missing: Vec<Doc>,
}

/// What a [`ResultSet`] holds, as mathematical values.
pub ghost struct ResultSetView {
    pub revisions: Seq<u64>,
    pub latest: u64,
    pub previous: u64,
    pub seeded: Seq<DocView>,
    pub unchanged: nat,
    pub after_unchanged: Seq<DocView>,
    pub renamed: Seq<RenamedDocView>,
    pub after_renamed: Seq<DocView>,
    pub moved: Seq<MovedDocView>,
    pub after_moved: Seq<DocView>,
    pub added: Seq<DocView>,
    pub missing: Seq<DocView>,
}

impl View for ResultSet {
    type V = ResultSetView;

    open spec fn view(&self) -> ResultSetView {
        ResultSetView {
            revisions: self.revisions@,
            latest: self.latest,
            previous: self.previous,
            seeded: doc_views(self.seeded@),
            unchanged: self.unchanged as nat,
            after_unchanged: doc_views(self.after_unchanged@),
            renamed: renamed_views(self.renamed@),
            after_renamed: doc_views(self.after_renamed@),
            moved: moved_views(self.moved@),
            after_moved: doc_views(self.after_moved@),
            added: doc_views(self.added@),
            missing: doc_views(self.missing@),
        }
    }
}

/// Whether the records of `dir` belong to at least two snapshots.
pub open spec fn has_two_revisions(dir: Seq<DocView>) -> bool {
    exists|i: int, k: int|
        0 <= i < dir.len() && 0 <= k < dir.len() && (#[trigger] dir[i]).mod_date != (
        #[trigger] dir[k]).mod_date
}

/// Whether `rs` is the comparison of the two newest snapshots of `dir`.
///
/// The working set is loaded with the records of these two snapshots. The
/// unchanged phase runs on it, the rename phase on what that leaves, the move
/// phase on what the rename phase leaves. Of what is left then, the records of
/// the newest snapshot were added and those of the one before are missing.
pub open spec fn classified(dir: Seq<DocView>, rs: ResultSetView) -> bool {
    &&& is_revision_index(dir, rs.revisions)
    &&& rs.revisions.len() >= 2
    &&& rs.latest == rs.revisions[0]
    &&& rs.previous == rs.revisions[1]
    &&& rs.seeded == of_either(dir, rs.latest, rs.previous)
    &&& rs.unchanged == phase(Rule::Unchanged, rs.seeded, rs.latest, rs.previous).pairs.len()
    &&& rs.after_unchanged == after_phase(Rule::Unchanged, rs.seeded, rs.latest, rs.previous)
    &&& rs.renamed == renamed_entries(
        phase(Rule::Renamed, rs.after_unchanged, rs.latest, rs.previous).pairs,
    )
    &&& rs.after_renamed == after_phase(Rule::Renamed, rs.after_unchanged, rs.latest, rs.previous)
    &&& rs.moved == moved_entries(
        phase(Rule::Moved, rs.after_renamed, rs.latest, rs.previous).pairs,
    )
    &&& rs.after_moved == after_phase(Rule::Moved, rs.after_renamed, rs.latest, rs.previous)
    &&& rs.added == of_snapshot(rs.after_moved, rs.latest)
    &&& rs.missing == of_snapshot(rs.after_moved, rs.previous)
}

/// Whether `outcome` is what the comparison of the two newest snapshots of
/// `dir` gives: the comparison where there are two snapshots, and else the
/// failure that says whether there is one or none.
pub open spec fn compared(dir: Seq<DocView>, outcome: Result<ResultSet, PreconditionError>) -> bool {
    match outcome {
        Ok(rs) => has_two_revisions(dir) && classified(dir, rs@),
        Err(e) => !has_two_revisions(dir) && (e == PreconditionError::NoSnapshot <==> dir.len()
            == 0),
    }
}

/// Whether `outcome` is what the comparison of stored records gives, where
/// `read` is what loading them gave: the failure of the loading, or else the
/// comparison of the records loaded.
pub open spec fn compared_stored(
    read: Result<Seq<DocView>, DiffError>,
    outcome: Result<ResultSet, DiffError>,
) -> bool {
    match read {
        Err(e) => outcome matches Err(x) && x == e,
        Ok(dir) => match outcome {
            Ok(rs) => compared(dir, Ok(rs)),
            Err(DiffError::Precondition(e)) => compared(dir, Err(e)),
            Err(DiffError::Parse(_)) => false,
        },
    }
}

/// What loading for [`setup_history`] gives: every stored record.
pub open spec fn read_all(read: Option<Seq<Seq<Seq<char>>>>) -> Result<Seq<DocView>, DiffError> {
    match loaded(read) {
        Err(e) => Err(DiffError::Parse(e)),
        Ok(dir) => Ok(dir),
    }
}

/// What loading for [`setup_compare_local`] gives: the newest snapshot of
/// the first store, then the newest snapshot of the second. A failure of the
/// first store goes before one of the second.
pub open spec fn read_both(
    first: Option<Seq<Seq<Seq<char>>>>,
    second: Option<Seq<Seq<Seq<char>>>>,
) -> Result<Seq<DocView>, DiffError> {
    match loaded_latest(first) {
        Err(e) => Err(e),
        Ok(a) => match loaded_latest(second) {
            Err(e) => Err(e),
            Ok(b) => Ok(a + b),
        },
    }
}

/// The records that the three pairing phases of a comparison resolved, pair
/// after pair, phase after phase.
pub open spec fn resolved(rs: ResultSetView) -> Seq<DocView> {
    sides(phase(Rule::Unchanged, rs.seeded, rs.latest, rs.previous).pairs) + sides(
        phase(Rule::Renamed, rs.after_unchanged, rs.latest, rs.previous).pairs,
    ) + sides(phase(Rule::Moved, rs.after_renamed, rs.latest, rs.previous).pairs)
}

/// A list of snapshots is shorter than two exactly where all records belong
/// to one snapshot, and empty exactly where there is no record.
pub proof fn lemma_revision_count(dir: Seq<DocView>, revs: Seq<u64>)
    requires
        is_revision_index(dir, revs),
    ensures
        revs.len() >= 2 <==> has_two_revisions(dir),
        revs.len() == 0 <==> dir.len() == 0,
{
    if revs.len() >= 2 {
        assert(revs.contains(revs[0]) && revs.contains(revs[1]));
        let i = choose|i: int| 0 <= i < dir.len() && (#[trigger] dir[i]).mod_date == revs[0];
        let k = choose|k: int| 0 <= k < dir.len() && (#[trigger] dir[k]).mod_date == revs[1];
        assert(dir[i].mod_date != dir[k].mod_date);
    }
    if has_two_revisions(dir) {
        let (i, k) = choose|i: int, k: int|
            0 <= i < dir.len() && 0 <= k < dir.len() && (#[trigger] dir[i]).mod_date != (
            #[trigger] dir[k]).mod_date;
        assert(has_date(dir, dir[i].mod_date) && has_date(dir, dir[k].mod_date));
        let x = choose|x: int| 0 <= x < revs.len() && revs[x] == dir[i].mod_date;
        let y = choose|y: int| 0 <= y < revs.len() && revs[y] == dir[k].mod_date;
        assert(x != y);
    }
    if revs.len() > 0 {
        assert(revs.contains(revs[0]));
    }
    if dir.len() > 0 {
        assert(has_date(dir, dir[0].mod_date));
        assert(revs.contains(dir[0].mod_date));
    }
}

/// Compares the two newest snapshots of `dir_entries`.
///
/// Fails where the store holds fewer than two snapshots, and then leaves the
/// tables as they are. Otherwise the working set and the touched entries are
/// started afresh and the phases run in their order: the working set ends as
/// the move phase left it, and the touched entries hold what the three
/// phases resolved.
pub fn history(conn: &mut Tables) -> (outcome: Result<ResultSet, PreconditionError>)
    ensures
        compared(old(conn).dir(), outcome),
        final(conn).dir() == old(conn).dir(),
        match outcome {
            Ok(rs) => {
                &&& final(conn).working() == rs@.after_moved
                &&& final(conn).touched() == resolved(rs@)
            },
            Err(_) => {
                &&& final(conn).working() == old(conn).working()
                &&& final(conn).touched() == old(conn).touched()
            },
        },
{
    let revisions = revision_millis(conn);
    proof {
        lemma_revision_count(conn.dir(), revisions@);
    }
    if revisions.len() == 0 {
        return Err(PreconditionError::NoSnapshot);
    }
    if revisions.len() < 2 {
        return Err(PreconditionError::SingleSnapshot);
    }
    let latest = revisions[0];
    let previous = revisions[1];
    setup_working_tables(conn);
    load_working_table(latest, previous, conn);
    let seeded = working_records(conn);
    let unchanged = remove_unchanged_from_working_table(latest, previous, conn);
    let after_unchanged = working_records(conn);
    let renamed = renamed_files(latest, previous, conn);
    remove_renamed(latest, previous, conn);
    let after_renamed = working_records(conn);
    let moved = moved_files(latest, previous, conn);
    remove_moved(latest, previous, conn);
    let after_moved = working_records(conn);
    let added = added_files(latest, conn);
    let missing = missing_files(previous, conn);
    let rs = ResultSet {
        revisions,
        latest,
        previous,
        seeded,
        unchanged,
        after_unchanged,
        renamed,
        after_renamed,
        moved,
        after_moved,
        added,
        missing,
    };
    assert(conn.touched() =~= resolved(rs@));
    Ok(rs)
}

fn working_records(conn: &Tables) -> (docs: Vec<Doc>)
    ensures
        doc_views(docs@) == conn.working(),
{
    proof {
        reveal_strlit("working_entries");
        reveal_strlit("dir_entries");
        reveal_strlit("touched_entries");
    }
    match get_doclist_from_table("working_entries", conn) {
        Some(docs) => docs,
        None => Vec::new(),
    }
}

/// Compares the two newest snapshots among `entries`, in tables of its own.
pub fn compare_entries(entries: Vec<Doc>) -> (outcome: Result<ResultSet, PreconditionError>)
    ensures
        compared(doc_views(entries@), outcome),
{
    let ghost dir = doc_views(entries@);
    let mut conn = make_local_sqlite();
    create_dir_entries_table(&mut conn);
    load_to_local_sqlite(&mut conn, entries);
    assert(conn.dir() =~= dir);
    history(&mut conn)
}

/// Compares the two newest snapshots stored in `data`. Fails where the
/// records cannot be loaded, and where they belong to fewer than two
/// snapshots.
pub fn setup_history(data: &[u8]) -> (outcome: Result<ResultSet, DiffError>)
    ensures
        compared_stored(read_all(csv_rows(data@)), outcome),
{
    match load_csv_entries(data) {
        Err(e) => Err(DiffError::Parse(e)),
        Ok(entries) => match compare_entries(entries) {
            Err(e) => Err(DiffError::Precondition(e)),
            Ok(rs) => Ok(rs),
        },
    }
}

/// Compares the newest snapshot stored in `first` with the newest snapshot
/// stored in `second`: the older of the two takes the place of the previous
/// snapshot. Fails where either store cannot be loaded or holds no record,
/// and where the two snapshots were taken at the same time.
pub fn setup_compare_local(first: &[u8], second: &[u8]) -> (outcome: Result<ResultSet, DiffError>)
    ensures
        compared_stored(read_both(csv_rows(first@), csv_rows(second@)), outcome),
{
    let mut entries = match load_csv_latest_entries(first) {
        Err(e) => { return Err(e); },
        Ok(entries) => entries,
    };
    let mut more = match load_csv_latest_entries(second) {
        Err(e) => { return Err(e); },
        Ok(entries) => entries,
    };
    let ghost (a, b) = (doc_views(entries@), doc_views(more@));
    entries.append(&mut more);
    assert(doc_views(entries@) =~= a + b);
    match compare_entries(entries) {
        Err(e) => Err(DiffError::Precondition(e)),
        Ok(rs) => Ok(rs),
    }
}

} // verus!
