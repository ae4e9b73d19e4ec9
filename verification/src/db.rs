//! The tables of a comparison, and the phases that work on them.
//!
//! `dir_entries` holds every record that was loaded. `working_entries` is the
//! working set of one comparison: the records of the two snapshots compared
//! that no phase has resolved yet. `touched_entries` holds the records that a
//! phase has resolved, pair after pair. Records move from the working set to
//! the touched entries and never back; none is added after the working set is
//! loaded.
//!
//! Snapshots are named by their capture time in milliseconds. In every
//! function `previous` names the older snapshot and `latest` the newer one.

use vstd::prelude::*;
use vstd::seq_lib::lemma_multiset_commutative;
use vstd::string::StringExecFns;
use crate::docs::{
    clone_docs,
    doc_views,
    moved_views,
    renamed_views,
    Doc,
    DocView,
    MovedDoc,
    MovedDocView,
    RenamedDoc,
    RenamedDocView,
};
use crate::laws::lemma_phase_conserves;
use crate::matching::{pair_off, pair_records, pair_views, sides, Matching, Paired};
use crate::rules::Rule;

verus! {

/// The records of `docs` that belong to snapshot `t`, in order.
pub open spec fn of_snapshot(docs: Seq<DocView>, t: u64) -> Seq<DocView> {
    docs.filter(|d: DocView| d.mod_date == t)
}

/// The records of `docs` that belong to snapshot `a` or to snapshot `b`, in
/// order.
pub open spec fn of_either(docs: Seq<DocView>, a: u64, b: u64) -> Seq<DocView> {
    docs.filter(|d: DocView| d.mod_date == a || d.mod_date == b)
}

/// The records of `docs` that belong neither to snapshot `a` nor to snapshot
/// `b`, in order.
pub open spec fn of_neither(docs: Seq<DocView>, a: u64, b: u64) -> Seq<DocView> {
    docs.filter(|d: DocView| d.mod_date != a && d.mod_date != b)
}

/// The older side of a working set: its records of snapshot `previous`.
pub open spec fn olds_of(working: Seq<DocView>, previous: u64) -> Seq<DocView> {
    of_snapshot(working, previous)
}

/// The newer side of a working set: its records of snapshot `latest`. Where
/// the two names are one snapshot there is no newer side.
pub open spec fn news_of(working: Seq<DocView>, latest: u64, previous: u64) -> Seq<DocView> {
    if latest == previous {
        Seq::empty()
    } else {
        of_snapshot(working, latest)
    }
}

/// The pairing that the phase of `rule` makes in a working set.
pub open spec fn phase(rule: Rule, working: Seq<DocView>, latest: u64, previous: u64) -> Matching {
    pair_off(rule, olds_of(working, previous), news_of(working, latest, previous))
}

/// The working set that the phase of `rule` leaves: the older records without
/// a partner, then the newer records that nobody took, then the records of
/// other snapshots.
pub open spec fn after_phase(
    rule: Rule,
    working: Seq<DocView>,
    latest: u64,
    previous: u64,
) -> Seq<DocView> {
    let m = phase(rule, working, latest, previous);
    m.olds_left + m.news_left + of_neither(working, latest, previous)
}

/// The entry reported for a pair under the rename rule.
pub open spec fn renamed_entry(p: (DocView, DocView)) -> RenamedDocView {
    RenamedDocView { doc: p.0, new_name: p.1.name }
}

/// The entry reported for a pair under the move rule.
pub open spec fn moved_entry(p: (DocView, DocView)) -> MovedDocView {
    MovedDocView { doc: p.0, dest_path: p.1.path }
}

/// The entries reported for the pairs of the rename phase, in order.
pub open spec fn renamed_entries(pairs: Seq<(DocView, DocView)>) -> Seq<RenamedDocView> {
    pairs.map_values(|p: (DocView, DocView)| renamed_entry(p))
}

/// The entries reported for the pairs of the move phase, in order.
pub open spec fn moved_entries(pairs: Seq<(DocView, DocView)>) -> Seq<MovedDocView> {
    pairs.map_values(|p: (DocView, DocView)| moved_entry(p))
}

/// Whether some record of `docs` belongs to snapshot `t`.
pub open spec fn has_date(docs: Seq<DocView>, t: u64) -> bool {
    exists|k: int| 0 <= k < docs.len() && (#[trigger] docs[k]).mod_date == t
}

/// Whether `revs` goes strictly down.
pub open spec fn strictly_descending(revs: Seq<u64>) -> bool {
    forall|i: int, j: int| 0 <= i < j < revs.len() ==> revs[i] > revs[j]
}

/// Whether `revs` lists the snapshots of `docs`: each once, the newest first.
pub open spec fn is_revision_index(docs: Seq<DocView>, revs: Seq<u64>) -> bool {
    &&& strictly_descending(revs)
    &&& forall|t: u64| revs.contains(t) <==> has_date(docs, t)
}

/// Which records a selection keeps.
#[derive(Clone, Copy)]
enum Keep {
    /// Those of the first snapshot named.
    First,
    /// Those of either snapshot named.
    Either,
    /// Those of neither snapshot named.
    Neither,
}

spec fn keeps(keep: Keep, a: u64, b: u64) -> spec_fn(DocView) -> bool {
    match keep {
        Keep::First => |d: DocView| d.mod_date == a,
        Keep::Either => |d: DocView| d.mod_date == a || d.mod_date == b,
        Keep::Neither => |d: DocView| d.mod_date != a && d.mod_date != b,
    }
}

fn select(docs: &Vec<Doc>, keep: Keep, a: u64, b: u64) -> (kept: Vec<Doc>)
    ensures
        doc_views(kept@) == doc_views(docs@).filter(keeps(keep, a, b)),
{
    let ghost all = doc_views(docs@);
    let ghost pred = keeps(keep, a, b);
    let mut kept: Vec<Doc> = Vec::new();
    let mut i: usize = 0;
    proof {
        reveal(Seq::filter);
        assert(all.take(0) =~= Seq::<DocView>::empty());
        assert(doc_views(kept@) =~= Seq::<DocView>::empty());
    }
    while i < docs.len()
        invariant
            0 <= i <= docs.len(),
            all == doc_views(docs@),
            pred == keeps(keep, a, b),
            doc_views(kept@) == all.take(i as int).filter(pred),
        decreases docs.len() - i,
    {
        let ghost before = doc_views(kept@);
        let t = docs[i].mod_date;
        let wanted = match keep {
            Keep::First => t == a,
            Keep::Either => t == a || t == b,
            Keep::Neither => t != a && t != b,
        };
        proof {
            reveal(Seq::filter);
            assert(all.take(i + 1).drop_last() =~= all.take(i as int));
            assert(all.take(i + 1).last() == docs@[i as int]@);
            assert(wanted == pred(docs@[i as int]@));
        }
        if wanted {
            kept.push(docs[i].clone());
            assert(doc_views(kept@) =~= before.push(docs@[i as int]@));
        }
        i += 1;
    }
    assert(all.take(docs.len() as int) =~= all);
    kept
}

/// The records of `docs` that belong to snapshot `t`.
pub fn records_of_snapshot(docs: &Vec<Doc>, t: u64) -> (kept: Vec<Doc>)
    ensures
        doc_views(kept@) == of_snapshot(doc_views(docs@), t),
{
    select(docs, Keep::First, t, t)
}

/// The tables of a comparison.
pub struct Tables {
    dir_entries: Vec<Doc>,
    working_entries: Vec<Doc>,
    touched_entries: Vec<Doc>,
}

impl Tables {
    /// Every record that was loaded, in the order of loading.
    pub closed spec fn dir(&self) -> Seq<DocView> {
        doc_views(self.dir_entries@)
    }

    /// The working set: the records not yet resolved.
    pub closed spec fn working(&self) -> Seq<DocView> {
        doc_views(self.working_entries@)
    }

    /// The records that the phases have resolved, pair after pair.
    pub closed spec fn touched(&self) -> Seq<DocView> {
        doc_views(self.touched_entries@)
    }
}

/// Whether a phase lost no record and made none: the working set and the
/// touched entries hold together what they held before, each record as often.
pub open spec fn conserved(before: Tables, after: Tables) -> bool {
    after.working().to_multiset().add(after.touched().to_multiset())
        =~= before.working().to_multiset().add(before.touched().to_multiset())
}

/// Makes the tables, all of them empty.
pub fn make_local_sqlite() -> (conn: Tables)
    ensures
        conn.dir() == Seq::<DocView>::empty(),
        conn.working() == Seq::<DocView>::empty(),
        conn.touched() == Seq::<DocView>::empty(),
{
    let conn = Tables {
        dir_entries: Vec::new(),
        working_entries: Vec::new(),
        touched_entries: Vec::new(),
    };
    assert(conn.dir() =~= Seq::<DocView>::empty());
    assert(conn.working() =~= Seq::<DocView>::empty());
    assert(conn.touched() =~= Seq::<DocView>::empty());
    conn
}

/// Starts `dir_entries` afresh: it holds no record afterwards. The working
/// set and the touched entries stay as they are.
pub fn create_dir_entries_table(conn: &mut Tables)
    ensures
        final(conn).dir() == Seq::<DocView>::empty(),
        final(conn).working() == old(conn).working(),
        final(conn).touched() == old(conn).touched(),
{
    conn.dir_entries = Vec::new();
    assert(conn.dir() =~= Seq::<DocView>::empty());
}

/// Appends `entries` to `dir_entries`, in their order.
pub fn load_to_local_sqlite(conn: &mut Tables, entries: Vec<Doc>)
    ensures
        final(conn).dir() == old(conn).dir() + doc_views(entries@),
        final(conn).working() == old(conn).working(),
        final(conn).touched() == old(conn).touched(),
{
    let mut entries = entries;
    let ghost added = entries@;
    conn.dir_entries.append(&mut entries);
    assert(conn.dir() =~= old(conn).dir() + doc_views(added));
}

/// Starts the working set and the touched entries afresh: both are empty
/// afterwards. `dir_entries` stays as it is.
pub fn setup_working_tables(conn: &mut Tables)
    ensures
        final(conn).dir() == old(conn).dir(),
        final(conn).working() == Seq::<DocView>::empty(),
        final(conn).touched() == Seq::<DocView>::empty(),
{
    conn.working_entries = Vec::new();
    conn.touched_entries = Vec::new();
    assert(conn.working() =~= Seq::<DocView>::empty());
    assert(conn.touched() =~= Seq::<DocView>::empty());
}

/// Loads the working set: afterwards it holds exactly the records of
/// `dir_entries` that belong to snapshot `latest` or to snapshot `previous`,
/// in their order. Returns how many these are.
pub fn load_working_table(latest: u64, previous: u64, conn: &mut Tables) -> (loaded: usize)
    ensures
        final(conn).dir() == old(conn).dir(),
        final(conn).working() == of_either(old(conn).dir(), latest, previous),
        final(conn).touched() == old(conn).touched(),
        loaded == final(conn).working().len(),
{
    let seeded = select(&conn.dir_entries, Keep::Either, latest, previous);
    let loaded = seeded.len();
    conn.working_entries = seeded;
    loaded
}

/// The records of the working set that belong to snapshot `latest`, in their
/// order. After the three pairing phases these are the files that were added.
pub fn added_files(latest: u64, conn: &Tables) -> (added: Vec<Doc>)
    ensures
        doc_views(added@) == of_snapshot(conn.working(), latest),
{
    select(&conn.working_entries, Keep::First, latest, latest)
}

/// The records of the working set that belong to snapshot `previous`, in
/// their order. After the three pairing phases these are the files that are
/// missing.
pub fn missing_files(previous: u64, conn: &Tables) -> (missing: Vec<Doc>)
    ensures
        doc_views(missing@) == of_snapshot(conn.working(), previous),
{
    select(&conn.working_entries, Keep::First, previous, previous)
}

fn run_phase(rule: Rule, working: &Vec<Doc>, latest: u64, previous: u64) -> (paired: Paired)
    ensures
        paired@ == phase(rule, doc_views(working@), latest, previous),
{
    let olds = select(working, Keep::First, previous, previous);
    let news = if latest == previous {
        Vec::new()
    } else {
        select(working, Keep::First, latest, latest)
    };
    assert(doc_views(news@) =~= news_of(doc_views(working@), latest, previous));
    pair_records(rule, &olds, news)
}

fn both_sides(pairs: &Vec<(Doc, Doc)>) -> (flat: Vec<Doc>)
    ensures
        doc_views(flat@) == sides(pair_views(pairs@)),
{
    let ghost all = pair_views(pairs@);
    let mut flat: Vec<Doc> = Vec::new();
    let mut i: usize = 0;
    while i < pairs.len()
        invariant
            0 <= i <= pairs.len(),
            all == pair_views(pairs@),
            flat.len() == 2 * i,
            forall|k: int| 0 <= k < 2 * i ==> (#[trigger] flat@[k])@ == sides(all)[k],
        decreases pairs.len() - i,
    {
        let a = pairs[i].0.clone();
        let b = pairs[i].1.clone();
        flat.push(a);
        flat.push(b);
        i += 1;
    }
    assert(doc_views(flat@) =~= sides(all));
    flat
}

fn resolve(rule: Rule, latest: u64, previous: u64, conn: &mut Tables) -> (resolved: usize)
    ensures
        final(conn).dir() == old(conn).dir(),
        conserved(*old(conn), *final(conn)),
        final(conn).working() == after_phase(rule, old(conn).working(), latest, previous),
        final(conn).touched() == old(conn).touched() + sides(
            phase(rule, old(conn).working(), latest, previous).pairs,
        ),
        resolved == phase(rule, old(conn).working(), latest, previous).pairs.len(),
{
    let paired = run_phase(rule, &conn.working_entries, latest, previous);
    let mut others = select(&conn.working_entries, Keep::Neither, latest, previous);
    let mut touched = both_sides(&paired.pairs);
    let resolved = paired.pairs.len();
    let Paired { pairs: _, olds_left: mut left, news_left: mut news_left } = paired;
    let ghost (a, b, c) = (doc_views(left@), doc_views(news_left@), doc_views(others@));
    let ghost t = doc_views(touched@);
    left.append(&mut news_left);
    left.append(&mut others);
    assert(doc_views(left@) =~= a + b + c);
    conn.working_entries = left;
    conn.touched_entries.append(&mut touched);
    assert(conn.touched() =~= old(conn).touched() + t);
    proof {
        lemma_phase_conserves(rule, old(conn).working(), latest, previous);
        lemma_multiset_commutative(old(conn).touched(), t);
    }
    resolved
}

/// The phase of the unchanged files. Pairs the records of snapshot
/// `previous` in the working set with those of snapshot `latest` that hold
/// the same content under the same name in the same directory, and moves each
/// pair from the working set to the touched entries. Returns the number of
/// pairs.
pub fn remove_unchanged_from_working_table(
    latest: u64,
    previous: u64,
    conn: &mut Tables,
) -> (resolved: usize)
    ensures
        final(conn).dir() == old(conn).dir(),
        conserved(*old(conn), *final(conn)),
        final(conn).working() == after_phase(
            Rule::Unchanged,
            old(conn).working(),
            latest,
            previous,
        ),
        final(conn).touched() == old(conn).touched() + sides(
            phase(Rule::Unchanged, old(conn).working(), latest, previous).pairs,
        ),
        resolved == phase(Rule::Unchanged, old(conn).working(), latest, previous).pairs.len(),
{
    resolve(Rule::Unchanged, latest, previous, conn)
}

/// The files that the rename phase finds in the working set, in the order in
/// which it pairs them. The tables stay as they are.
pub fn renamed_files(latest: u64, previous: u64, conn: &Tables) -> (renamed: Vec<RenamedDoc>)
    ensures
        renamed_views(renamed@) == renamed_entries(
            phase(Rule::Renamed, conn.working(), latest, previous).pairs,
        ),
{
    let paired = run_phase(Rule::Renamed, &conn.working_entries, latest, previous);
    let ghost all = pair_views(paired.pairs@);
    let mut renamed: Vec<RenamedDoc> = Vec::new();
    let mut i: usize = 0;
    while i < paired.pairs.len()
        invariant
            0 <= i <= paired.pairs.len(),
            all == pair_views(paired.pairs@),
            renamed.len() == i,
            forall|k: int| 0 <= k < i ==> (#[trigger] renamed@[k])@ == renamed_entry(all[k]),
        decreases paired.pairs.len() - i,
    {
        let entry = RenamedDoc {
            doc: paired.pairs[i].0.clone(),
            new_name: paired.pairs[i].1.name.clone(),
        };
        renamed.push(entry);
        i += 1;
    }
    assert(renamed_views(renamed@) =~= renamed_entries(all));
    renamed
}

/// The rename phase. Pairs the records of snapshot `previous` in the working
/// set with those of snapshot `latest` that hold the same content in the same
/// directory under another name, and moves each pair from the working set to
/// the touched entries. Returns the number of pairs.
pub fn remove_renamed(latest: u64, previous: u64, conn: &mut Tables) -> (resolved: usize)
    ensures
        final(conn).dir() == old(conn).dir(),
        conserved(*old(conn), *final(conn)),
        final(conn).working() == after_phase(Rule::Renamed, old(conn).working(), latest, previous),
        final(conn).touched() == old(conn).touched() + sides(
            phase(Rule::Renamed, old(conn).working(), latest, previous).pairs,
        ),
        resolved == phase(Rule::Renamed, old(conn).working(), latest, previous).pairs.len(),
{
    resolve(Rule::Renamed, latest, previous, conn)
}

/// The files that the move phase finds in the working set, in the order in
/// which it pairs them. The tables stay as they are.
pub fn moved_files(latest: u64, previous: u64, conn: &Tables) -> (moved: Vec<MovedDoc>)
    ensures
        moved_views(moved@) == moved_entries(
            phase(Rule::Moved, conn.working(), latest, previous).pairs,
        ),
{
    let paired = run_phase(Rule::Moved, &conn.working_entries, latest, previous);
    let ghost all = pair_views(paired.pairs@);
    let mut moved: Vec<MovedDoc> = Vec::new();
    let mut i: usize = 0;
    while i < paired.pairs.len()
        invariant
            0 <= i <= paired.pairs.len(),
            all == pair_views(paired.pairs@),
            moved.len() == i,
            forall|k: int| 0 <= k < i ==> (#[trigger] moved@[k])@ == moved_entry(all[k]),
        decreases paired.pairs.len() - i,
    {
        let entry = MovedDoc {
            doc: paired.pairs[i].0.clone(),
            dest_path: paired.pairs[i].1.path.clone(),
        };
        moved.push(entry);
        i += 1;
    }
    assert(moved_views(moved@) =~= moved_entries(all));
    moved
}

/// The move phase. Pairs the records of snapshot `previous` in the working
/// set with those of snapshot `latest` that hold the same content under the
/// same name in another directory, and moves each pair from the working set
/// to the touched entries. Returns the number of pairs.
pub fn remove_moved(latest: u64, previous: u64, conn: &mut Tables) -> (resolved: usize)
    ensures
        final(conn).dir() == old(conn).dir(),
        conserved(*old(conn), *final(conn)),
        final(conn).working() == after_phase(Rule::Moved, old(conn).working(), latest, previous),
        final(conn).touched() == old(conn).touched() + sides(
            phase(Rule::Moved, old(conn).working(), latest, previous).pairs,
        ),
        resolved == phase(Rule::Moved, old(conn).working(), latest, previous).pairs.len(),
{
    resolve(Rule::Moved, latest, previous, conn)
}

/// The snapshots of `dir_entries`: each capture time once, the newest first.
pub fn revision_millis(conn: &Tables) -> (revs: Vec<u64>)
    ensures
        is_revision_index(conn.dir(), revs@),
{
    let ghost all = doc_views(conn.dir_entries@);
    let mut revs: Vec<u64> = Vec::new();
    let mut i: usize = 0;
    while i < conn.dir_entries.len()
        invariant
            0 <= i <= conn.dir_entries.len(),
            all == doc_views(conn.dir_entries@),
            is_revision_index(all.take(i as int), revs@),
        decreases conn.dir_entries.len() - i,
    {
        let t = conn.dir_entries[i].mod_date;
        let ghost before = revs@;
        let mut p: usize = 0;
        while p < revs.len() && revs[p] > t
            invariant
                0 <= p <= revs.len(),
                forall|k: int| 0 <= k < p ==> revs@[k] > t,
            decreases revs.len() - p,
        {
            p += 1;
        }
        let known = p < revs.len() && revs[p] == t;
        if !known {
            revs.insert(p, t);
        }
        proof {
            let seen = all.take(i as int);
            let more = all.take(i + 1);
            assert(more[i as int].mod_date == t);
            assert forall|v: u64| revs@.contains(v) <==> has_date(more, v) by {
                if revs@.contains(v) {
                    if v == t {
                        assert(more[i as int].mod_date == v);
                    } else {
                        let k = choose|k: int| 0 <= k < revs@.len() && revs@[k] == v;
                        if !known {
                            assert(before[if k < p { k } else { k - 1 }] == v);
                        }
                        assert(before.contains(v));
                        let m = choose|m: int| 0 <= m < seen.len() && (#[trigger] seen[m]).mod_date == v;
                        assert(more[m].mod_date == v);
                    }
                }
                if has_date(more, v) {
                    let m = choose|m: int| 0 <= m < more.len() && (#[trigger] more[m]).mod_date == v;
                    if m < i {
                        assert(seen[m].mod_date == v);
                        assert(before.contains(v));
                        let k = choose|k: int| 0 <= k < before.len() && before[k] == v;
                        if !known {
                            assert(revs@[if k < p { k } else { k + 1 }] == v);
                        }
                    } else {
                        assert(revs@[p as int] == t);
                    }
                }
            }
        }
        i += 1;
    }
    assert(all.take(conn.dir_entries.len() as int) =~= all);
    revs
}

/// The records of one table, in order: of `dir_entries`, `working_entries` or
/// `touched_entries`. There is no table of any other name.
pub fn get_doclist_from_table(table_name: &str, conn: &Tables) -> (docs: Option<Vec<Doc>>)
    ensures
        table_name@ == "dir_entries"@ ==> docs is Some && doc_views(docs.unwrap()@) == conn.dir(),
        table_name@ == "working_entries"@ ==> docs is Some && doc_views(docs.unwrap()@)
            == conn.working(),
        table_name@ == "touched_entries"@ ==> docs is Some && doc_views(docs.unwrap()@)
            == conn.touched(),
        docs is None <==> table_name@ != "dir_entries"@ && table_name@ != "working_entries"@
            && table_name@ != "touched_entries"@,
{
    proof {
        reveal_strlit("dir_entries");
        reveal_strlit("working_entries");
        reveal_strlit("touched_entries");
        assert("dir_entries"@.len() == 11 && "working_entries"@.len() == 15);
        assert("working_entries"@[0] == 'w' && "touched_entries"@[0] == 't');
    }
    let wanted = String::from_str(table_name);
    if wanted == String::from_str("dir_entries") {
        Some(clone_docs(&conn.dir_entries))
    } else if wanted == String::from_str("working_entries") {
        Some(clone_docs(&conn.working_entries))
    } else if wanted == String::from_str("touched_entries") {
        Some(clone_docs(&conn.touched_entries))
    } else {
        None
    }
}

} // verus!
