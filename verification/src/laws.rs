//! What holds of every comparison: no record is lost or made, a snapshot
//! compared with a copy of itself shows no change, and one store has one
//! comparison.

use vstd::prelude::*;
use vstd::multiset::Multiset;
use vstd::seq_lib::{
    lemma_multiset_commutative,
    to_multiset_build,
    to_multiset_contains,
    to_multiset_len,
    to_multiset_remove,
};
use crate::db::{
    after_phase,
    news_of,
    of_either,
    of_neither,
    of_snapshot,
    olds_of,
    phase,
    strictly_descending,
};
use crate::docs::{DocView, MovedDocView, RenamedDocView};
use crate::history::{classified, ResultSetView};
use crate::matching::{
    firsts,
    lemma_pair_off_conserves,
    lemma_pair_off_exhaustive,
    lemma_pairs_fall_under_rule,
    lemma_partner_from,
    lemma_sides,
    pair_off,
    partner_from,
    seconds,
    sides,
};
use crate::rules::{rule_holds, Rule};

verus! {

proof fn lemma_empty_multiset<A>()
    ensures
        Seq::<A>::empty().to_multiset() =~= Multiset::<A>::empty(),
{
    to_multiset_len(Seq::<A>::empty());
    vstd::multiset::lemma_multiset_empty_len(Seq::<A>::empty().to_multiset());
}

/// Every record of a pairing comes from the lists that were paired.
pub proof fn lemma_pairs_come_from(rule: Rule, olds: Seq<DocView>, news: Seq<DocView>)
    ensures
        forall|k: int|
            0 <= k < pair_off(rule, olds, news).pairs.len() ==> olds.contains(
                (#[trigger] pair_off(rule, olds, news).pairs[k]).0,
            ) && news.contains(pair_off(rule, olds, news).pairs[k].1),
        forall|i: int|
            0 <= i < pair_off(rule, olds, news).olds_left.len() ==> olds.contains(
                #[trigger] pair_off(rule, olds, news).olds_left[i],
            ),
        forall|j: int|
            0 <= j < pair_off(rule, olds, news).news_left.len() ==> news.contains(
                #[trigger] pair_off(rule, olds, news).news_left[j],
            ),
{
    broadcast use vstd::multiset::group_multiset_axioms;

    let m = pair_off(rule, olds, news);
    lemma_pair_off_conserves(rule, olds, news);
    assert forall|k: int| 0 <= k < m.pairs.len() implies olds.contains((#[trigger] m.pairs[k]).0)
        && news.contains(m.pairs[k].1) by {
        let (a, b) = m.pairs[k];
        assert(firsts(m.pairs)[k] == a && seconds(m.pairs)[k] == b);
        to_multiset_contains(firsts(m.pairs), a);
        to_multiset_contains(seconds(m.pairs), b);
        to_multiset_contains(olds, a);
        to_multiset_contains(news, b);
    }
    assert forall|i: int| 0 <= i < m.olds_left.len() implies olds.contains(
        #[trigger] m.olds_left[i],
    ) by {
        to_multiset_contains(m.olds_left, m.olds_left[i]);
        to_multiset_contains(olds, m.olds_left[i]);
    }
    assert forall|j: int| 0 <= j < m.news_left.len() implies news.contains(
        #[trigger] m.news_left[j],
    ) by {
        to_multiset_contains(m.news_left, m.news_left[j]);
        to_multiset_contains(news, m.news_left[j]);
    }
}

/// A working set is made of its older side, its newer side and the records
/// of other snapshots: each record stands in exactly one of the three.
pub proof fn lemma_three_sides(working: Seq<DocView>, latest: u64, previous: u64)
    ensures
        working.to_multiset() =~= olds_of(working, previous).to_multiset().add(
            news_of(working, latest, previous).to_multiset(),
        ).add(of_neither(working, latest, previous).to_multiset()),
    decreases working.len(),
{
    broadcast use vstd::multiset::group_multiset_axioms;

    reveal(Seq::filter);
    lemma_empty_multiset::<DocView>();
    if working.len() == 0 {
        assert(working =~= Seq::<DocView>::empty());
    } else {
        let front = working.drop_last();
        let d = working.last();
        lemma_three_sides(front, latest, previous);
        assert(working =~= front.push(d));
        to_multiset_build(front, d);
        to_multiset_build(olds_of(front, previous), d);
        to_multiset_build(of_snapshot(front, latest), d);
        to_multiset_build(of_neither(front, latest, previous), d);
    }
}

/// A phase loses no record and makes none: what it leaves in the working set
/// and what it resolves are together the working set it began with.
pub proof fn lemma_phase_conserves(rule: Rule, working: Seq<DocView>, latest: u64, previous: u64)
    ensures
        working.to_multiset() =~= after_phase(rule, working, latest, previous).to_multiset().add(
            sides(phase(rule, working, latest, previous).pairs).to_multiset(),
        ),
{
    broadcast use vstd::multiset::group_multiset_axioms;

    let olds = olds_of(working, previous);
    let news = news_of(working, latest, previous);
    let others = of_neither(working, latest, previous);
    let m = pair_off(rule, olds, news);
    lemma_three_sides(working, latest, previous);
    lemma_pair_off_conserves(rule, olds, news);
    lemma_sides(m.pairs);
    lemma_multiset_commutative(m.olds_left, m.news_left);
    lemma_multiset_commutative(m.olds_left + m.news_left, others);
}

/// Every record that a phase leaves in the working set was in it before, and
/// so was every record that it resolves.
pub proof fn lemma_phase_takes_from_working(
    rule: Rule,
    working: Seq<DocView>,
    latest: u64,
    previous: u64,
)
    ensures
        forall|i: int|
            0 <= i < after_phase(rule, working, latest, previous).len() ==> working.contains(
                #[trigger] after_phase(rule, working, latest, previous)[i],
            ),
        forall|i: int|
            0 <= i < sides(phase(rule, working, latest, previous).pairs).len() ==> working.contains(
                #[trigger] sides(phase(rule, working, latest, previous).pairs)[i],
            ),
{
    broadcast use vstd::multiset::group_multiset_axioms;

    let after = after_phase(rule, working, latest, previous);
    let gone = sides(phase(rule, working, latest, previous).pairs);
    lemma_phase_conserves(rule, working, latest, previous);
    assert forall|i: int| 0 <= i < after.len() implies working.contains(#[trigger] after[i]) by {
        to_multiset_contains(after, after[i]);
        to_multiset_contains(working, after[i]);
    }
    assert forall|i: int| 0 <= i < gone.len() implies working.contains(#[trigger] gone[i]) by {
        to_multiset_contains(gone, gone[i]);
        to_multiset_contains(working, gone[i]);
    }
}

/// The records of one snapshot among `docs` belong to that snapshot and come
/// from `docs`.
pub proof fn lemma_of_snapshot(docs: Seq<DocView>, t: u64)
    ensures
        forall|i: int|
            0 <= i < of_snapshot(docs, t).len() ==> (#[trigger] of_snapshot(docs, t)[i]).mod_date
                == t && docs.contains(of_snapshot(docs, t)[i]),
{
    let pred = |d: DocView| d.mod_date == t;
    assert forall|i: int| 0 <= i < of_snapshot(docs, t).len() implies (#[trigger] of_snapshot(
        docs,
        t,
    )[i]).mod_date == t && docs.contains(of_snapshot(docs, t)[i]) by {
        docs.lemma_filter_pred(pred, i);
        assert(docs.filter(pred).contains(docs.filter(pred)[i]));
        docs.lemma_filter_contains_rev(pred, docs.filter(pred)[i]);
    }
}

/// The records of two snapshots among `docs` belong to one of the two.
pub proof fn lemma_of_either(docs: Seq<DocView>, a: u64, b: u64)
    ensures
        forall|i: int|
            0 <= i < of_either(docs, a, b).len() ==> (#[trigger] of_either(docs, a, b)[i]).mod_date
                == a || of_either(docs, a, b)[i].mod_date == b,
{
    let pred = |d: DocView| d.mod_date == a || d.mod_date == b;
    assert forall|i: int| 0 <= i < of_either(docs, a, b).len() implies (#[trigger] of_either(
        docs,
        a,
        b,
    )[i]).mod_date == a || of_either(docs, a, b)[i].mod_date == b by {
        docs.lemma_filter_pred(pred, i);
    }
}

/// Where every record of `docs` belongs to snapshot `a` or to snapshot `b`,
/// none belongs to another.
pub proof fn lemma_of_neither(docs: Seq<DocView>, a: u64, b: u64)
    requires
        forall|i: int|
            0 <= i < docs.len() ==> (#[trigger] docs[i]).mod_date == a || docs[i].mod_date == b,
    ensures
        of_neither(docs, a, b) == Seq::<DocView>::empty(),
{
    let pred = |d: DocView| d.mod_date != a && d.mod_date != b;
    let kept = docs.filter(pred);
    if kept.len() > 0 {
        docs.lemma_filter_pred(pred, 0);
        assert(kept.contains(kept[0]));
        docs.lemma_filter_contains_rev(pred, kept[0]);
        let i = choose|i: int| 0 <= i < docs.len() && docs[i] == kept[0];
        assert(docs[i].mod_date == a || docs[i].mod_date == b);
    }
    assert(kept =~= Seq::<DocView>::empty());
}

/// In a pairing of a working set, each pair holds a record of the older
/// snapshot and a record of the newer one that the rule pairs with it.
pub proof fn lemma_phase_pairs(rule: Rule, working: Seq<DocView>, latest: u64, previous: u64)
    ensures
        forall|k: int|
            0 <= k < phase(rule, working, latest, previous).pairs.len() ==> {
                let pair = #[trigger] phase(rule, working, latest, previous).pairs[k];
                &&& pair.0.mod_date == previous
                &&& pair.1.mod_date == latest
                &&& rule_holds(rule, pair.0, pair.1)
            },
{
    let olds = olds_of(working, previous);
    let news = news_of(working, latest, previous);
    let m = pair_off(rule, olds, news);
    lemma_pairs_come_from(rule, olds, news);
    lemma_pairs_fall_under_rule(rule, olds, news);
    lemma_of_snapshot(working, previous);
    lemma_of_snapshot(working, latest);
    assert forall|k: int| 0 <= k < m.pairs.len() implies {
        let pair = #[trigger] m.pairs[k];
        &&& pair.0.mod_date == previous
        &&& pair.1.mod_date == latest
        &&& rule_holds(rule, pair.0, pair.1)
    } by {
        let pair = m.pairs[k];
        let i = choose|i: int| 0 <= i < olds.len() && olds[i] == pair.0;
        let j = choose|j: int| 0 <= j < news.len() && news[j] == pair.1;
        assert(of_snapshot(working, previous)[i].mod_date == previous);
        assert(of_snapshot(working, latest)[j].mod_date == latest);
    }
}

/// The record of the newer snapshot that a renamed entry stands for.
pub open spec fn renamed_now(entry: RenamedDocView, latest: u64) -> DocView {
    DocView {
        hash: entry.doc.hash,
        name: entry.new_name,
        path: entry.doc.path,
        mod_date: latest,
    }
}

/// The record of the newer snapshot that a moved entry stands for.
pub open spec fn moved_now(entry: MovedDocView, latest: u64) -> DocView {
    DocView {
        hash: entry.doc.hash,
        name: entry.doc.name,
        path: entry.dest_path,
        mod_date: latest,
    }
}

/// The records that a list of renamed entries stands for: of each entry the
/// older record, then the newer one.
pub open spec fn renamed_records(entries: Seq<RenamedDocView>, latest: u64) -> Seq<DocView> {
    Seq::new(
        2 * entries.len(),
        |k: int|
            if k % 2 == 0 {
                entries[k / 2].doc
            } else {
                renamed_now(entries[k / 2], latest)
            },
    )
}

/// The records that a list of moved entries stands for: of each entry the
/// older record, then the newer one.
pub open spec fn moved_records(entries: Seq<MovedDocView>, latest: u64) -> Seq<DocView> {
    Seq::new(
        2 * entries.len(),
        |k: int|
            if k % 2 == 0 {
                entries[k / 2].doc
            } else {
                moved_now(entries[k / 2], latest)
            },
    )
}

/// The pairs of unchanged files of a comparison, which it counts and does
/// not report.
pub open spec fn unchanged_pairs(rs: ResultSetView) -> Seq<(DocView, DocView)> {
    phase(Rule::Unchanged, rs.seeded, rs.latest, rs.previous).pairs
}

/// Every record of the two snapshots compared has exactly one outcome.
///
/// The records fed into the comparison are those of the two newest
/// snapshots. Each is, as often as it occurs, one side of an unchanged pair,
/// one side of a renamed entry, one side of a moved entry, an added record or
/// a missing record, and nothing else stands in any of the five. The
/// unchanged pairs are as many as the comparison counts, and the two records
/// of each differ in their snapshot only.
pub proof fn lemma_partition_complete(dir: Seq<DocView>, rs: ResultSetView)
    requires
        classified(dir, rs),
    ensures
        of_either(dir, rs.latest, rs.previous).to_multiset() =~= sides(
            unchanged_pairs(rs),
        ).to_multiset().add(renamed_records(rs.renamed, rs.latest).to_multiset()).add(
            moved_records(rs.moved, rs.latest).to_multiset(),
        ).add(rs.added.to_multiset()).add(rs.missing.to_multiset()),
        unchanged_pairs(rs).len() == rs.unchanged,
        forall|k: int|
            0 <= k < unchanged_pairs(rs).len() ==> (#[trigger] unchanged_pairs(rs)[k]).1
                == (DocView { mod_date: rs.latest, ..unchanged_pairs(rs)[k].0 }),
{
    broadcast use vstd::multiset::group_multiset_axioms;

    let l = rs.latest;
    let p = rs.previous;
    assert(l > p);
    let w0 = rs.seeded;
    let w1 = rs.after_unchanged;
    let w2 = rs.after_renamed;
    let w3 = rs.after_moved;
    let unchanged = phase(Rule::Unchanged, w0, l, p).pairs;
    let renamed = phase(Rule::Renamed, w1, l, p).pairs;
    let moved = phase(Rule::Moved, w2, l, p).pairs;
    lemma_phase_conserves(Rule::Unchanged, w0, l, p);
    lemma_phase_conserves(Rule::Renamed, w1, l, p);
    lemma_phase_conserves(Rule::Moved, w2, l, p);
    lemma_phase_pairs(Rule::Unchanged, w0, l, p);
    lemma_phase_pairs(Rule::Renamed, w1, l, p);
    lemma_phase_pairs(Rule::Moved, w2, l, p);
    assert(sides(renamed) =~= renamed_records(rs.renamed, l)) by {
        assert forall|k: int| 0 <= k < 2 * renamed.len() implies sides(renamed)[k]
            == renamed_records(rs.renamed, l)[k] by {
            let pair = renamed[k / 2];
            assert(rule_holds(Rule::Renamed, pair.0, pair.1));
        }
    }
    assert(sides(moved) =~= moved_records(rs.moved, l)) by {
        assert forall|k: int| 0 <= k < 2 * moved.len() implies sides(moved)[k] == moved_records(
            rs.moved,
            l,
        )[k] by {
            let pair = moved[k / 2];
            assert(rule_holds(Rule::Moved, pair.0, pair.1));
        }
    }
    assert forall|k: int| 0 <= k < unchanged.len() implies (#[trigger] unchanged[k]).1 == (DocView {
        mod_date: l,
        ..unchanged[k].0
    }) by {
        assert(rule_holds(Rule::Unchanged, unchanged[k].0, unchanged[k].1));
    }
    lemma_of_either(dir, l, p);
    lemma_phase_takes_from_working(Rule::Unchanged, w0, l, p);
    lemma_phase_takes_from_working(Rule::Renamed, w1, l, p);
    lemma_phase_takes_from_working(Rule::Moved, w2, l, p);
    assert forall|i: int| 0 <= i < w1.len() implies (#[trigger] w1[i]).mod_date == l
        || w1[i].mod_date == p by {
        let k = choose|k: int| 0 <= k < w0.len() && w0[k] == w1[i];
        assert(w0[k].mod_date == l || w0[k].mod_date == p);
    }
    assert forall|i: int| 0 <= i < w2.len() implies (#[trigger] w2[i]).mod_date == l
        || w2[i].mod_date == p by {
        let k = choose|k: int| 0 <= k < w1.len() && w1[k] == w2[i];
        assert(w1[k].mod_date == l || w1[k].mod_date == p);
    }
    assert forall|i: int| 0 <= i < w3.len() implies (#[trigger] w3[i]).mod_date == l
        || w3[i].mod_date == p by {
        let k = choose|k: int| 0 <= k < w2.len() && w2[k] == w3[i];
        assert(w2[k].mod_date == l || w2[k].mod_date == p);
    }
    lemma_of_neither(w3, l, p);
    lemma_three_sides(w3, l, p);
    lemma_empty_multiset::<DocView>();
}

/// Two lists that go strictly down and hold the same values are one list.
pub proof fn lemma_descending_unique(a: Seq<u64>, b: Seq<u64>)
    requires
        strictly_descending(a),
        strictly_descending(b),
        forall|t: u64| a.contains(t) <==> b.contains(t),
    ensures
        a == b,
    decreases a.len(),
{
    if a.len() == 0 {
        if b.len() > 0 {
            assert(b.contains(b[0]));
        }
        assert(a =~= b);
    } else {
        assert(a.contains(a[0]));
        let j = choose|j: int| 0 <= j < b.len() && b[j] == a[0];
        assert(b.contains(b[0]));
        let i = choose|i: int| 0 <= i < a.len() && a[i] == b[0];
        assert(a[0] == b[0]);
        let a1 = a.drop_first();
        let b1 = b.drop_first();
        assert forall|t: u64| a1.contains(t) <==> b1.contains(t) by {
            if a1.contains(t) {
                let k = choose|k: int| 0 <= k < a1.len() && a1[k] == t;
                assert(a[k + 1] == t);
                assert(a.contains(t));
                let m = choose|m: int| 0 <= m < b.len() && b[m] == t;
                assert(m != 0);
                assert(b1[m - 1] == t);
            }
            if b1.contains(t) {
                let k = choose|k: int| 0 <= k < b1.len() && b1[k] == t;
                assert(b[k + 1] == t);
                assert(b.contains(t));
                let m = choose|m: int| 0 <= m < a.len() && a[m] == t;
                assert(m != 0);
                assert(a1[m - 1] == t);
            }
        }
        lemma_descending_unique(a1, b1);
        assert(a =~= seq![a[0]] + a1);
        assert(b =~= seq![b[0]] + b1);
    }
}

/// One store has one comparison: two results that both are the comparison
/// of the same records are equal in every part. Which records are paired
/// where several hold the same content is decided by their order alone.
pub proof fn lemma_comparison_determined(dir: Seq<DocView>, first: ResultSetView, second: ResultSetView)
    requires
        classified(dir, first),
        classified(dir, second),
    ensures
        first == second,
{
    lemma_descending_unique(first.revisions, second.revisions);
}

/// The records `docs` as they stand in a snapshot taken at `t`.
pub open spec fn copy_at(docs: Seq<DocView>, t: u64) -> Seq<DocView> {
    docs.map_values(|d: DocView| DocView { mod_date: t, ..d })
}

proof fn lemma_snapshot_of_either(docs: Seq<DocView>, a: u64, b: u64)
    ensures
        of_snapshot(of_either(docs, a, b), a) == of_snapshot(docs, a),
        of_snapshot(of_either(docs, a, b), b) == of_snapshot(docs, b),
    decreases docs.len(),
{
    reveal(Seq::filter);
    if docs.len() > 0 {
        let front = docs.drop_last();
        let d = docs.last();
        lemma_snapshot_of_either(front, a, b);
        if d.mod_date == a || d.mod_date == b {
            assert(of_either(front, a, b).push(d).drop_last() =~= of_either(front, a, b));
        }
    }
}

proof fn lemma_copy_pairs_all(olds: Seq<DocView>, news: Seq<DocView>, latest: u64)
    requires
        news.to_multiset() == copy_at(olds, latest).to_multiset(),
        forall|i: int| 0 <= i < olds.len() ==> (#[trigger] olds[i]).mod_date != latest,
    ensures
        pair_off(Rule::Unchanged, olds, news).pairs.len() == olds.len(),
        pair_off(Rule::Unchanged, olds, news).olds_left.len() == 0,
        pair_off(Rule::Unchanged, olds, news).news_left.len() == 0,
    decreases olds.len(),
{
    broadcast use vstd::multiset::group_multiset_axioms;

    let copies = copy_at(olds, latest);
    if olds.len() == 0 {
        to_multiset_len(news);
        to_multiset_len(copies);
    } else {
        let a = olds.first();
        let tail = olds.drop_first();
        let twin = DocView { mod_date: latest, ..a };
        assert(copies[0] == twin);
        assert(copies.contains(twin));
        to_multiset_contains(copies, twin);
        to_multiset_contains(news, twin);
        let at = choose|at: int| 0 <= at < news.len() && news[at] == twin;
        assert(rule_holds(Rule::Unchanged, a, news[at]));
        let j = partner_from(Rule::Unchanged, a, news, 0);
        lemma_partner_from(Rule::Unchanged, a, news, 0);
        assert(j < news.len());
        assert(news.contains(news[j]));
        to_multiset_contains(news, news[j]);
        to_multiset_contains(copies, news[j]);
        let c = choose|c: int| 0 <= c < copies.len() && copies[c] == news[j];
        assert(news[j].mod_date == latest);
        assert(news[j] == twin);
        to_multiset_remove(news, j);
        to_multiset_remove(copies, 0);
        assert(copies.remove(0) =~= copy_at(tail, latest));
        lemma_copy_pairs_all(tail, news.remove(j), latest);
    }
}

proof fn lemma_phase_of_nothing(rule: Rule, latest: u64, previous: u64)
    ensures
        phase(rule, Seq::<DocView>::empty(), latest, previous).pairs.len() == 0,
        after_phase(rule, Seq::<DocView>::empty(), latest, previous) == Seq::<DocView>::empty(),
        of_snapshot(Seq::<DocView>::empty(), latest) == Seq::<DocView>::empty(),
{
    reveal(Seq::filter);
    let nothing = Seq::<DocView>::empty();
    assert(olds_of(nothing, previous) =~= nothing);
    assert(news_of(nothing, latest, previous) =~= nothing);
    assert(of_neither(nothing, latest, previous) =~= nothing);
    assert(of_snapshot(nothing, latest) =~= nothing);
    assert(after_phase(rule, nothing, latest, previous) =~= nothing);
}

/// A snapshot compared with a copy of itself shows no change.
///
/// Where the newest snapshot holds the records of the one before, each under
/// the same hash, name and directory and as often, in whatever order, every
/// record is unchanged: nothing is renamed, moved, added or missing.
pub proof fn lemma_identical_copy(dir: Seq<DocView>, rs: ResultSetView)
    requires
        classified(dir, rs),
        of_snapshot(dir, rs.latest).to_multiset() == copy_at(
            of_snapshot(dir, rs.previous),
            rs.latest,
        ).to_multiset(),
    ensures
        rs.unchanged == of_snapshot(dir, rs.previous).len(),
        rs.renamed.len() == 0,
        rs.moved.len() == 0,
        rs.added.len() == 0,
        rs.missing.len() == 0,
{
    let l = rs.latest;
    let p = rs.previous;
    assert(l > p);
    let nothing = Seq::<DocView>::empty();
    lemma_snapshot_of_either(dir, l, p);
    lemma_of_snapshot(dir, p);
    lemma_copy_pairs_all(of_snapshot(dir, p), of_snapshot(dir, l), l);
    lemma_of_either(dir, l, p);
    lemma_of_neither(rs.seeded, l, p);
    let m = phase(Rule::Unchanged, rs.seeded, l, p);
    assert(m.olds_left =~= nothing && m.news_left =~= nothing);
    assert(rs.after_unchanged =~= nothing);
    lemma_phase_of_nothing(Rule::Renamed, l, p);
    lemma_phase_of_nothing(Rule::Moved, l, p);
    lemma_phase_of_nothing(Rule::Unchanged, p, l);
}

/// Whether `rule` pairs no record of snapshot `previous` in `working` with a
/// record of snapshot `latest` in it.
pub open spec fn nothing_to_pair(rule: Rule, working: Seq<DocView>, latest: u64, previous: u64) -> bool {
    forall|i: int, j: int|
        0 <= i < working.len() && 0 <= j < working.len() && (#[trigger] working[i]).mod_date
            == previous && (#[trigger] working[j]).mod_date == latest ==> !rule_holds(
            rule,
            working[i],
            working[j],
        )
}

/// A phase goes on until its rule pairs nothing that is left in the working
/// set.
pub proof fn lemma_phase_exhaustive(rule: Rule, working: Seq<DocView>, latest: u64, previous: u64)
    ensures
        nothing_to_pair(rule, after_phase(rule, working, latest, previous), latest, previous),
{
    let olds = olds_of(working, previous);
    let news = news_of(working, latest, previous);
    let others = of_neither(working, latest, previous);
    let m = pair_off(rule, olds, news);
    let after = after_phase(rule, working, latest, previous);
    lemma_pair_off_exhaustive(rule, olds, news);
    lemma_pairs_come_from(rule, olds, news);
    lemma_of_snapshot(working, previous);
    lemma_of_snapshot(working, latest);
    let neither = |d: DocView| d.mod_date != latest && d.mod_date != previous;
    assert forall|i: int, j: int|
        0 <= i < after.len() && 0 <= j < after.len() && (#[trigger] after[i]).mod_date == previous
            && (#[trigger] after[j]).mod_date == latest implies !rule_holds(
        rule,
        after[i],
        after[j],
    ) by {
        if latest != previous {
            let a = m.olds_left.len();
            let b = a + m.news_left.len();
            if i >= b {
                working.lemma_filter_pred(neither, i - b);
            }
            if j >= b {
                working.lemma_filter_pred(neither, j - b);
            }
            if a <= i < b {
                let x = after[i];
                assert(x == m.news_left[i - a]);
                let k = choose|k: int| 0 <= k < news.len() && news[k] == x;
                assert(of_snapshot(working, latest)[k].mod_date == latest);
            }
            if j < a {
                let y = after[j];
                assert(y == m.olds_left[j]);
                let k = choose|k: int| 0 <= k < olds.len() && olds[k] == y;
                assert(of_snapshot(working, previous)[k].mod_date == previous);
            }
            assert(i < a && a <= j < b);
            assert(after[i] == m.olds_left[i] && after[j] == m.news_left[j - a]);
        }
    }
}

proof fn lemma_less_to_pair(
    rule: Rule,
    working: Seq<DocView>,
    part: Seq<DocView>,
    latest: u64,
    previous: u64,
)
    requires
        nothing_to_pair(rule, working, latest, previous),
        forall|i: int| 0 <= i < part.len() ==> working.contains(#[trigger] part[i]),
    ensures
        nothing_to_pair(rule, part, latest, previous),
{
    assert forall|i: int, j: int|
        0 <= i < part.len() && 0 <= j < part.len() && (#[trigger] part[i]).mod_date == previous && (
        #[trigger] part[j]).mod_date == latest implies !rule_holds(rule, part[i], part[j]) by {
        let x = choose|x: int| 0 <= x < working.len() && working[x] == part[i];
        let y = choose|y: int| 0 <= y < working.len() && working[y] == part[j];
        assert(working[x].mod_date == previous && working[y].mod_date == latest);
    }
}

/// What a comparison reports as added and as missing is beyond pairing: no
/// rule pairs a missing record with an added one. A file is reported missing
/// or added only where it is no file of the other snapshot unchanged,
/// renamed or moved.
pub proof fn lemma_nothing_left_to_pair(dir: Seq<DocView>, rs: ResultSetView, rule: Rule)
    requires
        classified(dir, rs),
    ensures
        forall|i: int, j: int|
            0 <= i < rs.missing.len() && 0 <= j < rs.added.len() ==> !rule_holds(
                rule,
                #[trigger] rs.missing[i],
                #[trigger] rs.added[j],
            ),
{
    let l = rs.latest;
    let p = rs.previous;
    let w1 = rs.after_unchanged;
    let w2 = rs.after_renamed;
    let w3 = rs.after_moved;
    lemma_phase_exhaustive(Rule::Unchanged, rs.seeded, l, p);
    lemma_phase_exhaustive(Rule::Renamed, w1, l, p);
    lemma_phase_exhaustive(Rule::Moved, w2, l, p);
    lemma_phase_takes_from_working(Rule::Renamed, w1, l, p);
    lemma_phase_takes_from_working(Rule::Moved, w2, l, p);
    lemma_less_to_pair(Rule::Unchanged, w1, w2, l, p);
    lemma_less_to_pair(Rule::Unchanged, w2, w3, l, p);
    lemma_less_to_pair(Rule::Renamed, w2, w3, l, p);
    assert(nothing_to_pair(rule, w3, l, p));
    lemma_of_snapshot(w3, l);
    lemma_of_snapshot(w3, p);
    assert forall|i: int, j: int|
        0 <= i < rs.missing.len() && 0 <= j < rs.added.len() implies !rule_holds(
        rule,
        #[trigger] rs.missing[i],
        #[trigger] rs.added[j],
    ) by {
        let a = rs.missing[i];
        let b = rs.added[j];
        assert(of_snapshot(w3, p)[i].mod_date == p && w3.contains(a));
        assert(of_snapshot(w3, l)[j].mod_date == l && w3.contains(b));
        let x = choose|x: int| 0 <= x < w3.len() && w3[x] == a;
        let y = choose|y: int| 0 <= y < w3.len() && w3[y] == b;
        assert(w3[x].mod_date == p && w3[y].mod_date == l);
    }
}

} // verus!
