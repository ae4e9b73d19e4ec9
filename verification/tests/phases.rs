use dirdiff::db::{
    added_files, create_dir_entries_table, get_doclist_from_table, load_to_local_sqlite,
    load_working_table, make_local_sqlite, missing_files, moved_files, records_of_snapshot,
    remove_moved, remove_renamed, remove_unchanged_from_working_table, renamed_files,
    revision_millis, setup_working_tables, Tables,
};
use dirdiff::docs::{clone_docs, Doc, MovedDoc, RenamedDoc};
use dirdiff::history::{compare_entries, history};
use dirdiff::matching::{find_partner, pair_records};
use dirdiff::rules::{check_rule, Rule};

const OLD: u64 = 1_000;
const NEW: u64 = 2_000;

fn doc(hash: &str, name: &str, path: &str, mod_date: u64) -> Doc {
    Doc { hash: hash.to_string(), name: name.to_string(), path: path.to_string(), mod_date }
}

fn tables(entries: Vec<Doc>) -> Tables {
    let mut conn = make_local_sqlite();
    create_dir_entries_table(&mut conn);
    load_to_local_sqlite(&mut conn, entries);
    conn
}

fn sorted(mut docs: Vec<Doc>) -> Vec<(String, String, String, u64)> {
    let mut keys: Vec<(String, String, String, u64)> =
        docs.drain(..).map(|d| (d.hash, d.name, d.path, d.mod_date)).collect();
    keys.sort();
    keys
}

#[test]
fn rules_are_told_apart() {
    let a = doc("h", "a", "/x", OLD);
    assert!(check_rule(Rule::Unchanged, &a, &doc("h", "a", "/x", NEW)));
    assert!(!check_rule(Rule::Renamed, &a, &doc("h", "a", "/x", NEW)));
    assert!(!check_rule(Rule::Moved, &a, &doc("h", "a", "/x", NEW)));
    assert!(check_rule(Rule::Renamed, &a, &doc("h", "b", "/x", NEW)));
    assert!(!check_rule(Rule::Unchanged, &a, &doc("h", "b", "/x", NEW)));
    assert!(!check_rule(Rule::Moved, &a, &doc("h", "b", "/x", NEW)));
    assert!(check_rule(Rule::Moved, &a, &doc("h", "a", "/y", NEW)));
    assert!(!check_rule(Rule::Unchanged, &a, &doc("h", "a", "/y", NEW)));
    assert!(!check_rule(Rule::Renamed, &a, &doc("h", "a", "/y", NEW)));
    // another name in another directory falls under no rule
    assert!(!check_rule(Rule::Unchanged, &a, &doc("h", "b", "/y", NEW)));
    assert!(!check_rule(Rule::Renamed, &a, &doc("h", "b", "/y", NEW)));
    assert!(!check_rule(Rule::Moved, &a, &doc("h", "b", "/y", NEW)));
    // other content falls under no rule
    assert!(!check_rule(Rule::Unchanged, &a, &doc("g", "a", "/x", NEW)));
    // two records of one snapshot are never paired
    assert!(!check_rule(Rule::Unchanged, &a, &doc("h", "a", "/x", OLD)));
    assert!(!check_rule(Rule::Renamed, &a, &doc("h", "b", "/x", OLD)));
}

#[test]
fn first_partner_in_order_is_found() {
    let news = vec![
        doc("g", "a", "/x", NEW),
        doc("h", "b", "/x", NEW),
        doc("h", "c", "/x", NEW),
    ];
    let a = doc("h", "a", "/x", OLD);
    assert_eq!(find_partner(Rule::Renamed, &a, &news), 1);
    assert_eq!(find_partner(Rule::Unchanged, &a, &news), 3);
    assert_eq!(find_partner(Rule::Renamed, &a, &Vec::new()), 0);
}

#[test]
fn pairing_is_greedy_and_uses_each_record_once() {
    let olds = vec![doc("h", "a", "/d", OLD), doc("h", "b", "/d", OLD), doc("h", "c", "/d", OLD)];
    let news = vec![doc("h", "x", "/d", NEW), doc("h", "y", "/d", NEW)];
    let paired = pair_records(Rule::Renamed, &olds, news);
    assert_eq!(
        paired.pairs,
        vec![
            (doc("h", "a", "/d", OLD), doc("h", "x", "/d", NEW)),
            (doc("h", "b", "/d", OLD), doc("h", "y", "/d", NEW)),
        ]
    );
    assert_eq!(paired.olds_left, vec![doc("h", "c", "/d", OLD)]);
    assert!(paired.news_left.is_empty());
}

#[test]
fn pairing_skips_a_partner_that_is_taken() {
    // "b" cannot take the record named "b": that would be no rename
    let olds = vec![doc("h", "a", "/d", OLD), doc("h", "b", "/d", OLD)];
    let news = vec![doc("h", "b", "/d", NEW), doc("h", "c", "/d", NEW)];
    let paired = pair_records(Rule::Renamed, &olds, news);
    assert_eq!(
        paired.pairs,
        vec![
            (doc("h", "a", "/d", OLD), doc("h", "b", "/d", NEW)),
            (doc("h", "b", "/d", OLD), doc("h", "c", "/d", NEW)),
        ]
    );
    assert!(paired.olds_left.is_empty());
    assert!(paired.news_left.is_empty());
}

#[test]
fn tables_start_empty_and_take_entries_in_order() {
    let mut conn = make_local_sqlite();
    assert_eq!(get_doclist_from_table("dir_entries", &conn), Some(Vec::new()));
    assert_eq!(get_doclist_from_table("working_entries", &conn), Some(Vec::new()));
    assert_eq!(get_doclist_from_table("touched_entries", &conn), Some(Vec::new()));
    load_to_local_sqlite(&mut conn, vec![doc("h1", "a", "/d", OLD)]);
    load_to_local_sqlite(&mut conn, vec![doc("h2", "b", "/d", NEW), doc("h3", "c", "/d", NEW)]);
    assert_eq!(
        get_doclist_from_table("dir_entries", &conn),
        Some(vec![doc("h1", "a", "/d", OLD), doc("h2", "b", "/d", NEW), doc("h3", "c", "/d", NEW)])
    );
    assert_eq!(get_doclist_from_table("working_entries", &conn), Some(Vec::new()));
    create_dir_entries_table(&mut conn);
    assert_eq!(get_doclist_from_table("dir_entries", &conn), Some(Vec::new()));
}

#[test]
fn unknown_table_has_no_records() {
    let conn = tables(vec![doc("h1", "a", "/d", OLD)]);
    assert_eq!(get_doclist_from_table("entries", &conn), None);
    assert_eq!(get_doclist_from_table("", &conn), None);
    assert_eq!(get_doclist_from_table("dir_entries ", &conn), None);
}

#[test]
fn revisions_are_distinct_and_newest_first() {
    let conn = tables(vec![
        doc("h1", "a", "/d", 5),
        doc("h2", "b", "/d", 9),
        doc("h3", "c", "/d", 5),
        doc("h4", "d", "/d", 1),
        doc("h5", "e", "/d", 9),
        doc("h6", "f", "/d", u64::MAX),
        doc("h7", "g", "/d", 0),
    ]);
    assert_eq!(revision_millis(&conn), vec![u64::MAX, 9, 5, 1, 0]);
    assert_eq!(revision_millis(&make_local_sqlite()), Vec::<u64>::new());
}

#[test]
fn snapshots_one_millisecond_apart_are_two_revisions() {
    let conn = tables(vec![doc("h1", "a", "/d", 1_999), doc("h1", "a", "/d", 2_000)]);
    assert_eq!(revision_millis(&conn), vec![2_000, 1_999]);
    let rs = compare_entries(vec![doc("h1", "a", "/d", 1_999), doc("h1", "a", "/d", 2_000)])
        .unwrap();
    assert_eq!((rs.latest, rs.previous, rs.unchanged), (2_000, 1_999, 1));
}

#[test]
fn captures_in_one_millisecond_are_one_revision() {
    let conn = tables(vec![doc("h1", "a", "/d", 2_000), doc("h2", "b", "/d", 2_000)]);
    assert_eq!(revision_millis(&conn), vec![2_000]);
}

#[test]
fn working_set_holds_the_two_snapshots_only() {
    let mut conn = tables(vec![
        doc("h0", "z", "/d", 500),
        doc("h1", "a", "/d", OLD),
        doc("h2", "b", "/d", NEW),
        doc("h3", "c", "/d", 500),
        doc("h4", "d", "/d", OLD),
    ]);
    setup_working_tables(&mut conn);
    assert_eq!(load_working_table(NEW, OLD, &mut conn), 3);
    assert_eq!(
        get_doclist_from_table("working_entries", &conn),
        Some(vec![doc("h1", "a", "/d", OLD), doc("h2", "b", "/d", NEW), doc("h4", "d", "/d", OLD)])
    );
    assert_eq!(added_files(NEW, &conn), vec![doc("h2", "b", "/d", NEW)]);
    assert_eq!(
        missing_files(OLD, &conn),
        vec![doc("h1", "a", "/d", OLD), doc("h4", "d", "/d", OLD)]
    );
    setup_working_tables(&mut conn);
    assert_eq!(get_doclist_from_table("working_entries", &conn), Some(Vec::new()));
    assert_eq!(get_doclist_from_table("dir_entries", &conn).unwrap().len(), 5);
}

#[test]
fn phases_move_pairs_from_working_to_touched() {
    let mut conn = tables(vec![
        doc("h1", "same", "/d", OLD),
        doc("h2", "old_name", "/d", OLD),
        doc("h3", "file", "/from", OLD),
        doc("h4", "gone", "/d", OLD),
        doc("h1", "same", "/d", NEW),
        doc("h2", "new_name", "/d", NEW),
        doc("h3", "file", "/to", NEW),
        doc("h5", "fresh", "/d", NEW),
    ]);
    setup_working_tables(&mut conn);
    assert_eq!(load_working_table(NEW, OLD, &mut conn), 8);

    assert_eq!(remove_unchanged_from_working_table(NEW, OLD, &mut conn), 1);
    assert_eq!(
        get_doclist_from_table("touched_entries", &conn),
        Some(vec![doc("h1", "same", "/d", OLD), doc("h1", "same", "/d", NEW)])
    );
    assert_eq!(
        get_doclist_from_table("working_entries", &conn),
        Some(vec![
            doc("h2", "old_name", "/d", OLD),
            doc("h3", "file", "/from", OLD),
            doc("h4", "gone", "/d", OLD),
            doc("h2", "new_name", "/d", NEW),
            doc("h3", "file", "/to", NEW),
            doc("h5", "fresh", "/d", NEW),
        ])
    );

    assert_eq!(
        renamed_files(NEW, OLD, &conn),
        vec![RenamedDoc { doc: doc("h2", "old_name", "/d", OLD), new_name: "new_name".to_string() }]
    );
    // asking does not change the tables
    assert_eq!(get_doclist_from_table("working_entries", &conn).unwrap().len(), 6);
    assert_eq!(remove_renamed(NEW, OLD, &mut conn), 1);
    assert_eq!(renamed_files(NEW, OLD, &conn), Vec::<RenamedDoc>::new());

    assert_eq!(
        moved_files(NEW, OLD, &conn),
        vec![MovedDoc { doc: doc("h3", "file", "/from", OLD), dest_path: "/to".to_string() }]
    );
    assert_eq!(remove_moved(NEW, OLD, &mut conn), 1);
    assert_eq!(moved_files(NEW, OLD, &conn), Vec::<MovedDoc>::new());

    assert_eq!(added_files(NEW, &conn), vec![doc("h5", "fresh", "/d", NEW)]);
    assert_eq!(missing_files(OLD, &conn), vec![doc("h4", "gone", "/d", OLD)]);
    assert_eq!(
        get_doclist_from_table("touched_entries", &conn),
        Some(vec![
            doc("h1", "same", "/d", OLD),
            doc("h1", "same", "/d", NEW),
            doc("h2", "old_name", "/d", OLD),
            doc("h2", "new_name", "/d", NEW),
            doc("h3", "file", "/from", OLD),
            doc("h3", "file", "/to", NEW),
        ])
    );
    assert_eq!(get_doclist_from_table("dir_entries", &conn).unwrap().len(), 8);
}

#[test]
fn phase_leaves_records_of_other_snapshots_in_the_working_set() {
    let mut conn = tables(vec![
        doc("h1", "a", "/d", OLD),
        doc("h1", "a", "/d", NEW),
        doc("h1", "a", "/d", 3_000),
    ]);
    setup_working_tables(&mut conn);
    load_working_table(3_000, NEW, &mut conn);
    // the working set holds the snapshots 2000 and 3000; a phase between 1000
    // and 2000 finds no older side
    assert_eq!(remove_unchanged_from_working_table(NEW, OLD, &mut conn), 0);
    assert_eq!(
        sorted(get_doclist_from_table("working_entries", &conn).unwrap()),
        sorted(vec![doc("h1", "a", "/d", NEW), doc("h1", "a", "/d", 3_000)])
    );
}

#[test]
fn one_snapshot_named_twice_pairs_nothing() {
    let mut conn = tables(vec![doc("h1", "a", "/d", OLD), doc("h1", "b", "/d", OLD)]);
    setup_working_tables(&mut conn);
    load_working_table(OLD, OLD, &mut conn);
    assert_eq!(remove_unchanged_from_working_table(OLD, OLD, &mut conn), 0);
    assert_eq!(remove_renamed(OLD, OLD, &mut conn), 0);
    assert_eq!(
        get_doclist_from_table("working_entries", &conn),
        Some(vec![doc("h1", "a", "/d", OLD), doc("h1", "b", "/d", OLD)])
    );
    assert_eq!(get_doclist_from_table("touched_entries", &conn), Some(Vec::new()));
}

#[test]
fn rename_goes_before_move() {
    // the older record could be renamed to "b" or moved to "/y"
    let rs = compare_entries(vec![
        doc("h", "a", "/x", OLD),
        doc("h", "a", "/y", NEW),
        doc("h", "b", "/x", NEW),
    ])
    .unwrap();
    assert_eq!(
        rs.renamed,
        vec![RenamedDoc { doc: doc("h", "a", "/x", OLD), new_name: "b".to_string() }]
    );
    assert!(rs.moved.is_empty());
    assert_eq!(rs.added, vec![doc("h", "a", "/y", NEW)]);
    assert!(rs.missing.is_empty());
}

#[test]
fn unchanged_goes_before_rename() {
    let rs = compare_entries(vec![
        doc("h", "a", "/x", OLD),
        doc("h", "b", "/x", NEW),
        doc("h", "a", "/x", NEW),
    ])
    .unwrap();
    assert_eq!(rs.unchanged, 1);
    assert!(rs.renamed.is_empty());
    assert!(rs.moved.is_empty());
    assert_eq!(rs.added, vec![doc("h", "b", "/x", NEW)]);
    assert!(rs.missing.is_empty());
}

#[test]
fn swapped_names_give_the_same_result_every_time() {
    let entries = || {
        vec![
            doc("h", "a", "/x", OLD),
            doc("h", "b", "/y", OLD),
            doc("h", "b", "/x", NEW),
            doc("h", "a", "/y", NEW),
        ]
    };
    let first = compare_entries(entries()).unwrap();
    assert_eq!(
        first.renamed,
        vec![
            RenamedDoc { doc: doc("h", "a", "/x", OLD), new_name: "b".to_string() },
            RenamedDoc { doc: doc("h", "b", "/y", OLD), new_name: "a".to_string() },
        ]
    );
    assert!(first.moved.is_empty());
    assert!(first.added.is_empty());
    assert!(first.missing.is_empty());
    for _ in 0..5 {
        let again = compare_entries(entries()).unwrap();
        assert_eq!(again.renamed, first.renamed);
        assert_eq!(again.moved, first.moved);
        assert_eq!(again.added, first.added);
        assert_eq!(again.missing, first.missing);
        assert_eq!(again.unchanged, first.unchanged);
    }
}

#[test]
fn duplicate_content_is_paired_in_order() {
    let rs = compare_entries(vec![
        doc("h", "one", "/d", OLD),
        doc("h", "two", "/d", OLD),
        doc("h", "three", "/d", NEW),
        doc("h", "four", "/d", NEW),
        doc("h", "five", "/d", NEW),
    ])
    .unwrap();
    assert_eq!(
        rs.renamed,
        vec![
            RenamedDoc { doc: doc("h", "one", "/d", OLD), new_name: "three".to_string() },
            RenamedDoc { doc: doc("h", "two", "/d", OLD), new_name: "four".to_string() },
        ]
    );
    assert_eq!(rs.added, vec![doc("h", "five", "/d", NEW)]);
    assert!(rs.missing.is_empty());
}

#[test]
fn copy_of_a_snapshot_shows_no_change() {
    let mut entries = Vec::new();
    for i in 0..20u64 {
        entries.push(doc(&format!("h{}", i % 7), &format!("f{}", i), &format!("/d{}", i % 3), OLD));
    }
    // the copy, in reverse order, with one record stored twice in both
    entries.push(doc("h0", "f0", "/d0", OLD));
    entries.push(doc("h0", "f0", "/d0", NEW));
    for i in (0..20u64).rev() {
        entries.push(doc(&format!("h{}", i % 7), &format!("f{}", i), &format!("/d{}", i % 3), NEW));
    }
    let rs = compare_entries(entries).unwrap();
    assert_eq!(rs.unchanged, 21);
    assert!(rs.renamed.is_empty());
    assert!(rs.moved.is_empty());
    assert!(rs.added.is_empty());
    assert!(rs.missing.is_empty());
    assert!(rs.after_unchanged.is_empty());
}

#[test]
fn every_record_has_exactly_one_outcome() {
    let entries = vec![
        doc("h1", "same", "/d", OLD),
        doc("h2", "old_name", "/d", OLD),
        doc("h2", "twin", "/d", OLD),
        doc("h3", "file", "/from", OLD),
        doc("h4", "gone", "/d", OLD),
        doc("h9", "ancient", "/d", 10),
        doc("h1", "same", "/d", NEW),
        doc("h2", "new_name", "/d", NEW),
        doc("h3", "file", "/to", NEW),
        doc("h3", "file", "/elsewhere", NEW),
        doc("h5", "fresh", "/d", NEW),
    ];
    let fed = sorted(clone_docs(&entries).into_iter().filter(|d| d.mod_date != 10).collect());
    let rs = compare_entries(entries).unwrap();
    assert_eq!(sorted(clone_docs(&rs.seeded)), fed);

    let mut outcomes: Vec<Doc> = Vec::new();
    // the unchanged pairs are what the first phase took out of the working set
    let left = sorted(clone_docs(&rs.after_unchanged));
    let mut unchanged = 0;
    for d in clone_docs(&rs.seeded) {
        let key = (d.hash.clone(), d.name.clone(), d.path.clone(), d.mod_date);
        if !left.contains(&key) {
            unchanged += 1;
            outcomes.push(d);
        }
    }
    assert_eq!(unchanged, 2 * rs.unchanged);
    for r in rs.renamed.iter() {
        outcomes.push(doc(&r.doc.hash, &r.doc.name, &r.doc.path, r.doc.mod_date));
        outcomes.push(doc(&r.doc.hash, &r.new_name, &r.doc.path, rs.latest));
    }
    for m in rs.moved.iter() {
        outcomes.push(doc(&m.doc.hash, &m.doc.name, &m.doc.path, m.doc.mod_date));
        outcomes.push(doc(&m.doc.hash, &m.doc.name, &m.dest_path, rs.latest));
    }
    outcomes.extend(clone_docs(&rs.added));
    outcomes.extend(clone_docs(&rs.missing));
    assert_eq!(sorted(outcomes), fed);
    assert_eq!(rs.unchanged, 1);
    assert_eq!(rs.renamed.len(), 1);
    assert_eq!(rs.moved.len(), 1);
    assert_eq!(sorted(clone_docs(&rs.added)), sorted(vec![
        doc("h3", "file", "/elsewhere", NEW),
        doc("h5", "fresh", "/d", NEW),
    ]));
    assert_eq!(sorted(clone_docs(&rs.missing)), sorted(vec![
        doc("h2", "twin", "/d", OLD),
        doc("h4", "gone", "/d", OLD),
    ]));
}

#[test]
fn history_records_its_course() {
    let mut conn = tables(vec![
        doc("h0", "z", "/d", 500),
        doc("h1", "a", "/d", OLD),
        doc("h2", "b", "/d", OLD),
        doc("h1", "a", "/d", NEW),
        doc("h2", "c", "/d", NEW),
    ]);
    let rs = history(&mut conn).unwrap();
    assert_eq!(rs.revisions, vec![NEW, OLD, 500]);
    assert_eq!((rs.latest, rs.previous), (NEW, OLD));
    assert_eq!(rs.seeded.len(), 4);
    assert_eq!(rs.unchanged, 1);
    assert_eq!(rs.after_unchanged, vec![doc("h2", "b", "/d", OLD), doc("h2", "c", "/d", NEW)]);
    assert_eq!(rs.renamed.len(), 1);
    assert!(rs.after_renamed.is_empty());
    assert!(rs.after_moved.is_empty());
    assert_eq!(get_doclist_from_table("working_entries", &conn), Some(Vec::new()));
    assert_eq!(get_doclist_from_table("touched_entries", &conn).unwrap().len(), 4);
    assert_eq!(get_doclist_from_table("dir_entries", &conn).unwrap().len(), 5);
}

#[test]
fn history_without_a_prior_snapshot_leaves_the_tables() {
    let mut conn = tables(vec![doc("h1", "a", "/d", OLD), doc("h2", "b", "/d", OLD)]);
    setup_working_tables(&mut conn);
    load_working_table(OLD, OLD, &mut conn);
    assert!(history(&mut conn).is_err());
    assert_eq!(get_doclist_from_table("working_entries", &conn).unwrap().len(), 2);
}

#[test]
fn records_of_one_snapshot_are_selected_in_order() {
    let docs = vec![doc("h1", "a", "/d", OLD), doc("h2", "b", "/d", NEW), doc("h3", "c", "/d", OLD)];
    assert_eq!(
        records_of_snapshot(&docs, OLD),
        vec![doc("h1", "a", "/d", OLD), doc("h3", "c", "/d", OLD)]
    );
    assert_eq!(records_of_snapshot(&docs, 7), Vec::<Doc>::new());
}
