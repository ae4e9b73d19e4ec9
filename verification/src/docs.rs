//! File records and the entries that a comparison reports.

use vstd::prelude::*;

verus! {

/// One file as it stood when a snapshot was taken.
///
/// `mod_date` is the capture time of the snapshot that the record belongs to,
/// in whole milliseconds since the Unix epoch. Every record of one snapshot
/// carries the same value, and records are told apart by snapshot at this
/// precision everywhere: two captures within one millisecond are one snapshot.
#[derive(Debug, PartialEq, Eq)]
pub struct Doc {
    pub hash: String,
    pub name: String,
    pub path: String,
    pub mod_date: u64,
}

/// A file whose parent directory changed between two snapshots.
///
/// `doc` is the record of the older snapshot, so `doc.path` is the directory
/// the file left; `dest_path` is the directory it stands in now.
#[derive(Debug, PartialEq, Eq)]
pub struct MovedDoc {
    pub doc: Doc,
    pub dest_path: String,
}

/// A file whose name changed between two snapshots.
///
/// `doc` is the record of the older snapshot, so `doc.name` is the name the
/// file had; `new_name` is the name it has now.
#[derive(Debug, PartialEq, Eq)]
pub struct RenamedDoc {
    pub doc: Doc,
    pub new_name: String,
}

/// What a [`Doc`] holds, as mathematical values.
pub ghost struct DocView {
    pub hash: Seq<char>,
    pub name: Seq<char>,
    pub path: Seq<char>,
    pub mod_date: u64,
}

/// What a [`MovedDoc`] holds, as mathematical values.
pub ghost struct MovedDocView {
    pub doc: DocView,
    pub dest_path: Seq<char>,
}

/// What a [`RenamedDoc`] holds, as mathematical values.
pub ghost struct RenamedDocView {
    pub doc: DocView,
    pub new_name: Seq<char>,
}

impl View for Doc {
    type V = DocView;

    open spec fn view(&self) -> DocView {
        DocView { hash: self.hash@, name: self.name@, path: self.path@, mod_date: self.mod_date }
    }
}

impl View for MovedDoc {
    type V = MovedDocView;

    open spec fn view(&self) -> MovedDocView {
        MovedDocView { doc: self.doc@, dest_path: self.dest_path@ }
    }
}

impl View for RenamedDoc {
    type V = RenamedDocView;

    open spec fn view(&self) -> RenamedDocView {
        RenamedDocView { doc: self.doc@, new_name: self.new_name@ }
    }
}

/// The views of a list of records, in order.
pub open spec fn doc_views(docs: Seq<Doc>) -> Seq<DocView> {
    docs.map_values(|d: Doc| d@)
}

/// The views of a list of moved entries, in order.
pub open spec fn moved_views(docs: Seq<MovedDoc>) -> Seq<MovedDocView> {
    docs.map_values(|d: MovedDoc| d@)
}

/// The views of a list of renamed entries, in order.
pub open spec fn renamed_views(docs: Seq<RenamedDoc>) -> Seq<RenamedDocView> {
    docs.map_values(|d: RenamedDoc| d@)
}

impl Clone for Doc {
    fn clone(&self) -> (copy: Self)
        ensures
            copy@ == self@,
    {
        Doc {
            hash: self.hash.clone(),
            name: self.name.clone(),
            path: self.path.clone(),
            mod_date: self.mod_date,
        }
    }
}

impl Clone for MovedDoc {
    fn clone(&self) -> (copy: Self)
        ensures
            copy@ == self@,
    {
        MovedDoc { doc: self.doc.clone(), dest_path: self.dest_path.clone() }
    }
}

impl Clone for RenamedDoc {
    fn clone(&self) -> (copy: Self)
        ensures
            copy@ == self@,
    {
        RenamedDoc { doc: self.doc.clone(), new_name: self.new_name.clone() }
    }
}

/// Copies a list of records.
pub fn clone_docs(docs: &Vec<Doc>) -> (copy: Vec<Doc>)
    ensures
        doc_views(copy@) == doc_views(docs@),
{
    let mut copy: Vec<Doc> = Vec::new();
    let mut i: usize = 0;
    while i < docs.len()
        invariant
            0 <= i <= docs.len(),
            copy.len() == i,
            forall|k: int| 0 <= k < i ==> (#[trigger] copy@[k])@ == docs@[k]@,
        decreases docs.len() - i,
    {
        copy.push(docs[i].clone());
        i += 1;
    }
    assert(doc_views(copy@) =~= doc_views(docs@));
    copy
}

} // verus!
