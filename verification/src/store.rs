//! The in-memory document store: an insertion-ordered collection of document
//! records with unique identifiers.
//!
//! The surrounding application serializes access to a `Store` (one lock
//! around the whole value); every operation here is a plain sequential
//! mutation with an exact contract, so no caller can observe a partially
//! inserted or partially removed record.

use crate::DocError;
use vstd::prelude::*;

verus! {

/// One ingested document: its identifier, the user-supplied filename, the
/// ingestion timestamp, the word count of the extracted text, and the summary
/// computed at ingestion time. Records are never mutated after creation.
pub struct DocumentRecord {
    pub id: String,
    pub filename: String,
    pub timestamp: String,
    pub word_count: usize,
    pub summary: String,
}

/// The mathematical content of a `DocumentRecord`.
pub struct RecordModel {
    pub id: Seq<char>,
    pub filename: Seq<char>,
    pub timestamp: Seq<char>,
    pub word_count: int,
    pub summary: Seq<char>,
}

impl View for DocumentRecord {
    type V = RecordModel;

    open spec fn view(&self) -> RecordModel {
        RecordModel {
            id: self.id@,
            filename: self.filename@,
            timestamp: self.timestamp@,
            word_count: self.word_count as int,
            summary: self.summary@,
        }
    }
}

impl DocumentRecord {
    /// A copy of this record.
    pub fn clone_record(&self) -> (r: DocumentRecord)
        ensures
            r@ == self@,
    {
        DocumentRecord {
            id: self.id.clone(),
            filename: self.filename.clone(),
            timestamp: self.timestamp.clone(),
            word_count: self.word_count,
            summary: self.summary.clone(),
        }
    }
}

/// The models of a sequence of records.
pub open spec fn rec_views(rs: Seq<DocumentRecord>) -> Seq<RecordModel> {
    rs.map_values(|r: DocumentRecord| r@)
}

/// Whether some record of `s` carries the identifier `id`.
pub open spec fn contains_id(s: Seq<RecordModel>, id: Seq<char>) -> bool {
    exists|k: int| 0 <= k < s.len() && s[k].id == id
}

/// The index of the first record of `s` carrying `id` (the length of `s`
/// if there is none).
pub open spec fn first_index_of(s: Seq<RecordModel>, id: Seq<char>) -> int
    decreases s.len(),
{
    if s.len() == 0 {
        0
    } else if s[0].id == id {
        0
    } else {
        1 + first_index_of(s.drop_first(), id)
    }
}

/// All identifiers of `s` are distinct.
pub open spec fn unique_ids(s: Seq<RecordModel>) -> bool {
    forall|k1: int, k2: int| 0 <= k1 < k2 < s.len() ==> s[k1].id != s[k2].id
}

pub(crate) proof fn lemma_first_index_at(s: Seq<RecordModel>, id: Seq<char>, p: int)
    requires
        0 <= p <= s.len(),
        forall|k: int| 0 <= k < p ==> s[k].id != id,
        p < s.len() ==> s[p].id == id,
    ensures
        first_index_of(s, id) == p,
        p == s.len() ==> !contains_id(s, id),
        p < s.len() ==> contains_id(s, id),
    decreases p,
{
    if p > 0 {
        lemma_first_index_at(s.drop_first(), id, p - 1);
    }
    if p == s.len() {
        assert(!contains_id(s, id));
    }
}

/// The insertion-ordered in-memory registry of ingested documents.
pub struct Store {
    records: Vec<DocumentRecord>,
}

impl View for Store {
    type V = Seq<RecordModel>;

    closed spec fn view(&self) -> Seq<RecordModel> {
        rec_views(self.records@)
    }
}

impl Store {
    /// Identifiers in the store are unique.
    pub open spec fn wf(&self) -> bool {
        unique_ids(self@)
    }

    /// An empty store.
    pub fn new() -> (r: Store)
        ensures
            r@ == Seq::<RecordModel>::empty(),
            r.wf(),
    {
        let r = Store { records: Vec::new() };
        proof {
            assert(r@ =~= Seq::<RecordModel>::empty());
        }
        r
    }

    /// The number of records held.
    pub fn len(&self) -> (r: usize)
        ensures
            r == self@.len(),
    {
        self.records.len()
    }

    /// The index of the first record carrying `id`, if any.
    fn position_of(&self, id: &str) -> (r: Option<usize>)
        ensures
            match r {
                Some(idx) => {
                    &&& idx < self@.len()
                    &&& self@[idx as int].id == id@
                    &&& forall|k: int| 0 <= k < idx ==> self@[k].id != id@
                    &&& idx as int == first_index_of(self@, id@)
                    &&& contains_id(self@, id@)
                },
                None => !contains_id(self@, id@),
            },
    {
        let key: String = id.to_owned();
        let n: usize = self.records.len();
        let mut i: usize = 0;
        let mut r: Option<usize> = None;
        loop
            invariant
                i <= n,
                n == self@.len(),
                forall|k: int| 0 <= k < i ==> self@[k].id != id@,
                key@ == id@,
            ensures
                match r {
                    Some(idx) => {
                        &&& idx < self@.len()
                        &&& self@[idx as int].id == id@
                        &&& forall|k: int| 0 <= k < idx ==> self@[k].id != id@
                        &&& idx as int == first_index_of(self@, id@)
                        &&& contains_id(self@, id@)
                    },
                    None => !contains_id(self@, id@),
                },
            decreases n - i,
        {
            if i == n {
                proof {
                    lemma_first_index_at(self@, id@, i as int);
                }
                r = None;
                break ;
            }
            let rec: &DocumentRecord = &self.records[i];
            if rec.id == key {
                proof {
                    lemma_first_index_at(self@, id@, i as int);
                }
                r = Some(i);
                break ;
            }
            i = i + 1;
        }
        r
    }

    /// Append `record`; refuse a duplicate identifier, leaving the store
    /// unchanged.
    pub fn insert(&mut self, record: DocumentRecord) -> (r: Result<(), DocError>)
        requires
            old(self).wf(),
        ensures
            final(self).wf(),
            match r {
                Ok(()) => {
                    &&& !contains_id(old(self)@, record@.id)
                    &&& final(self)@ == old(self)@.push(record@)
                },
                Err(e) => {
                    &&& e == DocError::DuplicateId
                    &&& contains_id(old(self)@, record@.id)
                    &&& final(self)@ == old(self)@
                },
            },
    {
        let dup: Option<usize> = self.position_of(record.id.as_str());
        match dup {
            Some(_) => Err(DocError::DuplicateId),
            None => {
                let ghost old_view = self@;
                self.records.push(record);
                proof {
                    assert(self@ =~= old_view.push(record@));
                }
                Ok(())
            },
        }
    }

    /// A copy of the first record carrying `id`, if any.
    pub fn get(&self, id: &str) -> (r: Option<DocumentRecord>)
        ensures
            match r {
                Some(rec) => {
                    &&& contains_id(self@, id@)
                    &&& rec@ == self@[first_index_of(self@, id@)]
                    &&& rec@.id == id@
                },
                None => !contains_id(self@, id@),
            },
    {
        match self.position_of(id) {
            Some(idx) => Some(self.records[idx].clone_record()),
            None => None,
        }
    }

    /// A snapshot of all records, in insertion order.
    pub fn list(&self) -> (r: Vec<DocumentRecord>)
        ensures
            rec_views(r@) == self@,
    {
        let n: usize = self.records.len();
        let mut out: Vec<DocumentRecord> = Vec::new();
        let mut i: usize = 0;
        while i < n
            invariant
                i <= n,
                n == self.records@.len(),
                rec_views(out@) =~= self@.take(i as int),
            decreases n - i,
        {
            let copy: DocumentRecord = self.records[i].clone_record();
            let ghost prev = rec_views(out@);
            out.push(copy);
            proof {
                assert(rec_views(out@) =~= prev.push(self@[i as int]));
                assert(rec_views(out@) =~= self@.take(i as int + 1));
            }
            i = i + 1;
        }
        proof {
            assert(self@.take(n as int) =~= self@);
        }
        out
    }

    /// Atomically remove and return the first record carrying `id`, if any.
    pub fn remove(&mut self, id: &str) -> (r: Option<DocumentRecord>)
        requires
            old(self).wf(),
        ensures
            final(self).wf(),
            match r {
                Some(rec) => {
                    &&& contains_id(old(self)@, id@)
                    &&& rec@ == old(self)@[first_index_of(old(self)@, id@)]
                    &&& rec@.id == id@
                    &&& final(self)@ == old(self)@.remove(first_index_of(old(self)@, id@))
                },
                None => {
                    &&& !contains_id(old(self)@, id@)
                    &&& final(self)@ == old(self)@
                },
            },
    {
        match self.position_of(id) {
            Some(idx) => {
                let ghost old_view = self@;
                let rec: DocumentRecord = self.records.remove(idx);
                proof {
                    old_view.remove_ensures(idx as int);
                    assert(self@ =~= old_view.remove(idx as int));
                    assert(final(self).wf()) by {
                        assert forall|k1: int, k2: int|
                            0 <= k1 < k2 < self@.len() implies self@[k1].id != self@[k2].id by {
                            let o1 = if k1 < idx {
                                k1
                            } else {
                                k1 + 1
                            };
                            let o2 = if k2 < idx {
                                k2
                            } else {
                                k2 + 1
                            };
                            assert(self@[k1] == old_view[o1]);
                            assert(self@[k2] == old_view[o2]);
                        }
                    }
                }
                Some(rec)
            },
            None => None,
        }
    }
}

/// Removing a freshly appended record restores the prior sequence: the
/// round trip of inserting a record with a fresh identifier and then deleting
/// that identifier is the identity on the store's contents.
pub proof fn lemma_insert_remove_round_trip(s: Seq<RecordModel>, rec: RecordModel)
    requires
        !contains_id(s, rec.id),
    ensures
        contains_id(s.push(rec), rec.id),
        first_index_of(s.push(rec), rec.id) == s.len(),
        s.push(rec).remove(s.len() as int) == s,
{
    let s2 = s.push(rec);
    assert(s2[s.len() as int].id == rec.id);
    assert forall|k: int| 0 <= k < s.len() implies s2[k].id != rec.id by {
        assert(s2[k] == s[k]);
    }
    lemma_first_index_at(s2, rec.id, s.len() as int);
    assert(s2.remove(s.len() as int) =~= s);
}

} // verus!
