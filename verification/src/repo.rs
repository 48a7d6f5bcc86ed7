//! The note repository: composes the record store and the inverted index
//! and exposes create, list, delete and search.  The store is the source of
//! truth; the index is a derived accelerator that can be rebuilt from it.
//! The one ordering rule: a store mutation always precedes the matching
//! index mutation.  Durable writes are performed by the caller on the two
//! encoded snapshots; each operation takes the outcome of those writes as
//! the `store_committed` / `index_committed` events and reports the typed
//! result the protocol prescribes.

use vstd::prelude::*;
use crate::store::Note;
use crate::store::NoteV;
use crate::store::RecordStore;
use crate::store::notes_v;
use crate::store::remove_id;
use crate::store::contains_id;
use crate::store::lemma_remove_id;
use crate::index::InvertedIndex;
use crate::index::SearchHit;
use crate::index::search_valid;
use crate::index::hit_from_docs;
use crate::index::hits_have_id;
use crate::index::doc_score;
use crate::index::RESULT_LIMIT;
use crate::analyzer::spec_tokens;
use crate::codec::dec_store;
use crate::codec::dec_index;
use crate::codec::enc_store;
use crate::codec::enc_index;

verus! {

/// Everything a repository operation can report.
#[derive(Debug)]
pub enum RepoError {
    /// The on-disk index data cannot be parsed under the expected schema.
    IndexCorrupt,
    /// A durable write of the index did not complete; the index is left at
    /// its last committed state.
    CommitFailed,
    /// The record-store snapshot could not be read or written.
    StoreIOError,
    /// A delete named an id absent from the store; nothing was mutated.
    NotFound,
    /// The store write succeeded but the index write failed: the note with
    /// this id is stored but not searchable until the index is rebuilt.
    PartialFailure(String),
}

/// Relies on `uuid::Uuid::new_v4` and the `Display` impl of `uuid::Uuid`:
/// a random version-4 UUID rendered in its hyphenated form, which is
/// always 36 characters.  Nothing can be promised about which id comes
/// back: the value is random.
#[verifier::external_body]
fn uuid_v4_string() -> (r: String)
    ensures
        r@.len() == 36,
{
    uuid::Uuid::new_v4().to_string()
}

/// A fresh note id: a random version-4 UUID in hyphenated text form.
pub fn generate_id() -> (r: String)
    ensures
        r@.len() == 36,
{
    uuid_v4_string()
}

/// The repository: the authoritative record store and the derived search
/// index.
pub struct Repository {
    pub store: RecordStore,
    pub index: InvertedIndex,
}

impl Repository {
    /// The repository's invariant: the index posting lists are exactly
    /// consistent with its stored documents.
    pub open spec fn wf(self) -> bool {
        self.index.wf()
    }

    /// An empty repository: first run, nothing stored, nothing indexed.
    pub fn new() -> (r: Repository)
        ensures
            r.wf(),
            r.store.v() == Seq::<NoteV>::empty(),
            r.index.dv() == Seq::<NoteV>::empty(),
    {
        Repository { store: RecordStore::new(), index: InvertedIndex::new() }
    }

    /// Loads the record store from an existing snapshot, or starts empty
    /// when none exists yet: a first run is not an error.  Bytes that are
    /// not a store snapshot are `StoreIOError`.
    pub fn load_store(data: Option<&Vec<u8>>) -> (r: Result<RecordStore, RepoError>)
        ensures
            match data {
                None => (r matches Ok(st) && st.v() == Seq::<NoteV>::empty()),
                Some(b) => match dec_store(b@) {
                    Some(l) => (r matches Ok(st) && st.v() == l),
                    None => r == Err::<RecordStore, RepoError>(RepoError::StoreIOError),
                },
            },
    {
        match data {
            None => Ok(RecordStore::new()),
            Some(b) => match crate::codec::decode_store(b) {
                Some(notes) => Ok(RecordStore { notes }),
                None => Err(RepoError::StoreIOError),
            },
        }
    }

    /// Opens an existing index snapshot, rebuilding its postings from the
    /// stored documents, or creates an empty index with the fixed field
    /// schema when none exists yet.  Bytes that are not an index snapshot
    /// under the expected schema are `IndexCorrupt`.
    pub fn open_or_create_index(data: Option<&Vec<u8>>) -> (r: Result<InvertedIndex, RepoError>)
        ensures
            match data {
                None => (r matches Ok(ix) && ix.wf() && ix.dv() == Seq::<NoteV>::empty()),
                Some(b) => match dec_index(b@) {
                    Some(l) => (r matches Ok(ix) && ix.wf() && ix.dv() == l),
                    None => r == Err::<InvertedIndex, RepoError>(RepoError::IndexCorrupt),
                },
            },
    {
        match data {
            None => Ok(InvertedIndex::new()),
            Some(b) => match crate::codec::decode_index(b) {
                Some(docs) => Ok(InvertedIndex::from_docs(docs)),
                None => Err(RepoError::IndexCorrupt),
            },
        }
    }

    /// The byte snapshot of the record store, overwritten whole on every
    /// mutation.
    pub fn store_snapshot(&self) -> (r: Vec<u8>)
        ensures
            r@ == enc_store(self.store.v()),
    {
        crate::codec::encode_store(&self.store)
    }

    /// The byte snapshot of the index.
    pub fn index_snapshot(&self) -> (r: Vec<u8>)
        ensures
            r@ == enc_index(self.index.dv()),
    {
        crate::codec::encode_index(&self.index)
    }

    /// Creates a note under a freshly generated id.  The store is mutated
    /// first, then the index.  `store_committed` and `index_committed`
    /// report whether the caller's durable write of each snapshot
    /// completed: a failed store write mutates nothing and is
    /// `StoreIOError`; a store write followed by a failed index write
    /// leaves the note stored but unindexed and is `PartialFailure` naming
    /// the id, so the caller can rebuild instead of re-creating.
    pub fn create(
        &mut self,
        title: String,
        content: String,
        store_committed: bool,
        index_committed: bool,
    ) -> (r: Result<Note, RepoError>)
        requires
            old(self).wf(),
        ensures
            final(self).wf(),
            !store_committed ==> *final(self) == *old(self) && r == Err::<Note, RepoError>(
                RepoError::StoreIOError,
            ),
            store_committed && !index_committed ==> (r matches Err(e) && (e matches
                RepoError::PartialFailure(pid) && pid@.len() == 36 && final(self).store.v() == old(self).store.v().push((NoteV { id: pid@, title: title@, content: content@ })) && final(self).index == old(self).index)),
            store_committed && index_committed ==> (r matches Ok(note) && note.id@.len() == 36
                && note.title@ == title@ && note.content@ == content@ && final(self).store.v()
                == old(self).store.v().push(note.v()) && final(self).index.dv() == old(self).index.dv().push(note.v())),
    {
        let id = generate_id();
        let note = Note { id, title, content };
        if !store_committed {
            return Err(RepoError::StoreIOError);
        }
        self.store.append(note.clone());
        if !index_committed {
            return Err(RepoError::PartialFailure(note.id));
        }
        self.index.add(&note);
        Ok(note)
    }

    /// The notes, read from the store only, in creation order.
    pub fn list(&self) -> (r: Vec<Note>)
        ensures
            notes_v(r@) == self.store.v(),
    {
        self.store.list()
    }

    /// Deletes by id.  An absent id mutates nothing and is `NotFound`.
    /// Otherwise the store removal comes first; if its write failed nothing
    /// is mutated (`StoreIOError`).  The index delete follows and is
    /// best-effort: if its write failed the store removal stands and
    /// `CommitFailed` is reported, the index left at its last committed
    /// state, to be rebuilt from the authoritative store.
    pub fn delete(
        &mut self,
        id: &str,
        store_committed: bool,
        index_committed: bool,
    ) -> (r: Result<(), RepoError>)
        requires
            old(self).wf(),
        ensures
            final(self).wf(),
            !contains_id(old(self).store.v(), id@) ==> *final(self) == *old(self) && r == Err::<
                (),
                RepoError,
            >(RepoError::NotFound),
            contains_id(old(self).store.v(), id@) && !store_committed ==> *final(self) == *old(self) && r == Err::<(), RepoError>(RepoError::StoreIOError),
            contains_id(old(self).store.v(), id@) && store_committed ==> final(self).store.v()
                == remove_id(old(self).store.v(), id@),
            contains_id(old(self).store.v(), id@) && store_committed && index_committed ==> final(self).index.dv() == remove_id(old(self).index.dv(), id@) && r == Ok::<(), RepoError>(()),
            contains_id(old(self).store.v(), id@) && store_committed && !index_committed ==> final(self).index == old(self).index && r == Err::<(), RepoError>(RepoError::CommitFailed),
    {
        if !self.store.contains(id) {
            return Err(RepoError::NotFound);
        }
        if !store_committed {
            return Err(RepoError::StoreIOError);
        }
        self.store.remove(id);
        if !index_committed {
            return Err(RepoError::CommitFailed);
        }
        self.index.delete(id);
        Ok(())
    }

    /// Ranked full-text lookup, answered by the index alone: a note stored
    /// but not indexed does not appear until the index is rebuilt.
    pub fn search(&self, query: &str) -> (r: Vec<SearchHit>)
        requires
            self.wf(),
        ensures
            r@.len() <= RESULT_LIMIT,
            exists|pos: Seq<int>|
                search_valid(self.index.dv(), spec_tokens(query@), r@, pos),
            forall|k1: int, k2: int|
                0 <= k1 < k2 < r@.len() ==> (#[trigger] r@[k1]).score >= (#[trigger] r@[k2]).score,
            forall|k: int| 0 <= k < r@.len() ==> hit_from_docs(self.index.dv(), #[trigger] r@[k]),
            forall|i: int|
                0 <= i < self.index.dv().len() && #[trigger] doc_score(
                    self.index.dv(),
                    i,
                    spec_tokens(query@),
                ) > 0 && r@.len() < RESULT_LIMIT ==> hits_have_id(r@, self.index.dv()[i].id),
    {
        self.index.search(query)
    }

    /// Rebuilds the index from the authoritative store: clears it and
    /// re-adds every stored note.  Afterwards the index holds exactly the
    /// store's notes.
    pub fn rebuild(&mut self)
        ensures
            final(self).wf(),
            final(self).store == old(self).store,
            final(self).index.dv() == old(self).store.v(),
    {
        let notes = self.store.list();
        let ghost sv = self.store.v();
        let mut ix = InvertedIndex::new();
        proof {
            assert(sv.take(0) =~= Seq::<NoteV>::empty());
        }
        let mut i: usize = 0;
        while i < notes.len()
            invariant
                i <= notes@.len(),
                notes_v(notes@) == sv,
                ix.wf(),
                ix.dv() == sv.take(i as int),
            decreases notes@.len() - i,
        {
            ix.add(&notes[i]);
            proof {
                assert(sv.take(i as int).push(notes@[i as int].v()) =~= sv.take(i as int + 1));
            }
            i += 1;
        }
        proof {
            assert(sv.take(notes@.len() as int) =~= sv);
        }
        self.index = ix;
    }
}

/// Consistency on delete: once the index's documents are those left after
/// removing an id, no search hit carries that id.
pub proof fn lemma_removed_id_unsearchable(
    old_docs: Seq<NoteV>,
    id: Seq<char>,
    h: SearchHit,
)
    requires
        hit_from_docs(remove_id(old_docs, id), h),
    ensures
        h.id@ != id,
{
    lemma_remove_id(old_docs, id);
}

/// Partial-failure visibility: while no index document carries an id, no
/// search hit carries it either, however the query is chosen — a stored
/// but unindexed note is invisible to search until the index is rebuilt.
pub proof fn lemma_unindexed_id_unsearchable(docs: Seq<NoteV>, id: Seq<char>, h: SearchHit)
    requires
        !contains_id(docs, id),
        hit_from_docs(docs, h),
    ensures
        h.id@ != id,
{
    let i = choose|i: int| 0 <= i < docs.len() && (#[trigger] docs[i]).id == h.id@;
    if h.id@ == id {
        assert(contains_id(docs, id));
    }
}

} // verus!
