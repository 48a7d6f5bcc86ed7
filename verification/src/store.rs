//! The record store: the authoritative, insertion-ordered list of notes.
//! It is loaded as a whole and rewritten as a whole on every mutation; the
//! byte snapshot itself is produced and parsed by the codec module.

use vstd::prelude::*;

verus! {

/// A note: an opaque unique id and two text fields.
pub struct Note {
    pub id: String,
    pub title: String,
    pub content: String,
}

/// The mathematical value of a note: its three fields as character
/// sequences.
pub struct NoteV {
    pub id: Seq<char>,
    pub title: Seq<char>,
    pub content: Seq<char>,
}

impl Note {
    /// The value of this note.
    pub open spec fn v(self) -> NoteV {
        (NoteV { id: self.id@, title: self.title@, content: self.content@ })
    }
}

impl Clone for Note {
    fn clone(&self) -> (r: Note)
        ensures
            r.v() == self.v(),
    {
        Note { id: self.id.clone(), title: self.title.clone(), content: self.content.clone() }
    }
}

/// The values of a sequence of notes.
pub open spec fn notes_v(s: Seq<Note>) -> Seq<NoteV> {
    s.map_values(|n: Note| n.v())
}

/// `s` without the notes whose id is `id`, order preserved.
pub open spec fn remove_id(s: Seq<NoteV>, id: Seq<char>) -> Seq<NoteV>
    decreases s.len(),
{
    if s.len() == 0 {
        Seq::<NoteV>::empty()
    } else if s.last().id == id {
        remove_id(s.drop_last(), id)
    } else {
        remove_id(s.drop_last(), id).push(s.last())
    }
}

/// Whether some note in `s` has id `id`.
pub open spec fn contains_id(s: Seq<NoteV>, id: Seq<char>) -> bool {
    exists|i: int| 0 <= i < s.len() && s[i].id == id
}

/// Removing an id removes every note with it and no other.
pub proof fn lemma_remove_id(s: Seq<NoteV>, id: Seq<char>)
    ensures
        forall|i: int|
            0 <= i < remove_id(s, id).len() ==> (#[trigger] remove_id(s, id)[i]).id != id,
        !contains_id(s, id) ==> remove_id(s, id) == s,
    decreases s.len(),
{
    if s.len() == 0 {
        assert(remove_id(s, id) =~= s);
    } else {
        lemma_remove_id(s.drop_last(), id);
        let r = remove_id(s, id);
        let rd = remove_id(s.drop_last(), id);
        if s.last().id != id {
            assert(r == rd.push(s.last()));
            assert(forall|i: int| 0 <= i < r.len() ==> (#[trigger] r[i]).id != id) by {
                assert(forall|i: int| 0 <= i < r.len() - 1 ==> r[i] == rd[i]);
                assert(r[r.len() - 1] == s.last());
            }
        }
        if !contains_id(s, id) {
            assert(forall|i: int|
                0 <= i < s.drop_last().len() ==> s.drop_last()[i] == s[i]);
            assert(s.last().id != id);
            assert(!contains_id(s.drop_last(), id));
            assert(remove_id(s, id) =~= s);
        }
    }
}

/// Whether two strings hold the same characters.
pub fn str_eq(a: &str, b: &str) -> (r: bool)
    ensures
        r == (a@ == b@),
{
    let na: usize = a.unicode_len();
    let nb: usize = b.unicode_len();
    if na != nb {
        proof {
            assert(a@ != b@);
        }
        return false;
    }
    let mut i: usize = 0;
    while i < na
        invariant
            i <= na,
            na == a@.len(),
            na == b@.len(),
            forall|k: int| 0 <= k < i ==> a@[k] == b@[k],
        decreases na - i,
    {
        if a.get_char(i) != b.get_char(i) {
            return false;
        }
        i += 1;
    }
    proof {
        assert(a@ =~= b@);
    }
    true
}

/// The record store: the canonical notes, in creation order.
pub struct RecordStore {
    pub notes: Vec<Note>,
}

impl RecordStore {
    /// The mathematical value of the store: the note values in order.
    pub open spec fn v(self) -> Seq<NoteV> {
        notes_v(self.notes@)
    }

    /// An empty store: the first run, before anything was saved.
    pub fn new() -> (r: RecordStore)
        ensures
            r.v() == Seq::<NoteV>::empty(),
    {
        let r = RecordStore { notes: Vec::new() };
        proof {
            assert(r.v() =~= Seq::<NoteV>::empty());
        }
        r
    }

    /// Appends a note at the end of the snapshot.
    pub fn append(&mut self, note: Note)
        ensures
            final(self).v() == old(self).v().push(note.v()),
    {
        let ghost prev = self.v();
        let ghost nv = note.v();
        self.notes.push(note);
        proof {
            assert(self.v() =~= prev.push(nv));
        }
    }

    /// A copy of the notes, in creation order.
    pub fn list(&self) -> (r: Vec<Note>)
        ensures
            notes_v(r@) == self.v(),
    {
        let mut out: Vec<Note> = Vec::new();
        let mut i: usize = 0;
        proof {
            assert(notes_v(out@) =~= Seq::<NoteV>::empty());
            assert(self.v().take(0) =~= Seq::<NoteV>::empty());
        }
        while i < self.notes.len()
            invariant
                i <= self.notes.len(),
                notes_v(out@) == self.v().take(i as int),
            decreases self.notes.len() - i,
        {
            let ghost prev = notes_v(out@);
            out.push(self.notes[i].clone());
            proof {
                assert(notes_v(out@) =~= prev.push(self.notes@[i as int].v()));
                assert(self.v().take(i as int + 1) =~= self.v().take(i as int).push(
                    self.v()[i as int],
                ));
            }
            i += 1;
        }
        proof {
            assert(self.v().take(self.notes@.len() as int) =~= self.v());
        }
        out
    }

    /// Whether a note with the given id is stored.
    pub fn contains(&self, id: &str) -> (r: bool)
        ensures
            r == contains_id(self.v(), id@),
    {
        let mut i: usize = 0;
        while i < self.notes.len()
            invariant
                i <= self.notes.len(),
                forall|k: int| 0 <= k < i ==> (#[trigger] self.v()[k]).id != id@,
            decreases self.notes.len() - i,
        {
            if str_eq(self.notes[i].id.as_str(), id) {
                proof {
                    assert(self.v()[i as int].id == id@);
                }
                return true;
            }
            i += 1;
        }
        false
    }

    /// Removes every note whose id is `id`; reports whether any was present.
    pub fn remove(&mut self, id: &str) -> (r: bool)
        ensures
            final(self).v() == remove_id(old(self).v(), id@),
            r == contains_id(old(self).v(), id@),
    {
        remove_with_id(&mut self.notes, id)
    }
}

/// Removes from `notes` every note whose id is `id`; reports whether any
/// was present.
pub fn remove_with_id(notes: &mut Vec<Note>, id: &str) -> (r: bool)
    ensures
        notes_v(final(notes)@) == remove_id(notes_v(old(notes)@), id@),
        r == contains_id(notes_v(old(notes)@), id@),
{
    {
        let ghost orig = notes_v(notes@);
        let mut out: Vec<Note> = Vec::new();
        let mut found = false;
        let mut i: usize = 0;
        proof {
            assert(notes_v(out@) =~= Seq::<NoteV>::empty());
            assert(remove_id(orig.take(0), id@) =~= Seq::<NoteV>::empty());
        }
        while i < notes.len()
            invariant
                i <= notes.len(),
                notes_v(out@) == remove_id(orig.take(i as int), id@),
                found == contains_id(orig.take(i as int), id@),
                orig == notes_v(notes@),
            decreases notes.len() - i,
        {
            let ghost prev = notes_v(out@);
            let ghost pfx = orig.take(i as int);
            let ghost ext = orig.take(i as int + 1);
            proof {
                assert(ext =~= pfx.push(orig[i as int]));
                assert(ext.drop_last() =~= pfx);
                assert(ext.last() == orig[i as int]);
            }
            let keep = !str_eq(notes[i].id.as_str(), id);
            if keep {
                out.push(notes[i].clone());
                proof {
                    assert(notes_v(out@) =~= prev.push(orig[i as int]));
                    assert(contains_id(ext, id@) == contains_id(pfx, id@)) by {
                        if contains_id(ext, id@) {
                            let k = choose|k: int|
                                0 <= k < ext.len() && ext[k].id == id@;
                            assert(k < pfx.len());
                            assert(pfx[k].id == id@);
                        }
                        if contains_id(pfx, id@) {
                            let k = choose|k: int|
                                0 <= k < pfx.len() && pfx[k].id == id@;
                            assert(ext[k].id == id@);
                        }
                    }
                }
            } else {
                found = true;
                proof {
                    assert(ext[i as int].id == id@);
                    assert(contains_id(ext, id@));
                }
            }
            i += 1;
        }
        proof {
            assert(orig.take(notes@.len() as int) =~= orig);
        }
        *notes = out;
        found
    }
}

} // verus!
