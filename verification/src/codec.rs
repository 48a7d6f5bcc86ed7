//! The byte format of the two persisted snapshots.  Each file is a header
//! followed by a count and that many notes; every primitive is a
//! little-endian `u64`, characters are stored as their code points.  The
//! index snapshot starts with its own magic number and a schema tag, so a
//! mismatched or mangled file is recognized when it is opened; the store
//! snapshot has its own magic number.  Decoding accepts exactly the byte
//! strings this module produces: `dec_store` and `dec_index` are total
//! descriptions of the parse, and the round-trip lemmas show an encoded
//! snapshot always decodes to the value it was made from.

use vstd::prelude::*;
use vstd::bytes::spec_u64_to_le_bytes;
use vstd::bytes::spec_u64_from_le_bytes;
use vstd::bytes::lemma_auto_spec_u64_to_from_le_bytes;
use crate::store::NoteV;
use crate::store::Note;
use crate::store::RecordStore;
use crate::store::notes_v;
use crate::index::InvertedIndex;

verus! {

/// First eight bytes of a record-store snapshot.
pub const STORE_MAGIC: u64 = 0x31534554_4f4e;

/// First eight bytes of an index snapshot.
pub const INDEX_MAGIC: u64 = 0x31584544_4e49;

/// The tag of the fixed index field schema (id, title, content).
pub const INDEX_SCHEMA: u64 = 1;

/// The characters of `s`, each as its code point in eight bytes.
pub open spec fn enc_chars(s: Seq<char>) -> Seq<u8>
    decreases s.len(),
{
    if s.len() == 0 {
        Seq::<u8>::empty()
    } else {
        spec_u64_to_le_bytes((s[0] as u32) as u64) + enc_chars(s.skip(1))
    }
}

/// A string: its length, then its characters.
pub open spec fn enc_str(s: Seq<char>) -> Seq<u8> {
    spec_u64_to_le_bytes(s.len() as u64) + enc_chars(s)
}

/// A note: its three fields in order.
pub open spec fn enc_note(n: NoteV) -> Seq<u8> {
    enc_str(n.id) + enc_str(n.title) + enc_str(n.content)
}

/// A sequence of notes, one after the other.
pub open spec fn enc_notes(l: Seq<NoteV>) -> Seq<u8>
    decreases l.len(),
{
    if l.len() == 0 {
        Seq::<u8>::empty()
    } else {
        enc_note(l[0]) + enc_notes(l.skip(1))
    }
}

/// A record-store snapshot: magic, count, notes.
pub open spec fn enc_store(l: Seq<NoteV>) -> Seq<u8> {
    spec_u64_to_le_bytes(STORE_MAGIC) + spec_u64_to_le_bytes(l.len() as u64) + enc_notes(l)
}

/// An index snapshot: magic, schema tag, count, stored documents.
pub open spec fn enc_index(l: Seq<NoteV>) -> Seq<u8> {
    spec_u64_to_le_bytes(INDEX_MAGIC) + spec_u64_to_le_bytes(INDEX_SCHEMA) + spec_u64_to_le_bytes(
        l.len() as u64,
    ) + enc_notes(l)
}

/// The `u64` at byte offset `i`, if the bytes reach that far.
pub open spec fn dec_u64_at(b: Seq<u8>, i: int) -> Option<u64> {
    if 0 <= i && i + 8 <= b.len() {
        Some(spec_u64_from_le_bytes(b.subrange(i, i + 8)))
    } else {
        None
    }
}

/// The character at byte offset `i`: a stored code point that is a Unicode
/// scalar value.
pub open spec fn dec_char_at(b: Seq<u8>, i: int) -> Option<char> {
    match dec_u64_at(b, i) {
        Some(v) => if v <= u32::MAX && vstd::utf8::is_scalar(v as u32) {
            Some(((v as u32) as char))
        } else {
            None
        },
        None => None,
    }
}

/// `n` characters starting at byte offset `i`.
pub open spec fn dec_chars_at(b: Seq<u8>, i: int, n: nat) -> Option<Seq<char>>
    decreases n,
{
    if n == 0 {
        Some(Seq::<char>::empty())
    } else {
        match dec_char_at(b, i) {
            Some(c) => match dec_chars_at(b, i + 8, (n - 1) as nat) {
                Some(rest) => Some(seq![c] + rest),
                None => None,
            },
            None => None,
        }
    }
}

/// The string at byte offset `i` and the offset just past it.
pub open spec fn dec_str_at(b: Seq<u8>, i: int) -> Option<(Seq<char>, int)> {
    match dec_u64_at(b, i) {
        Some(n) => match dec_chars_at(b, i + 8, n as nat) {
            Some(s) => Some((s, i + 8 + 8 * (n as int))),
            None => None,
        },
        None => None,
    }
}

/// The note at byte offset `i` and the offset just past it.
pub open spec fn dec_note_at(b: Seq<u8>, i: int) -> Option<(NoteV, int)> {
    match dec_str_at(b, i) {
        Some((id, j)) => match dec_str_at(b, j) {
            Some((title, k)) => match dec_str_at(b, k) {
                Some((content, end)) => Some(
                    ((NoteV { id: id, title: title, content: content }), end),
                ),
                None => None,
            },
            None => None,
        },
        None => None,
    }
}

/// `cnt` notes starting at byte offset `i` and the offset just past them.
pub open spec fn dec_notes_at(b: Seq<u8>, i: int, cnt: nat) -> Option<(Seq<NoteV>, int)>
    decreases cnt,
{
    if cnt == 0 {
        Some((Seq::<NoteV>::empty(), i))
    } else {
        match dec_note_at(b, i) {
            Some((nv, j)) => match dec_notes_at(b, j, (cnt - 1) as nat) {
                Some((rest, end)) => Some((seq![nv] + rest, end)),
                None => None,
            },
            None => None,
        }
    }
}

/// The count and notes starting at byte offset `i`, accepted only when they
/// use the bytes exactly to the end.
pub open spec fn dec_payload(b: Seq<u8>, i: int) -> Option<Seq<NoteV>> {
    match dec_u64_at(b, i) {
        Some(cnt) => match dec_notes_at(b, i + 8, cnt as nat) {
            Some((s, end)) => if end == b.len() {
                Some(s)
            } else {
                None
            },
            None => None,
        },
        None => None,
    }
}

/// What a record-store snapshot means, if anything.
pub open spec fn dec_store(b: Seq<u8>) -> Option<Seq<NoteV>> {
    match dec_u64_at(b, 0) {
        Some(m) => if m == STORE_MAGIC {
            dec_payload(b, 8)
        } else {
            None
        },
        None => None,
    }
}

/// What an index snapshot means, if anything: the magic number and schema
/// tag must both match.
pub open spec fn dec_index(b: Seq<u8>) -> Option<Seq<NoteV>> {
    match dec_u64_at(b, 0) {
        Some(m) => if m != INDEX_MAGIC {
            None
        } else {
            match dec_u64_at(b, 8) {
                Some(sch) => if sch != INDEX_SCHEMA {
                    None
                } else {
                    dec_payload(b, 16)
                },
                None => None,
            }
        },
        None => None,
    }
}

/// Every note value that an actual note can hold: field lengths fit the
/// machine.
pub open spec fn note_fits(n: NoteV) -> bool {
    n.id.len() <= u64::MAX && n.title.len() <= u64::MAX && n.content.len() <= u64::MAX
}

/// The encoded characters take eight bytes each.
pub proof fn lemma_enc_chars_len(s: Seq<char>)
    ensures
        enc_chars(s).len() == 8 * s.len(),
    decreases s.len(),
{
    lemma_auto_spec_u64_to_from_le_bytes();
    if s.len() > 0 {
        lemma_enc_chars_len(s.skip(1));
    }
}

/// One more character extends the encoding at its end.
pub proof fn lemma_enc_chars_snoc(s: Seq<char>, c: char)
    ensures
        enc_chars(s.push(c)) == enc_chars(s) + spec_u64_to_le_bytes((c as u32) as u64),
    decreases s.len(),
{
    lemma_auto_spec_u64_to_from_le_bytes();
    let p = s.push(c);
    if s.len() == 0 {
        assert(p.skip(1) =~= Seq::<char>::empty());
        assert(enc_chars(p) =~= enc_chars(s) + spec_u64_to_le_bytes((c as u32) as u64));
    } else {
        assert(p.skip(1) =~= s.skip(1).push(c));
        lemma_enc_chars_snoc(s.skip(1), c);
        assert(p[0] == s[0]);
        assert(enc_chars(p) == spec_u64_to_le_bytes((p[0] as u32) as u64) + enc_chars(p.skip(1)));
        assert(enc_chars(s) == spec_u64_to_le_bytes((s[0] as u32) as u64) + enc_chars(s.skip(1)));
        assert(enc_chars(p) =~= enc_chars(s) + spec_u64_to_le_bytes((c as u32) as u64));
    }
}

/// One more note extends the encoding at its end.
pub proof fn lemma_enc_notes_snoc(l: Seq<NoteV>, n: NoteV)
    ensures
        enc_notes(l.push(n)) == enc_notes(l) + enc_note(n),
    decreases l.len(),
{
    lemma_auto_spec_u64_to_from_le_bytes();
    let p = l.push(n);
    if l.len() == 0 {
        assert(p.skip(1) =~= Seq::<NoteV>::empty());
        assert(enc_notes(p) == enc_note(p[0]) + enc_notes(p.skip(1)));
        assert(p[0] == n);
        assert(enc_notes(p.skip(1)) == Seq::<u8>::empty());
        assert(enc_notes(l) == Seq::<u8>::empty());
        assert(enc_note(n) + Seq::<u8>::empty() =~= Seq::<u8>::empty() + enc_note(n));
        assert(enc_notes(p) =~= enc_notes(l) + enc_note(n));
    } else {
        assert(p.skip(1) =~= l.skip(1).push(n));
        lemma_enc_notes_snoc(l.skip(1), n);
        assert(p[0] == l[0]);
        assert(enc_notes(p) == enc_note(p[0]) + enc_notes(p.skip(1)));
        assert(enc_notes(l) == enc_note(l[0]) + enc_notes(l.skip(1)));
        assert(enc_notes(p) == enc_note(l[0]) + (enc_notes(l.skip(1)) + enc_note(n)));
        assert(enc_note(l[0]) + (enc_notes(l.skip(1)) + enc_note(n)) =~= (enc_note(l[0])
            + enc_notes(l.skip(1))) + enc_note(n));
        assert(enc_notes(p) =~= enc_notes(l) + enc_note(n));
    }
}

/// A `u64` encoded inside a larger byte string decodes to itself.
pub proof fn lemma_dec_u64_embed(b: Seq<u8>, i: int, v: u64)
    requires
        0 <= i,
        i + 8 <= b.len(),
        b.subrange(i, i + 8) == spec_u64_to_le_bytes(v),
    ensures
        dec_u64_at(b, i) == Some(v),
{
    lemma_auto_spec_u64_to_from_le_bytes();
}

/// Characters encoded inside a larger byte string decode to themselves.
pub proof fn lemma_dec_chars_embed(b: Seq<u8>, i: int, s: Seq<char>)
    requires
        0 <= i,
        i + 8 * s.len() <= b.len(),
        b.subrange(i, i + 8 * s.len()) == enc_chars(s),
    ensures
        dec_chars_at(b, i, s.len()) == Some(s),
    decreases s.len(),
{
    lemma_auto_spec_u64_to_from_le_bytes();
    if s.len() == 0 {
        assert(dec_chars_at(b, i, 0) == Some(Seq::<char>::empty()));
        assert(s =~= Seq::<char>::empty());
    } else {
        let c = s[0];
        let cb = spec_u64_to_le_bytes((c as u32) as u64);
        let whole = b.subrange(i, i + 8 * s.len());
        lemma_enc_chars_len(s.skip(1));
        assert(whole == cb + enc_chars(s.skip(1)));
        assert(b.subrange(i, i + 8) =~= cb) by {
            assert(forall|k: int| 0 <= k < 8 ==> #[trigger] b.subrange(i, i + 8)[k] == whole[k]);
        }
        lemma_dec_u64_embed(b, i, (c as u32) as u64);
        vstd::utf8::char_is_scalar(c);
        vstd::utf8::char_u32_cast(c, c as u32);
        assert(dec_char_at(b, i) == Some(c));
        assert(b.subrange(i + 8, i + 8 + 8 * s.skip(1).len()) =~= enc_chars(s.skip(1))) by {
            assert(forall|k: int|
                0 <= k < 8 * s.skip(1).len() ==> #[trigger] b.subrange(
                    i + 8,
                    i + 8 + 8 * s.skip(1).len(),
                )[k] == whole[k + 8]);
        }
        lemma_dec_chars_embed(b, i + 8, s.skip(1));
        assert(seq![c] + s.skip(1) =~= s);
    }
}

/// A string encoded inside a larger byte string decodes to itself, leaving
/// the read position just past it.
pub proof fn lemma_dec_str_embed(b: Seq<u8>, i: int, s: Seq<char>)
    requires
        0 <= i,
        s.len() <= u64::MAX,
        i + enc_str(s).len() <= b.len(),
        b.subrange(i, i + enc_str(s).len()) == enc_str(s),
    ensures
        enc_str(s).len() == 8 + 8 * s.len(),
        dec_str_at(b, i) == Some((s, i + enc_str(s).len())),
{
    lemma_auto_spec_u64_to_from_le_bytes();
    lemma_enc_chars_len(s);
    let whole = b.subrange(i, i + enc_str(s).len());
    let nb = spec_u64_to_le_bytes(s.len() as u64);
    assert(b.subrange(i, i + 8) =~= nb) by {
        assert(forall|k: int| 0 <= k < 8 ==> #[trigger] b.subrange(i, i + 8)[k] == whole[k]);
    }
    lemma_dec_u64_embed(b, i, s.len() as u64);
    assert(b.subrange(i + 8, i + 8 + 8 * s.len()) =~= enc_chars(s)) by {
        assert(forall|k: int|
            0 <= k < 8 * s.len() ==> #[trigger] b.subrange(i + 8, i + 8 + 8 * s.len())[k] == whole[k + 8]);
    }
    lemma_dec_chars_embed(b, i + 8, s);
    assert((s.len() as u64) as nat == s.len());
}

/// A note encoded inside a larger byte string decodes to itself.
pub proof fn lemma_dec_note_embed(b: Seq<u8>, i: int, n: NoteV)
    requires
        0 <= i,
        note_fits(n),
        i + enc_note(n).len() <= b.len(),
        b.subrange(i, i + enc_note(n).len()) == enc_note(n),
    ensures
        dec_note_at(b, i) == Some((n, i + enc_note(n).len())),
{
    let e1 = enc_str(n.id);
    let e2 = enc_str(n.title);
    let e3 = enc_str(n.content);
    let whole = b.subrange(i, i + enc_note(n).len());
    assert(whole == (e1 + e2) + e3 || whole == e1 + (e2 + e3));
    assert(b.subrange(i, i + e1.len() as int) =~= e1) by {
        assert(forall|k: int|
            0 <= k < e1.len() ==> #[trigger] b.subrange(i, i + e1.len() as int)[k] == whole[k]);
    }
    lemma_dec_str_embed(b, i, n.id);
    let j = i + e1.len() as int;
    assert(b.subrange(j, j + e2.len() as int) =~= e2) by {
        assert(forall|k: int|
            0 <= k < e2.len() ==> #[trigger] b.subrange(j, j + e2.len() as int)[k] == whole[k
                + e1.len()]);
    }
    lemma_dec_str_embed(b, j, n.title);
    let k2 = j + e2.len() as int;
    assert(b.subrange(k2, k2 + e3.len() as int) =~= e3) by {
        assert(forall|k: int|
            0 <= k < e3.len() ==> #[trigger] b.subrange(k2, k2 + e3.len() as int)[k] == whole[k
                + e1.len() + e2.len()]);
    }
    lemma_dec_str_embed(b, k2, n.content);
}

/// All note values fit the machine.
pub open spec fn notes_fit(l: Seq<NoteV>) -> bool {
    forall|k: int| 0 <= k < l.len() ==> note_fits(#[trigger] l[k])
}

/// Notes encoded inside a larger byte string decode to themselves.
pub proof fn lemma_dec_notes_embed(b: Seq<u8>, i: int, l: Seq<NoteV>)
    requires
        0 <= i,
        notes_fit(l),
        i + enc_notes(l).len() <= b.len(),
        b.subrange(i, i + enc_notes(l).len()) == enc_notes(l),
    ensures
        dec_notes_at(b, i, l.len()) == Some((l, i + enc_notes(l).len())),
    decreases l.len(),
{
    if l.len() == 0 {
        assert(l =~= Seq::<NoteV>::empty());
    } else {
        let e1 = enc_note(l[0]);
        let rest = enc_notes(l.skip(1));
        let whole = b.subrange(i, i + enc_notes(l).len());
        assert(whole == e1 + rest);
        assert(b.subrange(i, i + e1.len() as int) =~= e1) by {
            assert(forall|k: int|
                0 <= k < e1.len() ==> #[trigger] b.subrange(i, i + e1.len() as int)[k] == whole[k]);
        }
        assert(note_fits(l[0]));
        lemma_dec_note_embed(b, i, l[0]);
        let j = i + e1.len() as int;
        assert(b.subrange(j, j + rest.len() as int) =~= rest) by {
            assert(forall|k: int|
                0 <= k < rest.len() ==> #[trigger] b.subrange(j, j + rest.len() as int)[k]
                    == whole[k + e1.len()]);
        }
        assert(notes_fit(l.skip(1))) by {
            assert(forall|k: int| 0 <= k < l.skip(1).len() ==> l.skip(1)[k] == l[k + 1]);
        }
        lemma_dec_notes_embed(b, j, l.skip(1));
        assert(seq![l[0]] + l.skip(1) =~= l);
    }
}

/// A record-store snapshot always decodes back to the notes it encodes.
pub proof fn lemma_store_roundtrip(l: Seq<NoteV>)
    requires
        notes_fit(l),
        l.len() <= u64::MAX,
    ensures
        dec_store(enc_store(l)) == Some(l),
{
    lemma_auto_spec_u64_to_from_le_bytes();
    let b = enc_store(l);
    let m = spec_u64_to_le_bytes(STORE_MAGIC);
    let c = spec_u64_to_le_bytes(l.len() as u64);
    assert(b == m + c + enc_notes(l));
    assert(b.subrange(0, 8) =~= m);
    lemma_dec_u64_embed(b, 0, STORE_MAGIC);
    assert(b.subrange(8, 16) =~= c);
    lemma_dec_u64_embed(b, 8, l.len() as u64);
    assert(b.subrange(16, 16 + enc_notes(l).len() as int) =~= enc_notes(l));
    lemma_dec_notes_embed(b, 16, l);
    assert((l.len() as u64) as nat == l.len());
}

/// An index snapshot always decodes back to the documents it encodes.
pub proof fn lemma_index_roundtrip(l: Seq<NoteV>)
    requires
        notes_fit(l),
        l.len() <= u64::MAX,
    ensures
        dec_index(enc_index(l)) == Some(l),
{
    lemma_auto_spec_u64_to_from_le_bytes();
    let b = enc_index(l);
    let m = spec_u64_to_le_bytes(INDEX_MAGIC);
    let sch = spec_u64_to_le_bytes(INDEX_SCHEMA);
    let c = spec_u64_to_le_bytes(l.len() as u64);
    assert(b == ((m + sch) + c) + enc_notes(l) || b == m + (sch + (c + enc_notes(l))));
    assert(b.subrange(0, 8) =~= m);
    lemma_dec_u64_embed(b, 0, INDEX_MAGIC);
    assert(b.subrange(8, 16) =~= sch);
    lemma_dec_u64_embed(b, 8, INDEX_SCHEMA);
    assert(b.subrange(16, 24) =~= c);
    lemma_dec_u64_embed(b, 16, l.len() as u64);
    assert(b.subrange(24, 24 + enc_notes(l).len() as int) =~= enc_notes(l));
    lemma_dec_notes_embed(b, 24, l);
    assert((l.len() as u64) as nat == l.len());
}

/// The characters a decode claims always fit in the bytes.
pub proof fn lemma_dec_chars_bound(b: Seq<u8>, i: int, n: nat)
    requires
        dec_chars_at(b, i, n) is Some,
    ensures
        n > 0 ==> i + 8 * n <= b.len(),
    decreases n,
{
    if n > 0 {
        lemma_dec_chars_bound(b, i + 8, (n - 1) as nat);
    }
}

/// Appends the bytes of `src` to `dst`.
fn push_bytes(dst: &mut Vec<u8>, src: &Vec<u8>)
    ensures
        final(dst)@ == old(dst)@ + src@,
{
    let ghost base = dst@;
    let mut i: usize = 0;
    proof {
        assert(base + src@.take(0) =~= base);
    }
    while i < src.len()
        invariant
            i <= src@.len(),
            dst@ == base + src@.take(i as int),
        decreases src@.len() - i,
    {
        dst.push(src[i]);
        proof {
            assert(base + src@.take(i as int + 1) =~= (base + src@.take(i as int)).push(
                src@[i as int],
            ));
        }
        i += 1;
    }
    proof {
        assert(src@.take(src@.len() as int) =~= src@);
    }
}

/// Relies on `String::push` of std: it appends exactly the given character.
#[verifier::external_body]
fn push_char(s: &mut String, c: char)
    ensures
        final(s)@ == old(s)@.push(c),
{
    s.push(c);
}

/// Appends one encoded `u64`.
fn encode_u64_into(dst: &mut Vec<u8>, v: u64)
    ensures
        final(dst)@ == old(dst)@ + spec_u64_to_le_bytes(v),
{
    let b = vstd::bytes::u64_to_le_bytes(v);
    push_bytes(dst, &b);
}

/// Appends one encoded string.
fn encode_str_into(dst: &mut Vec<u8>, s: &str)
    ensures
        final(dst)@ == old(dst)@ + enc_str(s@),
{
    let ghost orig = dst@;
    let n = s.unicode_len();
    encode_u64_into(dst, n as u64);
    let ghost base = dst@;
    let mut i: usize = 0;
    proof {
        assert(s@.take(0) =~= Seq::<char>::empty());
        assert(base + enc_chars(s@.take(0)) =~= base);
    }
    while i < n
        invariant
            i <= n,
            n == s@.len(),
            dst@ == base + enc_chars(s@.take(i as int)),
        decreases n - i,
    {
        let c = s.get_char(i);
        encode_u64_into(dst, (c as u32) as u64);
        proof {
            lemma_enc_chars_snoc(s@.take(i as int), c);
            assert(s@.take(i as int).push(c) =~= s@.take(i as int + 1));
            assert((base + enc_chars(s@.take(i as int))) + spec_u64_to_le_bytes((c as u32) as u64)
                =~= base + enc_chars(s@.take(i as int + 1)));
        }
        i += 1;
    }
    proof {
        assert(s@.take(n as int) =~= s@);
        assert((orig + spec_u64_to_le_bytes(s@.len() as u64)) + enc_chars(s@) =~= orig + enc_str(
            s@,
        ));
    }
}

/// Appends one encoded note.
fn encode_note_into(dst: &mut Vec<u8>, n: &Note)
    ensures
        final(dst)@ == old(dst)@ + enc_note(n.v()),
{
    let ghost orig = dst@;
    encode_str_into(dst, n.id.as_str());
    encode_str_into(dst, n.title.as_str());
    encode_str_into(dst, n.content.as_str());
    proof {
        assert(((orig + enc_str(n.id@)) + enc_str(n.title@)) + enc_str(n.content@) =~= orig
            + enc_note(n.v()));
    }
}

/// The byte snapshot of the record store, ready to be written out whole.
pub fn encode_store(st: &RecordStore) -> (r: Vec<u8>)
    ensures
        r@ == enc_store(st.v()),
{
    let mut out: Vec<u8> = Vec::new();
    encode_u64_into(&mut out, STORE_MAGIC);
    encode_u64_into(&mut out, st.notes.len() as u64);
    let ghost head = out@;
    encode_notes_into(&mut out, &st.notes);
    proof {
        assert((Seq::<u8>::empty() + spec_u64_to_le_bytes(STORE_MAGIC)) + spec_u64_to_le_bytes(
            st.v().len() as u64,
        ) =~= spec_u64_to_le_bytes(STORE_MAGIC) + spec_u64_to_le_bytes(st.v().len() as u64));
        assert(head + enc_notes(st.v()) =~= enc_store(st.v()));
    }
    out
}

/// The byte snapshot of the index, ready to be written out whole.
pub fn encode_index(ix: &InvertedIndex) -> (r: Vec<u8>)
    ensures
        r@ == enc_index(ix.dv()),
{
    let mut out: Vec<u8> = Vec::new();
    encode_u64_into(&mut out, INDEX_MAGIC);
    encode_u64_into(&mut out, INDEX_SCHEMA);
    encode_u64_into(&mut out, ix.docs.len() as u64);
    let ghost head = out@;
    encode_notes_into(&mut out, &ix.docs);
    proof {
        assert(head + enc_notes(ix.dv()) =~= enc_index(ix.dv()));
    }
    out
}

/// Appends the encodings of all the notes, in order.
fn encode_notes_into(dst: &mut Vec<u8>, notes: &Vec<Note>)
    ensures
        final(dst)@ == old(dst)@ + enc_notes(notes_v(notes@)),
{
    let ghost base = dst@;
    let ghost l = notes_v(notes@);
    let mut i: usize = 0;
    proof {
        assert(l.take(0) =~= Seq::<NoteV>::empty());
        assert(base + enc_notes(l.take(0)) =~= base);
    }
    while i < notes.len()
        invariant
            i <= notes@.len(),
            l == notes_v(notes@),
            dst@ == base + enc_notes(l.take(i as int)),
        decreases notes@.len() - i,
    {
        encode_note_into(dst, &notes[i]);
        proof {
            lemma_enc_notes_snoc(l.take(i as int), l[i as int]);
            assert(l.take(i as int).push(l[i as int]) =~= l.take(i as int + 1));
            assert((base + enc_notes(l.take(i as int))) + enc_note(l[i as int]) =~= base
                + enc_notes(l.take(i as int + 1)));
        }
        i += 1;
    }
    proof {
        assert(l.take(notes@.len() as int) =~= l);
    }
}

/// Reads the `u64` at byte offset `i`, exactly as `dec_u64_at` says.
fn read_u64_at(b: &Vec<u8>, i: usize) -> (r: Option<u64>)
    ensures
        r == dec_u64_at(b@, i as int),
{
    if i <= b.len() && b.len() - i >= 8 {
        let sl = vstd::slice::slice_subrange(b.as_slice(), i, i + 8);
        Some(vstd::bytes::u64_from_le_bytes(sl))
    } else {
        None
    }
}

/// Reads the string at byte offset `i`, exactly as `dec_str_at` says.
fn read_str_at(b: &Vec<u8>, i: usize) -> (r: Option<(String, usize)>)
    ensures
        match dec_str_at(b@, i as int) {
            Some(p) => r matches Some(q) && q.0@ == p.0 && q.1 as int == p.1,
            None => r is None,
        },
{
    let n = match read_u64_at(b, i) {
        Some(n) => n,
        None => {
            return None;
        },
    };
    let blen = b.len();
    proof {
        assert(i + 8 <= b@.len());
        assert(b@.len() == blen);
    }
    let start = i + 8;
    let avail = (blen - start) / 8;
    if n > avail as u64 {
        proof {
            if dec_chars_at(b@, start as int, n as nat) is Some {
                lemma_dec_chars_bound(b@, start as int, n as nat);
            }
        }
        return None;
    }
    let cnt = n as usize;
    proof {
        assert(8 * (avail as int) <= b@.len() - start);
        assert(start + 8 * (cnt as int) <= b@.len());
    }
    let mut out = String::new();
    let mut k: usize = 0;
    while k < cnt
        invariant
            k <= cnt,
            start == i + 8,
            start + 8 * (cnt as int) <= b@.len(),
            b@.len() <= usize::MAX,
            n as int == cnt as int,
            dec_u64_at(b@, i as int) == Some(n),
            match dec_chars_at(b@, start + 8 * (k as int), (cnt - k) as nat) {
                Some(rest) => dec_chars_at(b@, start as int, cnt as nat) == Some(out@ + rest),
                None => dec_chars_at(b@, start as int, cnt as nat) is None,
            },
        decreases cnt - k,
    {
        let off = start + 8 * k;
        let v = match read_u64_at(b, off) {
            Some(v) => v,
            None => {
                proof {
                    assert(false);
                }
                0
            },
        };
        if v > 0xffff_ffffu64 {
            proof {
                assert(dec_char_at(b@, off as int) is None);
                assert(dec_chars_at(b@, start + 8 * (k as int), (cnt - k) as nat) is None);
                assert(dec_chars_at(b@, start as int, cnt as nat) is None);
                assert(n as nat == cnt as nat);
                assert(dec_str_at(b@, i as int) is None);
            }
            return None;
        }
        let c = match char::from_u32(v as u32) {
            Some(c) => c,
            None => {
                proof {
                    assert(dec_char_at(b@, off as int) is None);
                    assert(dec_chars_at(b@, start + 8 * (k as int), (cnt - k) as nat) is None);
                    assert(dec_chars_at(b@, start as int, cnt as nat) is None);
                    assert(n as nat == cnt as nat);
                    assert(dec_str_at(b@, i as int) is None);
                }
                return None;
            },
        };
        proof {
            vstd::utf8::char_u32_cast(c, v as u32);
            assert(dec_char_at(b@, off as int) == Some(c));
            let ghost rest2 = dec_chars_at(b@, off as int + 8, (cnt - k - 1) as nat);
            if rest2 is Some {
                assert((out@ + (seq![c] + rest2.unwrap())) =~= ((out@.push(c))
                    + rest2.unwrap()));
            }
        }
        push_char(&mut out, c);
        k += 1;
    }
    proof {
        assert(dec_chars_at(b@, start + 8 * (cnt as int), 0) == Some(Seq::<char>::empty()));
        assert(out@ + Seq::<char>::empty() =~= out@);
    }
    Some((out, start + 8 * cnt))
}

/// Reads the note at byte offset `i`, exactly as `dec_note_at` says.
fn read_note_at(b: &Vec<u8>, i: usize) -> (r: Option<(Note, usize)>)
    ensures
        match dec_note_at(b@, i as int) {
            Some(p) => r matches Some(q) && q.0.v() == p.0 && q.1 as int == p.1,
            None => r is None,
        },
{
    let (id, j) = match read_str_at(b, i) {
        Some(p) => p,
        None => {
            return None;
        },
    };
    let (title, k) = match read_str_at(b, j) {
        Some(p) => p,
        None => {
            return None;
        },
    };
    let (content, end) = match read_str_at(b, k) {
        Some(p) => p,
        None => {
            return None;
        },
    };
    let note = Note { id, title, content };
    Some((note, end))
}

/// Reads a count and that many notes at byte offset `i`, accepted only when
/// they use the bytes exactly to the end, as `dec_payload` says.
fn read_payload(b: &Vec<u8>, i: usize) -> (r: Option<Vec<Note>>)
    ensures
        match dec_payload(b@, i as int) {
            Some(l) => r matches Some(v) && notes_v(v@) == l,
            None => r is None,
        },
{
    let cnt = match read_u64_at(b, i) {
        Some(c) => c,
        None => {
            return None;
        },
    };
    let blen = b.len();
    proof {
        assert(i + 8 <= b@.len());
        assert(b@.len() == blen);
    }
    let start = i + 8;
    let mut out: Vec<Note> = Vec::new();
    let mut posn: usize = start;
    let mut k: u64 = 0;
    proof {
        assert(notes_v(out@) =~= Seq::<NoteV>::empty());
    }
    while k < cnt
        invariant
            k <= cnt,
            start == i + 8,
            dec_u64_at(b@, i as int) == Some(cnt),
            match dec_notes_at(b@, posn as int, (cnt - k) as nat) {
                Some(p) => dec_notes_at(b@, start as int, cnt as nat) == Some(
                    (notes_v(out@) + p.0, p.1),
                ),
                None => dec_notes_at(b@, start as int, cnt as nat) is None,
            },
        decreases cnt - k,
    {
        let (note, next) = match read_note_at(b, posn) {
            Some(p) => p,
            None => {
                proof {
                    assert(dec_notes_at(b@, posn as int, (cnt - k) as nat) is None);
                    assert(dec_notes_at(b@, start as int, cnt as nat) is None);
                    assert(dec_payload(b@, i as int) is None);
                }
                return None;
            },
        };
        let ghost prev = notes_v(out@);
        out.push(note);
        proof {
            assert(notes_v(out@) =~= prev.push(note.v()));
            let ghost tail = dec_notes_at(b@, next as int, (cnt - k - 1) as nat);
            if tail is Some {
                assert(prev + (seq![note.v()] + tail.unwrap().0) =~= (prev.push(note.v()))
                    + tail.unwrap().0);
            }
        }
        posn = next;
        k += 1;
    }
    proof {
        assert(dec_notes_at(b@, posn as int, 0) == Some((Seq::<NoteV>::empty(), posn as int)));
        assert(notes_v(out@) + Seq::<NoteV>::empty() =~= notes_v(out@));
    }
    if posn == b.len() {
        Some(out)
    } else {
        None
    }
}

/// Parses a record-store snapshot, exactly as `dec_store` says.
pub fn decode_store(b: &Vec<u8>) -> (r: Option<Vec<Note>>)
    ensures
        match dec_store(b@) {
            Some(l) => r matches Some(v) && notes_v(v@) == l,
            None => r is None,
        },
{
    let m = match read_u64_at(b, 0) {
        Some(m) => m,
        None => {
            return None;
        },
    };
    if m != STORE_MAGIC {
        return None;
    }
    read_payload(b, 8)
}

/// Parses an index snapshot, exactly as `dec_index` says: a wrong magic
/// number or schema tag is rejected.
pub fn decode_index(b: &Vec<u8>) -> (r: Option<Vec<Note>>)
    ensures
        match dec_index(b@) {
            Some(l) => r matches Some(v) && notes_v(v@) == l,
            None => r is None,
        },
{
    let m = match read_u64_at(b, 0) {
        Some(m) => m,
        None => {
            return None;
        },
    };
    if m != INDEX_MAGIC {
        return None;
    }
    let sch = match read_u64_at(b, 8) {
        Some(s) => s,
        None => {
            return None;
        },
    };
    if sch != INDEX_SCHEMA {
        return None;
    }
    read_payload(b, 16)
}

} // verus!
