//! The inverted index: for every term, the postings naming which stored
//! documents contain it and how often, plus a stored copy of each document's
//! fields for result materialization.  Postings are kept exactly consistent
//! with the stored documents: the structural invariant `wf` says each term's
//! posting list names exactly the documents containing it, in insertion
//! order, with true per-field frequencies.

use vstd::prelude::*;
use crate::analyzer::spec_tokens;
use crate::analyzer::term_count;
use crate::analyzer::tokenize;
use crate::analyzer::term_eq;
use crate::store::Note;
use crate::store::NoteV;
use crate::store::notes_v;
use crate::store::remove_id;
use crate::score::idf_weight;
use crate::score::term_weight;
use crate::score::sat64;

verus! {

/// One posting: a stored document (by position, which is insertion order)
/// and the term's frequency in each of its text fields.
#[derive(Clone, Copy)]
pub struct Posting {
    pub doc: usize,
    pub title_tf: u64,
    pub content_tf: u64,
}

/// A term of the index together with its posting list.
pub struct TermEntry {
    pub term: Vec<char>,
    pub postings: Vec<Posting>,
}

/// The inverted index: stored documents in insertion order, and one entry
/// per term occurring in them.
pub struct InvertedIndex {
    pub docs: Vec<Note>,
    pub terms: Vec<TermEntry>,
}

/// How often `term` occurs in the title of `d`.
pub open spec fn t_tf(d: NoteV, term: Seq<char>) -> nat {
    term_count(spec_tokens(d.title), term)
}

/// How often `term` occurs in the content of `d`.
pub open spec fn c_tf(d: NoteV, term: Seq<char>) -> nat {
    term_count(spec_tokens(d.content), term)
}

/// Whether `term` occurs anywhere in `d`.
pub open spec fn matches_term(d: NoteV, term: Seq<char>) -> bool {
    t_tf(d, term) + c_tf(d, term) > 0
}

/// A posting is true of the documents: it names a stored document that
/// contains the term, with the exact per-field frequencies.
pub open spec fn posting_ok(docs: Seq<NoteV>, term: Seq<char>, p: Posting) -> bool {
    &&& (p.doc as int) < docs.len()
    &&& matches_term(docs[p.doc as int], term)
    &&& p.title_tf == t_tf(docs[p.doc as int], term)
    &&& p.content_tf == c_tf(docs[p.doc as int], term)
}

/// Whether the posting list `ps` has a posting for document position `i`.
pub open spec fn ps_has_doc(ps: Seq<Posting>, i: int) -> bool {
    exists|k: int| 0 <= k < ps.len() && (#[trigger] ps[k]).doc == i
}

/// The posting list of a term is exactly right: every posting is true, the
/// positions are strictly increasing (insertion order), and every stored
/// document containing the term has a posting.
pub open spec fn postings_complete(docs: Seq<NoteV>, term: Seq<char>, ps: Seq<Posting>) -> bool {
    &&& forall|k: int| 0 <= k < ps.len() ==> posting_ok(docs, term, #[trigger] ps[k])
    &&& forall|k1: int, k2: int|
        0 <= k1 < k2 < ps.len() ==> (#[trigger] ps[k1]).doc < (#[trigger] ps[k2]).doc
    &&& forall|i: int|
        0 <= i < docs.len() && matches_term(#[trigger] docs[i], term) ==> ps_has_doc(ps, i)
}

/// Whether the index has an entry for term `t`.
pub open spec fn has_term(terms: Seq<TermEntry>, t: Seq<char>) -> bool {
    exists|j: int| 0 <= j < terms.len() && (#[trigger] terms[j]).term@ == t
}

/// The index structure is well formed with respect to the documents.
pub open spec fn terms_wf(docs: Seq<NoteV>, terms: Seq<TermEntry>) -> bool {
    &&& forall|j: int|
        0 <= j < terms.len() ==> postings_complete(
            docs,
            (#[trigger] terms[j]).term@,
            terms[j].postings@,
        )
    &&& forall|j1: int, j2: int|
        0 <= j1 < j2 < terms.len() ==> (#[trigger] terms[j1]).term@ != (
        #[trigger] terms[j2]).term@
    &&& forall|t: Seq<char>, i: int|
        0 <= i < docs.len() && #[trigger] matches_term(docs[i], t) ==> has_term(terms, t)
}

/// The document frequency of a term: how many stored documents contain it.
pub open spec fn df_of(docs: Seq<NoteV>, term: Seq<char>) -> nat
    decreases docs.len(),
{
    if docs.len() == 0 {
        0
    } else {
        df_of(docs.drop_last(), term) + (if matches_term(docs.last(), term) {
            1nat
        } else {
            0nat
        })
    }
}

/// The score one query token contributes to document `i`: the combined term
/// frequency weighted by the term's rarity, zero if the document does not
/// contain the term.
pub open spec fn token_score(docs: Seq<NoteV>, i: int, term: Seq<char>) -> u64 {
    if 0 <= i < docs.len() && matches_term(docs[i], term) {
        term_weight(
            (t_tf(docs[i], term) + c_tf(docs[i], term)) as int,
            idf_weight(docs.len() as int, df_of(docs, term) as int),
        )
    } else {
        0u64
    }
}

/// The relevance score of document `i` for the query tokens `toks`: the
/// saturating sum of the tokens' contributions.
pub open spec fn doc_score(docs: Seq<NoteV>, i: int, toks: Seq<Seq<char>>) -> u64
    decreases toks.len(),
{
    if toks.len() == 0 {
        0u64
    } else {
        sat64(
            doc_score(docs, i, toks.drop_last()) as int + token_score(docs, i, toks.last()) as int,
        )
    }
}

/// A term occurs no more often than there are tokens.
pub proof fn lemma_term_count_le(toks: Seq<Seq<char>>, term: Seq<char>)
    ensures
        term_count(toks, term) <= toks.len(),
    decreases toks.len(),
{
    if toks.len() > 0 {
        lemma_term_count_le(toks.drop_last(), term);
    }
}

/// No more documents contain a term than there are documents.
pub proof fn lemma_df_le(docs: Seq<NoteV>, term: Seq<char>)
    ensures
        df_of(docs, term) <= docs.len(),
    decreases docs.len(),
{
    if docs.len() > 0 {
        lemma_df_le(docs.drop_last(), term);
    }
}

/// An exact posting list has exactly one posting per containing document,
/// so its length is the term's document frequency.
pub proof fn lemma_entry_df(docs: Seq<NoteV>, term: Seq<char>, ps: Seq<Posting>)
    requires
        postings_complete(docs, term, ps),
    ensures
        ps.len() == df_of(docs, term),
    decreases docs.len(),
{
    if docs.len() == 0 {
        if ps.len() > 0 {
            assert(posting_ok(docs, term, ps[0]));
        }
    } else {
        let d = docs.drop_last();
        let last_i = docs.len() - 1;
        assert(forall|i: int| 0 <= i < d.len() ==> d[i] == docs[i]);
        if matches_term(docs.last(), term) {
            assert(ps_has_doc(ps, last_i));
            let k = choose|k: int| 0 <= k < ps.len() && (#[trigger] ps[k]).doc == last_i;
            assert(k == ps.len() - 1) by {
                if k < ps.len() - 1 {
                    assert(ps[k].doc < ps[ps.len() - 1].doc);
                    assert(posting_ok(docs, term, ps[ps.len() - 1]));
                }
            }
            let pd = ps.drop_last();
            assert(postings_complete(d, term, pd)) by {
                assert(forall|k2: int| 0 <= k2 < pd.len() ==> pd[k2] == ps[k2]);
                assert forall|k2: int| 0 <= k2 < pd.len() implies posting_ok(
                    d,
                    term,
                    #[trigger] pd[k2],
                ) by {
                    assert(posting_ok(docs, term, ps[k2]));
                    assert(ps[k2].doc < ps[ps.len() - 1].doc);
                }
                assert forall|i: int|
                    0 <= i < d.len() && matches_term(#[trigger] d[i], term) implies ps_has_doc(
                    pd,
                    i,
                ) by {
                    assert(matches_term(docs[i], term));
                    assert(ps_has_doc(ps, i));
                    let k3 = choose|k3: int| 0 <= k3 < ps.len() && (#[trigger] ps[k3]).doc == i;
                    assert(k3 < ps.len() - 1) by {
                        if k3 == ps.len() - 1 {
                            assert(ps[k3].doc == last_i);
                        }
                    }
                    assert(pd[k3].doc == i);
                }
            }
            lemma_entry_df(d, term, pd);
        } else {
            assert(postings_complete(d, term, ps)) by {
                assert forall|k2: int| 0 <= k2 < ps.len() implies posting_ok(
                    d,
                    term,
                    #[trigger] ps[k2],
                ) by {
                    assert(posting_ok(docs, term, ps[k2]));
                    if ps[k2].doc == last_i {
                        assert(matches_term(docs[last_i], term));
                    }
                    assert(ps[k2].doc < last_i);
                }
                assert forall|i: int|
                    0 <= i < d.len() && matches_term(#[trigger] d[i], term) implies ps_has_doc(
                    ps,
                    i,
                ) by {
                    assert(matches_term(docs[i], term));
                }
            }
            lemma_entry_df(d, term, ps);
        }
    }
}

/// The posting list of a term while a new document at position `pos` is
/// being indexed: exact for the old documents, plus (once the new document
/// has yielded an occurrence) one last posting for the new document carrying
/// the occurrences counted so far.
pub open spec fn entry_partial(
    docs: Seq<NoteV>,
    pos: int,
    term: Seq<char>,
    ps: Seq<Posting>,
    tc: nat,
    cc: nat,
) -> bool {
    if tc + cc == 0 {
        postings_complete(docs, term, ps)
    } else {
        &&& ps.len() > 0
        &&& postings_complete(docs, term, ps.drop_last())
        &&& ps.last().doc == pos
        &&& ps.last().title_tf == tc
        &&& ps.last().content_tf == cc
    }
}

/// The whole index structure while a new document at position `pos` is being
/// indexed, `tt` of its title tokens and `ct` of its content tokens read.
pub open spec fn terms_partial(
    docs: Seq<NoteV>,
    pos: int,
    terms: Seq<TermEntry>,
    tt: Seq<Seq<char>>,
    ct: Seq<Seq<char>>,
) -> bool {
    &&& forall|j: int|
        0 <= j < terms.len() ==> entry_partial(
            docs,
            pos,
            (#[trigger] terms[j]).term@,
            terms[j].postings@,
            term_count(tt, terms[j].term@),
            term_count(ct, terms[j].term@),
        )
    &&& forall|j1: int, j2: int|
        0 <= j1 < j2 < terms.len() ==> (#[trigger] terms[j1]).term@ != (
        #[trigger] terms[j2]).term@
    &&& forall|t: Seq<char>, i: int|
        0 <= i < docs.len() && #[trigger] matches_term(docs[i], t) ==> has_term(terms, t)
    &&& forall|t: Seq<char>|
        #[trigger] term_count(tt, t) + term_count(ct, t) > 0 ==> has_term(terms, t)
}

/// Appending a token bumps its own count by one and no other count.
pub proof fn lemma_term_count_push(toks: Seq<Seq<char>>, tok: Seq<char>, t: Seq<char>)
    ensures
        term_count(toks.push(tok), t) == term_count(toks, t) + (if tok == t {
            1nat
        } else {
            0nat
        }),
{
    assert(toks.push(tok).drop_last() =~= toks);
    assert(toks.push(tok).last() == tok);
}

/// A copy of a term.
fn term_clone(t: &Vec<char>) -> (r: Vec<char>)
    ensures
        r@ == t@,
{
    let mut out: Vec<char> = Vec::new();
    let mut i: usize = 0;
    while i < t.len()
        invariant
            i <= t.len(),
            out@ == t@.take(i as int),
        decreases t.len() - i,
    {
        out.push(t[i]);
        proof {
            assert(t@.take(i as int + 1) =~= t@.take(i as int).push(t@[i as int]));
        }
        i += 1;
    }
    proof {
        assert(t@.take(t@.len() as int) =~= t@);
    }
    out
}

/// Records one occurrence of token `tok` (from the title if `is_title`,
/// else from the content) of the document being indexed at position `pos`.
fn bump_term(
    terms: &mut Vec<TermEntry>,
    Ghost(docs): Ghost<Seq<NoteV>>,
    pos: usize,
    tok: &Vec<char>,
    is_title: bool,
    Ghost(tt): Ghost<Seq<Seq<char>>>,
    Ghost(ct): Ghost<Seq<Seq<char>>>,
)
    requires
        pos as int == docs.len(),
        terms_partial(docs, pos as int, old(terms)@, tt, ct),
        is_title ==> term_count(tt, tok@) + 1 <= u64::MAX,
        !is_title ==> term_count(ct, tok@) + 1 <= u64::MAX,
    ensures
        is_title ==> terms_partial(docs, pos as int, final(terms)@, tt.push(tok@), ct),
        !is_title ==> terms_partial(docs, pos as int, final(terms)@, tt, ct.push(tok@)),
{
    let ghost tc = term_count(tt, tok@);
    let ghost cc = term_count(ct, tok@);
    let ghost newtt: Seq<Seq<char>> = if is_title { tt.push(tok@) } else { tt };
    let ghost newct: Seq<Seq<char>> = if is_title { ct } else { ct.push(tok@) };
    proof {
        assert forall|t: Seq<char>|
            #[trigger] term_count(newtt, t) + term_count(newct, t) == term_count(tt, t)
                + term_count(ct, t) + (if tok@ == t { 1nat } else { 0nat })
                && (t != tok@ ==> term_count(newtt, t) == term_count(tt, t) && term_count(
                newct,
                t,
            ) == term_count(ct, t)) by {
            if is_title {
                lemma_term_count_push(tt, tok@, t);
            } else {
                lemma_term_count_push(ct, tok@, t);
            }
        }
    }
    let n = terms.len();
    let mut j: usize = 0;
    let mut at: usize = n;
    while j < n
        invariant
            j <= n,
            at <= n,
            n == terms@.len(),
            terms@ == old(terms)@,
            at == n ==> forall|q: int| 0 <= q < j ==> (#[trigger] terms@[q]).term@ != tok@,
            at < n ==> terms@[at as int].term@ == tok@,
        decreases n - j,
    {
        if at == n && term_eq(&terms[j].term, tok) {
            at = j;
        }
        j += 1;
    }
    if at < n {
        proof {
            assert(entry_partial(
                docs,
                pos as int,
                terms@[at as int].term@,
                terms@[at as int].postings@,
                tc,
                cc,
            ));
        }
        let plen = terms[at].postings.len();
        let fresh: bool = plen == 0 || terms[at].postings[plen - 1].doc != pos;
        proof {
            if tc + cc == 0 {
                if plen > 0 {
                    assert(posting_ok(docs, tok@, terms@[at as int].postings@[plen - 1]));
                }
                assert(fresh);
            } else {
                assert(!fresh);
            }
        }
        let ghost old_terms = terms@;
        let ghost old_ps = terms@[at as int].postings@;
        if fresh {
            let p = Posting {
                doc: pos,
                title_tf: if is_title { 1 } else { 0 },
                content_tf: if is_title { 0 } else { 1 },
            };
            terms[at].postings.push(p);
            proof {
                assert(terms@[at as int].postings@ =~= old_ps.push(p));
                assert(terms@[at as int].postings@.drop_last() =~= old_ps);
            }
        } else {
            let mut p = terms[at].postings[plen - 1];
            if is_title {
                p.title_tf = p.title_tf + 1;
            } else {
                p.content_tf = p.content_tf + 1;
            }
            terms[at].postings[plen - 1] = p;
            proof {
                assert(terms@[at as int].postings@ =~= old_ps.update(plen - 1, p));
                assert(terms@[at as int].postings@.drop_last() =~= old_ps.drop_last());
                assert(terms@[at as int].postings@.last() == p);
            }
        }
        proof {
            assert(terms@.len() == old_terms.len());
            assert(forall|q: int|
                0 <= q < terms@.len() && q != at ==> terms@[q] == old_terms[q]);
            assert(terms@[at as int].term@ == tok@);
            assert(entry_partial(
                docs,
                pos as int,
                tok@,
                terms@[at as int].postings@,
                term_count(newtt, tok@),
                term_count(newct, tok@),
            ));
            assert forall|t: Seq<char>, i: int|
                0 <= i < docs.len() && #[trigger] matches_term(docs[i], t) implies has_term(
                terms@,
                t,
            ) by {
                assert(has_term(old_terms, t));
                let w = choose|w: int| 0 <= w < old_terms.len() && (#[trigger] old_terms[w]).term@
                    == t;
                assert(terms@[w].term@ == t);
            }
            assert forall|t: Seq<char>|
                #[trigger] term_count(newtt, t) + term_count(newct, t) > 0 implies has_term(
                terms@,
                t,
            ) by {
                if t == tok@ {
                    assert(terms@[at as int].term@ == t);
                } else {
                    assert(term_count(tt, t) + term_count(ct, t) > 0);
                    assert(has_term(old_terms, t));
                    let w = choose|w: int|
                        0 <= w < old_terms.len() && (#[trigger] old_terms[w]).term@ == t;
                    assert(terms@[w].term@ == t);
                }
            }
        }
    } else {
        proof {
            assert(!has_term(terms@, tok@));
            assert(tc + cc == 0) by {
                if term_count(tt, tok@) + term_count(ct, tok@) > 0 {
                    assert(has_term(terms@, tok@));
                }
            }
            assert forall|i: int| 0 <= i < docs.len() implies !matches_term(docs[i], tok@) by {
                if matches_term(docs[i], tok@) {
                    assert(has_term(terms@, tok@));
                }
            }
        }
        let mut ps: Vec<Posting> = Vec::new();
        ps.push(
            Posting {
                doc: pos,
                title_tf: if is_title { 1 } else { 0 },
                content_tf: if is_title { 0 } else { 1 },
            },
        );
        let e = TermEntry { term: term_clone(tok), postings: ps };
        let ghost old_terms = terms@;
        terms.push(e);
        proof {
            assert(terms@.last().term@ == tok@);
            assert(terms@.last().postings@.len() == 1);
            assert(terms@.last().postings@.drop_last() =~= Seq::<Posting>::empty());
            assert(entry_partial(
                docs,
                pos as int,
                tok@,
                terms@.last().postings@,
                term_count(newtt, tok@),
                term_count(newct, tok@),
            ));
            assert(forall|q: int| 0 <= q < old_terms.len() ==> terms@[q] == old_terms[q]);
            assert forall|t: Seq<char>, i: int|
                0 <= i < docs.len() && #[trigger] matches_term(docs[i], t) implies has_term(
                terms@,
                t,
            ) by {
                assert(has_term(old_terms, t));
                let w = choose|w: int| 0 <= w < old_terms.len() && (#[trigger] old_terms[w]).term@
                    == t;
                assert(terms@[w].term@ == t);
            }
            assert forall|t: Seq<char>|
                #[trigger] term_count(newtt, t) + term_count(newct, t) > 0 implies has_term(
                terms@,
                t,
            ) by {
                if t == tok@ {
                    assert(terms@[terms@.len() - 1].term@ == t);
                } else {
                    assert(term_count(tt, t) + term_count(ct, t) > 0);
                    assert(has_term(old_terms, t));
                    let w = choose|w: int|
                        0 <= w < old_terms.len() && (#[trigger] old_terms[w]).term@ == t;
                    assert(terms@[w].term@ == t);
                }
            }
        }
    }
}

/// A finished partial indexing of a document is exactly a well-formed index
/// over the documents extended with it.
pub proof fn lemma_partial_to_wf(docs: Seq<NoteV>, dv: NoteV, terms: Seq<TermEntry>)
    requires
        terms_partial(
            docs,
            docs.len() as int,
            terms,
            spec_tokens(dv.title),
            spec_tokens(dv.content),
        ),
    ensures
        terms_wf(docs.push(dv), terms),
{
    let docs2 = docs.push(dv);
    let pos = docs.len() as int;
    assert(forall|i: int| 0 <= i < docs.len() ==> docs2[i] == docs[i]);
    assert(docs2[pos] == dv);
    assert forall|j: int| 0 <= j < terms.len() implies postings_complete(
        docs2,
        (#[trigger] terms[j]).term@,
        terms[j].postings@,
    ) by {
        let t = terms[j].term@;
        let ps = terms[j].postings@;
        let tc = term_count(spec_tokens(dv.title), t);
        let cc = term_count(spec_tokens(dv.content), t);
        assert(entry_partial(docs, pos, t, ps, tc, cc));
        if tc + cc == 0 {
            assert forall|k: int| 0 <= k < ps.len() implies posting_ok(
                docs2,
                t,
                #[trigger] ps[k],
            ) by {
                assert(posting_ok(docs, t, ps[k]));
            }
            assert forall|i: int|
                0 <= i < docs2.len() && matches_term(#[trigger] docs2[i], t) implies ps_has_doc(
                ps,
                i,
            ) by {
                if i < pos {
                    assert(matches_term(docs[i], t));
                } else {
                    assert(!matches_term(dv, t));
                }
            }
        } else {
            let pd = ps.drop_last();
            assert(forall|k: int| 0 <= k < pd.len() ==> pd[k] == ps[k]);
            assert forall|k: int| 0 <= k < ps.len() implies posting_ok(
                docs2,
                t,
                #[trigger] ps[k],
            ) by {
                if k < ps.len() - 1 {
                    assert(posting_ok(docs, t, pd[k]));
                } else {
                    assert(ps[k] == ps.last());
                    assert(matches_term(docs2[pos], t));
                }
            }
            assert forall|k1: int, k2: int| 0 <= k1 < k2 < ps.len() implies (
            #[trigger] ps[k1]).doc < (#[trigger] ps[k2]).doc by {
                if k2 < ps.len() - 1 {
                    assert(posting_ok(docs, t, pd[k1]));
                } else {
                    assert(posting_ok(docs, t, pd[k1]));
                    assert((ps[k1].doc as int) < docs.len());
                }
            }
            assert forall|i: int|
                0 <= i < docs2.len() && matches_term(#[trigger] docs2[i], t) implies ps_has_doc(
                ps,
                i,
            ) by {
                if i < pos {
                    assert(matches_term(docs[i], t));
                    assert(ps_has_doc(pd, i));
                    let k = choose|k: int| 0 <= k < pd.len() && (#[trigger] pd[k]).doc == i;
                    assert(ps[k].doc == i);
                } else {
                    assert(ps[ps.len() - 1].doc == i);
                }
            }
        }
    }
    assert forall|t: Seq<char>, i: int|
        0 <= i < docs2.len() && #[trigger] matches_term(docs2[i], t) implies has_term(
        terms,
        t,
    ) by {
        if i < pos {
            assert(matches_term(docs[i], t));
        } else {
            assert(matches_term(dv, t));
            assert(term_count(spec_tokens(dv.title), t) + term_count(spec_tokens(dv.content), t)
                > 0);
        }
    }
}

/// Indexes one document: tokenizes its fields and updates the posting lists
/// so they are exact for the documents extended with it.
fn index_doc(
    terms: &mut Vec<TermEntry>,
    Ghost(docs): Ghost<Seq<NoteV>>,
    Ghost(dv): Ghost<NoteV>,
    pos: usize,
    title: &str,
    content: &str,
)
    requires
        pos as int == docs.len(),
        dv.title == title@,
        dv.content == content@,
        terms_wf(docs, old(terms)@),
    ensures
        terms_wf(docs.push(dv), final(terms)@),
{
    let tt = tokenize(title);
    let ct = tokenize(content);
    let ghost ttv = spec_tokens(dv.title);
    let ghost ctv = spec_tokens(dv.content);
    proof {
        assert(tt.deep_view() == ttv);
        assert(ct.deep_view() == ctv);
        assert(ttv.take(0) =~= Seq::<Seq<char>>::empty());
        assert(terms_partial(
            docs,
            pos as int,
            terms@,
            ttv.take(0),
            Seq::<Seq<char>>::empty(),
        )) by {
            assert(forall|t: Seq<char>|
                #[trigger] term_count(ttv.take(0), t) == 0 && term_count(
                    Seq::<Seq<char>>::empty(),
                    t,
                ) == 0);
        }
    }
    let mut a: usize = 0;
    while a < tt.len()
        invariant
            a <= tt.len(),
            pos as int == docs.len(),
            tt.deep_view() == ttv,
            terms_partial(docs, pos as int, terms@, ttv.take(a as int), Seq::<Seq<char>>::empty()),
        decreases tt.len() - a,
    {
        let ghost tokv = ttv[a as int];
        proof {
            assert(tt@[a as int].deep_view() =~= tt@[a as int]@);
            assert(tt@[a as int]@ == tokv);
            lemma_term_count_le(ttv.take(a as int), tokv);
        }
        bump_term(
            terms,
            Ghost(docs),
            pos,
            &tt[a],
            true,
            Ghost(ttv.take(a as int)),
            Ghost(Seq::<Seq<char>>::empty()),
        );
        proof {
            assert(ttv.take(a as int).push(tokv) =~= ttv.take(a as int + 1));
        }
        a += 1;
    }
    proof {
        assert(ttv.take(tt@.len() as int) =~= ttv);
        assert(ctv.take(0) =~= Seq::<Seq<char>>::empty());
    }
    let mut b: usize = 0;
    while b < ct.len()
        invariant
            b <= ct.len(),
            pos as int == docs.len(),
            ct.deep_view() == ctv,
            terms_partial(docs, pos as int, terms@, ttv, ctv.take(b as int)),
        decreases ct.len() - b,
    {
        let ghost tokv = ctv[b as int];
        proof {
            assert(ct@[b as int].deep_view() =~= ct@[b as int]@);
            assert(ct@[b as int]@ == tokv);
            lemma_term_count_le(ctv.take(b as int), tokv);
        }
        bump_term(
            terms,
            Ghost(docs),
            pos,
            &ct[b],
            false,
            Ghost(ttv),
            Ghost(ctv.take(b as int)),
        );
        proof {
            assert(ctv.take(b as int).push(tokv) =~= ctv.take(b as int + 1));
        }
        b += 1;
    }
    proof {
        assert(ctv.take(ct@.len() as int) =~= ctv);
        lemma_partial_to_wf(docs, dv, terms@);
    }
}

/// Builds the posting lists of the given documents from nothing.
fn build_terms(docs: &Vec<Note>) -> (r: Vec<TermEntry>)
    ensures
        terms_wf(notes_v(docs@), r@),
{
    let mut terms: Vec<TermEntry> = Vec::new();
    let ghost all = notes_v(docs@);
    proof {
        assert(all.take(0) =~= Seq::<NoteV>::empty());
    }
    let mut i: usize = 0;
    while i < docs.len()
        invariant
            i <= docs.len(),
            all == notes_v(docs@),
            terms_wf(all.take(i as int), terms@),
        decreases docs.len() - i,
    {
        index_doc(
            &mut terms,
            Ghost(all.take(i as int)),
            Ghost(all[i as int]),
            i,
            docs[i].title.as_str(),
            docs[i].content.as_str(),
        );
        proof {
            assert(all.take(i as int).push(all[i as int]) =~= all.take(i as int + 1));
        }
        i += 1;
    }
    proof {
        assert(all.take(docs@.len() as int) =~= all);
    }
    terms
}

impl InvertedIndex {
    /// The mathematical value of the index: its stored document values, in
    /// insertion order.
    pub open spec fn dv(self) -> Seq<NoteV> {
        notes_v(self.docs@)
    }

    /// The structural invariant: the posting lists are exactly consistent
    /// with the stored documents.
    pub open spec fn wf(self) -> bool {
        terms_wf(self.dv(), self.terms@)
    }

    /// An empty index with the fixed field schema, as created on first run.
    pub fn new() -> (r: InvertedIndex)
        ensures
            r.wf(),
            r.dv() == Seq::<NoteV>::empty(),
    {
        let r = InvertedIndex { docs: Vec::new(), terms: Vec::new() };
        proof {
            assert(r.dv() =~= Seq::<NoteV>::empty());
        }
        r
    }

    /// Adds a document: stores its fields and updates the postings of every
    /// term it contains, incrementing frequencies.  Adding an id that is
    /// already present stores a duplicate entry; callers avoid that by
    /// deleting first.
    pub fn add(&mut self, note: &Note)
        requires
            old(self).wf(),
        ensures
            final(self).wf(),
            final(self).dv() == old(self).dv().push(note.v()),
    {
        let ghost prev = self.dv();
        let pos = self.docs.len();
        index_doc(
            &mut self.terms,
            Ghost(prev),
            Ghost(note.v()),
            pos,
            note.title.as_str(),
            note.content.as_str(),
        );
        self.docs.push(note.clone());
        proof {
            assert(self.dv() =~= prev.push(note.v()));
        }
    }

    /// An index over the given stored documents, its postings built fresh:
    /// used when a snapshot is opened and when the index is rebuilt.
    pub fn from_docs(docs: Vec<Note>) -> (r: InvertedIndex)
        ensures
            r.wf(),
            r.dv() == notes_v(docs@),
    {
        let terms = build_terms(&docs);
        InvertedIndex { docs, terms }
    }

    /// Removes every stored document with the given id together with all its
    /// postings.  Doing so for an absent id changes nothing.
    pub fn delete(&mut self, id: &str)
        requires
            old(self).wf(),
        ensures
            final(self).wf(),
            final(self).dv() == remove_id(old(self).dv(), id@),
    {
        crate::store::remove_with_id(&mut self.docs, id);
        let terms = build_terms(&self.docs);
        self.terms = terms;
    }
}

/// A search never returns more hits than this.
pub const RESULT_LIMIT: usize = 10;

/// A candidate during query evaluation: a document position and its
/// accumulated score.
#[derive(Clone, Copy)]
struct Candidate {
    doc: usize,
    score: u64,
}

/// One search result: the stored fields of a matching document and its
/// relevance score.
pub struct SearchHit {
    pub id: String,
    pub title: String,
    pub content: String,
    pub score: u64,
}

/// Whether the candidate list has a candidate for document position `i`.
spec fn cand_has(cs: Seq<Candidate>, i: int) -> bool {
    exists|k: int| 0 <= k < cs.len() && (#[trigger] cs[k]).doc == i
}

/// Every candidate names a distinct stored document and carries its exact,
/// positive score for the query tokens read so far.
spec fn cands_exact(docs: Seq<NoteV>, done: Seq<Seq<char>>, cs: Seq<Candidate>) -> bool {
    &&& forall|k: int|
        0 <= k < cs.len() ==> ((#[trigger] cs[k]).doc as int) < docs.len() && cs[k].score
            == doc_score(docs, cs[k].doc as int, done) && cs[k].score > 0
    &&& forall|k1: int, k2: int|
        0 <= k1 < k2 < cs.len() ==> (#[trigger] cs[k1]).doc != (#[trigger] cs[k2]).doc
}

/// The candidate list is exact for the query tokens read so far: one
/// candidate per document with a positive score, carrying that score.
spec fn cands_ok(docs: Seq<NoteV>, done: Seq<Seq<char>>, cs: Seq<Candidate>) -> bool {
    &&& cands_exact(docs, done, cs)
    &&& forall|i: int|
        0 <= i < docs.len() && #[trigger] doc_score(docs, i, done) > 0 ==> cand_has(cs, i)
}

/// Whether some posting strictly before index `k` is for document `i`.
spec fn ps_pre(ps: Seq<Posting>, k: int, i: int) -> bool {
    exists|m: int| 0 <= m < k && (#[trigger] ps[m]).doc == i
}

/// Whether some posting at or after index `k` is for document `i`.
spec fn ps_post(ps: Seq<Posting>, k: int, i: int) -> bool {
    exists|m: int| k <= m < ps.len() && (#[trigger] ps[m]).doc == i
}

/// The candidate list while the postings of one query token are merged in:
/// documents whose posting was already read carry the token's contribution,
/// the others do not yet.
spec fn cands_mid(
    docs: Seq<NoteV>,
    done: Seq<Seq<char>>,
    t: Seq<char>,
    ps: Seq<Posting>,
    k: int,
    cs: Seq<Candidate>,
) -> bool {
    &&& forall|c: int|
        0 <= c < cs.len() ==> ((#[trigger] cs[c]).doc as int) < docs.len() && cs[c].score > 0 && (
        if ps_pre(ps, k, cs[c].doc as int) {
            cs[c].score == sat64(
                doc_score(docs, cs[c].doc as int, done) as int + token_score(
                    docs,
                    cs[c].doc as int,
                    t,
                ) as int,
            )
        } else {
            cs[c].score == doc_score(docs, cs[c].doc as int, done)
        })
    &&& forall|c1: int, c2: int|
        0 <= c1 < c2 < cs.len() ==> (#[trigger] cs[c1]).doc != (#[trigger] cs[c2]).doc
    &&& forall|i: int|
        0 <= i < docs.len() && #[trigger] doc_score(docs, i, done) > 0 ==> cand_has(cs, i)
    &&& forall|i: int|
        0 <= i < docs.len() && matches_term(#[trigger] docs[i], t) && !cand_has(cs, i)
            ==> ps_post(ps, k, i)
}

/// Document `i` is ranked ahead of document `j`: a higher score, or an
/// equal score and earlier insertion.
pub open spec fn ranked_before(docs: Seq<NoteV>, toks: Seq<Seq<char>>, i: int, j: int) -> bool {
    doc_score(docs, i, toks) > doc_score(docs, j, toks) || (doc_score(docs, i, toks) == doc_score(
        docs,
        j,
        toks,
    ) && i < j)
}

/// `h` is a true hit for document `i`: its stored fields and its exact,
/// positive score.
pub open spec fn hit_ok(docs: Seq<NoteV>, toks: Seq<Seq<char>>, h: SearchHit, i: int) -> bool {
    &&& 0 <= i < docs.len()
    &&& h.id@ == docs[i].id
    &&& h.title@ == docs[i].title
    &&& h.content@ == docs[i].content
    &&& h.score == doc_score(docs, i, toks)
    &&& h.score > 0
}

/// `h` carries the id of some stored document.
pub open spec fn hit_from_docs(docs: Seq<NoteV>, h: SearchHit) -> bool {
    exists|i: int| 0 <= i < docs.len() && (#[trigger] docs[i]).id == h.id@
}

/// Some hit carries the id.
pub open spec fn hits_have_id(hits: Seq<SearchHit>, id: Seq<char>) -> bool {
    exists|k: int| 0 <= k < hits.len() && (#[trigger] hits[k]).id@ == id
}

/// The hits answer the query: true hits at positions `pos`, strictly
/// ranked, and every relevant document is included unless the result is
/// already full of better-ranked ones.
pub open spec fn search_valid(
    docs: Seq<NoteV>,
    toks: Seq<Seq<char>>,
    hits: Seq<SearchHit>,
    pos: Seq<int>,
) -> bool {
    &&& pos.len() == hits.len()
    &&& forall|k: int| 0 <= k < hits.len() ==> hit_ok(docs, toks, #[trigger] hits[k], pos[k])
    &&& forall|k1: int, k2: int|
        0 <= k1 < k2 < hits.len() ==> ranked_before(docs, toks, pos[k1], pos[k2])
    &&& forall|i: int|
        0 <= i < docs.len() && #[trigger] doc_score(docs, i, toks) > 0 && !pos.contains(i)
            ==> hits.len() == RESULT_LIMIT && (forall|k: int|
            0 <= k < pos.len() ==> ranked_before(docs, toks, #[trigger] pos[k], i))
}

/// One more query token extends a document's score by that token's
/// contribution.
pub proof fn lemma_doc_score_step(docs: Seq<NoteV>, i: int, toks: Seq<Seq<char>>, q: int)
    requires
        0 <= q < toks.len(),
    ensures
        doc_score(docs, i, toks.take(q + 1)) == sat64(
            doc_score(docs, i, toks.take(q)) as int + token_score(docs, i, toks[q]) as int,
        ),
{
    assert(toks.take(q + 1).drop_last() =~= toks.take(q));
    assert(toks.take(q + 1).last() == toks[q]);
}

impl InvertedIndex {
    /// Ranked full-text lookup: tokenizes the query with the same analyzer
    /// as index time, scores every stored document containing any query
    /// term (terms are OR-combined), and returns the stored fields of the
    /// best documents, highest score first, ties broken by insertion order,
    /// capped at `RESULT_LIMIT`.  A query matching nothing gives an empty
    /// result, not an error.
    #[verifier::rlimit(60)]
    pub fn search(&self, query: &str) -> (r: Vec<SearchHit>)
        requires
            self.wf(),
        ensures
            r@.len() <= RESULT_LIMIT,
            exists|pos: Seq<int>| search_valid(self.dv(), spec_tokens(query@), r@, pos),
            forall|k1: int, k2: int|
                0 <= k1 < k2 < r@.len() ==> (#[trigger] r@[k1]).score >= (#[trigger] r@[k2]).score,
            forall|k: int| 0 <= k < r@.len() ==> hit_from_docs(self.dv(), #[trigger] r@[k]),
            forall|i: int|
                0 <= i < self.dv().len() && #[trigger] doc_score(
                    self.dv(),
                    i,
                    spec_tokens(query@),
                ) > 0 && r@.len() < RESULT_LIMIT ==> hits_have_id(r@, self.dv()[i].id),
    {
        let ghost docs = self.dv();
        let ghost tv = spec_tokens(query@);
        let toks = tokenize(query);
        let mut cands: Vec<Candidate> = Vec::new();
        proof {
            assert(tv.take(0) =~= Seq::<Seq<char>>::empty());
        }
        let mut q: usize = 0;
        while q < toks.len()
            invariant
                q <= toks@.len(),
                self.wf(),
                docs == self.dv(),
                toks.deep_view() == tv,
                cands_ok(docs, tv.take(q as int), cands@),
            decreases toks@.len() - q,
        {
            let ghost done = tv.take(q as int);
            let ghost done2 = tv.take(q as int + 1);
            let ghost t = tv[q as int];
            proof {
                assert(toks@[q as int].deep_view() =~= toks@[q as int]@);
                assert(toks@[q as int]@ == t);
                assert forall|i: int| 0 <= i < docs.len() implies #[trigger] doc_score(
                    docs,
                    i,
                    done2,
                ) == sat64(
                    doc_score(docs, i, done) as int + token_score(docs, i, t) as int,
                ) by {
                    lemma_doc_score_step(docs, i, tv, q as int);
                }
            }
            let n_terms = self.terms.len();
            let mut j: usize = 0;
            let mut at: usize = n_terms;
            while j < n_terms
                invariant
                    j <= n_terms,
                    at <= n_terms,
                    n_terms == self.terms@.len(),
                    toks.deep_view() == tv,
                    q < tv.len(),
                    t == tv[q as int],
                    toks@[q as int]@ == t,
                    at == n_terms ==> forall|p: int|
                        0 <= p < j ==> (#[trigger] self.terms@[p]).term@ != t,
                    at < n_terms ==> self.terms@[at as int].term@ == t,
                decreases n_terms - j,
            {
                if at == n_terms && term_eq(&self.terms[j].term, &toks[q]) {
                    at = j;
                }
                j += 1;
            }
            if at < n_terms {
                let ghost ps = self.terms@[at as int].postings@;
                proof {
                    assert(postings_complete(docs, t, ps));
                    lemma_entry_df(docs, t, ps);
                    lemma_df_le(docs, t);
                }
                let w_idf = crate::score::idf(self.docs.len(), self.terms[at].postings.len());
                proof {
                    crate::score::lemma_idf_pos(docs.len() as int, df_of(docs, t) as int);
                    assert forall|c: int| 0 <= c < cands@.len() implies !ps_pre(
                        ps,
                        0,
                        ((#[trigger] cands@[c]).doc as int),
                    ) by {
                    }
                    assert forall|i: int|
                        0 <= i < docs.len() && matches_term(#[trigger] docs[i], t) && !cand_has(
                        cands@,
                        i,
                    ) implies ps_post(ps, 0, i) by {
                        assert(ps_has_doc(ps, i));
                        let m = choose|m: int| 0 <= m < ps.len() && (#[trigger] ps[m]).doc == i;
                        assert(k_in_range(ps, 0, m));
                    }
                    assert(cands_mid(docs, done, t, ps, 0, cands@));
                }
                let plen = self.terms[at].postings.len();
                let mut k: usize = 0;
                while k < plen
                    invariant
                        k <= plen,
                        at < self.terms@.len(),
                        ps == self.terms@[at as int].postings@,
                        plen == ps.len(),
                        self.wf(),
                        docs == self.dv(),
                        postings_complete(docs, t, ps),
                        w_idf == idf_weight(docs.len() as int, df_of(docs, t) as int),
                        1 <= w_idf,
                        cands_mid(docs, done, t, ps, k as int, cands@),
                    decreases plen - k,
                {
                    let p = self.terms[at].postings[k];
                    proof {
                        assert(posting_ok(docs, t, ps[k as int]));
                        assert forall|m: int| 0 <= m < k implies (#[trigger] ps[m]).doc
                            < p.doc by {
                        }
                    }
                    let tf_sum = crate::score::sat_add64(p.title_tf, p.content_tf);
                    let w = crate::score::weight_of(tf_sum, w_idf);
                    proof {
                        crate::score::lemma_term_weight_sat(
                            p.title_tf + p.content_tf,
                            w_idf,
                        );
                        assert(w == token_score(docs, p.doc as int, t));
                        crate::score::lemma_term_weight_pos(
                            (t_tf(docs[p.doc as int], t) + c_tf(docs[p.doc as int], t)) as int,
                            w_idf,
                        );
                        assert(w > 0);
                    }
                    let clen = cands.len();
                    let mut c: usize = 0;
                    let mut cat: usize = clen;
                    while c < clen
                        invariant
                            c <= clen,
                            cat <= clen,
                            clen == cands@.len(),
                            cat == clen ==> forall|x: int|
                                0 <= x < c ==> (#[trigger] cands@[x]).doc != p.doc,
                            cat < clen ==> cands@[cat as int].doc == p.doc,
                        decreases clen - c,
                    {
                        if cat == clen && cands[c].doc == p.doc {
                            cat = c;
                        }
                        c += 1;
                    }
                    let ghost old_cands = cands@;
                    if cat < clen {
                        proof {
                            assert(!ps_pre(ps, k as int, p.doc as int)) by {
                                if ps_pre(ps, k as int, p.doc as int) {
                                    let m = choose|m: int|
                                        0 <= m < k && (#[trigger] ps[m]).doc == p.doc as int;
                                    assert(ps[m].doc < ps[k as int].doc);
                                }
                            }
                        }
                        let mut cd = cands[cat];
                        cd.score = crate::score::sat_add64(cd.score, w);
                        cands[cat] = cd;
                        proof {
                            assert(cands@ =~= old_cands.update(cat as int, cd));
                            assert(cd.score > 0) by {
                                assert(old_cands[cat as int].score > 0);
                            }
                            assert(forall|x: int|
                                0 <= x < cands@.len() ==> (#[trigger] cands@[x]).doc
                                    == old_cands[x].doc);
                            assert forall|i: int|
                                0 <= i < docs.len() && #[trigger] doc_score(docs, i, done) > 0
                                    implies cand_has(cands@, i) by {
                                assert(cand_has(old_cands, i));
                                let x = choose|x: int|
                                    0 <= x < old_cands.len() && (#[trigger] old_cands[x]).doc
                                        == i;
                                assert(cands@[x].doc == i);
                            }
                            assert(ps_pre(ps, k as int + 1, p.doc as int)) by {
                                assert((ps[k as int]).doc == p.doc as int);
                            }
                            assert forall|i: int|
                                i != p.doc as int implies #[trigger] ps_pre(
                                ps,
                                k as int + 1,
                                i,
                            ) == ps_pre(ps, k as int, i) by {
                                if ps_pre(ps, k as int + 1, i) && !ps_pre(ps, k as int, i) {
                                    let m = choose|m: int|
                                        0 <= m < k + 1 && (#[trigger] ps[m]).doc == i;
                                    assert(m == k);
                                }
                            }
                            assert forall|i: int|
                                0 <= i < docs.len() && matches_term(#[trigger] docs[i], t)
                                    && !cand_has(cands@, i) implies ps_post(
                                ps,
                                k as int + 1,
                                i,
                            ) by {
                                assert(!cand_has(old_cands, i)) by {
                                    if cand_has(old_cands, i) {
                                        let x = choose|x: int|
                                            0 <= x < old_cands.len() && (
                                            #[trigger] old_cands[x]).doc == i;
                                        assert(cands@[x].doc == i);
                                    }
                                }
                                assert(ps_post(ps, k as int, i));
                                let m = choose|m: int|
                                    k <= m < ps.len() && (#[trigger] ps[m]).doc == i;
                                assert(m != k) by {
                                    if m == k {
                                        assert(cands@[cat as int].doc == i);
                                    }
                                }
                                assert(k_in_range(ps, k as int + 1, m));
                            }
                        }
                    } else {
                        proof {
                            assert(!cand_has(old_cands, p.doc as int));
                            assert(doc_score(docs, p.doc as int, done) == 0) by {
                                if doc_score(docs, p.doc as int, done) > 0 {
                                    assert(cand_has(old_cands, p.doc as int));
                                }
                            }
                        }
                        cands.push(Candidate { doc: p.doc, score: w });
                        proof {
                            assert(cands@ =~= old_cands.push(Candidate { doc: p.doc, score: w }));
                            assert(ps_pre(ps, k as int + 1, p.doc as int)) by {
                                assert((ps[k as int]).doc == p.doc as int);
                            }
                            assert forall|i: int|
                                i != p.doc as int implies #[trigger] ps_pre(
                                ps,
                                k as int + 1,
                                i,
                            ) == ps_pre(ps, k as int, i) by {
                                if ps_pre(ps, k as int + 1, i) && !ps_pre(ps, k as int, i) {
                                    let m = choose|m: int|
                                        0 <= m < k + 1 && (#[trigger] ps[m]).doc == i;
                                    assert(m == k);
                                }
                            }
                            assert forall|x: int| 0 <= x < old_cands.len() implies (
                            #[trigger] cands@[x]) == old_cands[x] by {
                            }
                            assert forall|i: int|
                                0 <= i < docs.len() && #[trigger] doc_score(docs, i, done) > 0
                                    implies cand_has(cands@, i) by {
                                assert(cand_has(old_cands, i));
                                let x = choose|x: int|
                                    0 <= x < old_cands.len() && (#[trigger] old_cands[x]).doc
                                        == i;
                                assert(cands@[x].doc == i);
                            }
                            assert forall|i: int|
                                0 <= i < docs.len() && matches_term(#[trigger] docs[i], t)
                                    && !cand_has(cands@, i) implies ps_post(
                                ps,
                                k as int + 1,
                                i,
                            ) by {
                                assert(!cand_has(old_cands, i)) by {
                                    if cand_has(old_cands, i) {
                                        let x = choose|x: int|
                                            0 <= x < old_cands.len() && (
                                            #[trigger] old_cands[x]).doc == i;
                                        assert(cands@[x].doc == i);
                                    }
                                }
                                assert(i != p.doc as int) by {
                                    assert(cands@[cands@.len() - 1].doc == p.doc);
                                }
                                assert(ps_post(ps, k as int, i));
                                let m = choose|m: int|
                                    k <= m < ps.len() && (#[trigger] ps[m]).doc == i;
                                assert(m != k);
                                assert(k_in_range(ps, k as int + 1, m));
                            }
                        }
                    }
                    k += 1;
                }
                proof {
                    assert(cands_ok(docs, done2, cands@)) by {
                        assert forall|c: int| 0 <= c < cands@.len() implies ((
                        #[trigger] cands@[c]).doc as int) < docs.len() && cands@[c].score
                            == doc_score(docs, cands@[c].doc as int, done2) && cands@[c].score
                            > 0 by {
                            let i = cands@[c].doc as int;
                            if ps_pre(ps, plen as int, i) {
                            } else {
                                assert(token_score(docs, i, t) == 0) by {
                                    if matches_term(docs[i], t) {
                                        assert(ps_has_doc(ps, i));
                                        let m = choose|m: int|
                                            0 <= m < ps.len() && (#[trigger] ps[m]).doc == i;
                                        assert(k_in_range(ps, 0, m));
                                        assert(ps_pre(ps, plen as int, i));
                                    }
                                }
                            }
                        }
                        assert forall|i: int|
                            0 <= i < docs.len() && #[trigger] doc_score(docs, i, done2) > 0
                                implies cand_has(cands@, i) by {
                            if doc_score(docs, i, done) > 0 {
                            } else {
                                assert(token_score(docs, i, t) > 0);
                                assert(matches_term(docs[i], t));
                                if !cand_has(cands@, i) {
                                    assert(ps_post(ps, plen as int, i));
                                }
                            }
                        }
                    }
                }
            } else {
                proof {
                    assert forall|i: int| 0 <= i < docs.len() implies #[trigger] token_score(
                        docs,
                        i,
                        t,
                    ) == 0 by {
                        if matches_term(docs[i], t) {
                            assert(has_term(self.terms@, t));
                            let w = choose|w: int|
                                0 <= w < self.terms@.len() && (#[trigger] self.terms@[w]).term@
                                    == t;
                        }
                    }
                    assert(cands_ok(docs, done2, cands@)) by {
                        assert forall|c: int| 0 <= c < cands@.len() implies ((
                        #[trigger] cands@[c]).doc as int) < docs.len() && cands@[c].score
                            == doc_score(docs, cands@[c].doc as int, done2) && cands@[c].score
                            > 0 by {
                            assert(token_score(docs, cands@[c].doc as int, t) == 0);
                        }
                        assert forall|i: int|
                            0 <= i < docs.len() && #[trigger] doc_score(docs, i, done2) > 0
                                implies cand_has(cands@, i) by {
                            assert(doc_score(docs, i, done) > 0);
                        }
                    }
                }
            }
            q += 1;
        }
        proof {
            assert(tv.take(toks@.len() as int) =~= tv);
        }
        let mut hits: Vec<SearchHit> = Vec::new();
        let ghost mut pos: Seq<int> = Seq::<int>::empty();
        while cands.len() > 0 && hits.len() < RESULT_LIMIT
            invariant
                pos.len() == hits@.len(),
                hits@.len() <= RESULT_LIMIT,
                docs == self.dv(),
                cands_exact(docs, tv, cands@),
                forall|k: int|
                    0 <= k < hits@.len() ==> hit_ok(docs, tv, #[trigger] hits@[k], pos[k]),
                forall|k1: int, k2: int|
                    0 <= k1 < k2 < hits@.len() ==> ranked_before(docs, tv, pos[k1], pos[k2]),
                forall|k: int, c: int|
                    #![trigger pos[k], cands@[c]]
                    0 <= k < pos.len() && 0 <= c < cands@.len() ==> ranked_before(
                        docs,
                        tv,
                        pos[k],
                        cands@[c].doc as int,
                    ),
                forall|i: int|
                    0 <= i < docs.len() && #[trigger] doc_score(docs, i, tv) > 0 ==> cand_has(
                        cands@,
                        i,
                    ) || pos.contains(i),
            decreases cands@.len(),
        {
            let mut best: usize = 0;
            let mut m: usize = 1;
            while m < cands.len()
                invariant
                    cands@.len() > 0,
                    (best as int) < cands@.len(),
                    1 <= m <= cands@.len(),
                    forall|k1: int, k2: int|
                        0 <= k1 < k2 < cands@.len() ==> (#[trigger] cands@[k1]).doc != (
                        #[trigger] cands@[k2]).doc,
                    forall|x: int|
                        0 <= x < m && x != best as int ==> cand_beats(
                            cands@[best as int],
                            #[trigger] cands@[x],
                        ),
                decreases cands@.len() - m,
            {
                let a = cands[m];
                let b = cands[best];
                if a.score > b.score || (a.score == b.score && a.doc < b.doc) {
                    best = m;
                }
                m += 1;
            }
            let ghost old_cands = cands@;
            let chosen = cands.remove(best);
            proof {
                assert(chosen == old_cands[best as int]);
                assert(cands@ =~= old_cands.remove(best as int));
                assert forall|x: int| 0 <= x < cands@.len() implies #[trigger] cands@[x] == (
                if x < best as int {
                    old_cands[x]
                } else {
                    old_cands[x + 1]
                }) by {
                }
            }
            let nref = &self.docs[chosen.doc];
            let hit = SearchHit {
                id: nref.id.clone(),
                title: nref.title.clone(),
                content: nref.content.clone(),
                score: chosen.score,
            };
            proof {
                assert(docs[chosen.doc as int] == self.docs@[chosen.doc as int].v());
            }
            hits.push(hit);
            let ghost old_pos = pos;
            proof {
                pos = pos.push(chosen.doc as int);
                assert(hit_ok(docs, tv, hits@[hits@.len() - 1], chosen.doc as int));
                assert forall|x: int|
                    0 <= x < cands@.len() implies ranked_before(
                    docs,
                    tv,
                    chosen.doc as int,
                    (#[trigger] cands@[x]).doc as int,
                ) by {
                    let y: int = if x < best as int {
                        x
                    } else {
                        x + 1
                    };
                    assert(cands@[x] == old_cands[y]);
                    assert(cand_beats(old_cands[best as int], old_cands[y]));
                    assert(old_cands[y].score == doc_score(docs, old_cands[y].doc as int, tv));
                }
                assert forall|i: int|
                    0 <= i < docs.len() && #[trigger] doc_score(docs, i, tv) > 0 implies
                    cand_has(cands@, i) || pos.contains(i) by {
                    if cand_has(old_cands, i) {
                        let x = choose|x: int|
                            0 <= x < old_cands.len() && (#[trigger] old_cands[x]).doc == i;
                        if x == best as int {
                            assert(pos[pos.len() - 1] == i);
                        } else {
                            let y: int = if x < best as int {
                                x
                            } else {
                                x - 1
                            };
                            assert(cands@[y].doc == i);
                        }
                    } else {
                        assert(old_pos.contains(i));
                        let x = choose|x: int| 0 <= x < old_pos.len() && old_pos[x] == i;
                        assert(pos[x] == i);
                    }
                }
            }
        }
        proof {
            assert forall|i: int|
                0 <= i < docs.len() && #[trigger] doc_score(docs, i, tv) > 0 && !pos.contains(
                    i,
                ) implies hits@.len() == RESULT_LIMIT && (forall|k: int|
                0 <= k < pos.len() ==> ranked_before(docs, tv, #[trigger] pos[k], i)) by {
                assert(cand_has(cands@, i));
                let x = choose|x: int| 0 <= x < cands@.len() && (#[trigger] cands@[x]).doc == i;
                assert(cands@.len() > 0);
                assert(hits@.len() == RESULT_LIMIT);
                assert forall|k: int| 0 <= k < pos.len() implies ranked_before(
                    docs,
                    tv,
                    #[trigger] pos[k],
                    i,
                ) by {
                    assert(ranked_before(docs, tv, pos[k], cands@[x].doc as int));
                }
            }
            assert(search_valid(docs, tv, hits@, pos));
            assert forall|k1: int, k2: int| 0 <= k1 < k2 < hits@.len() implies (
            #[trigger] hits@[k1]).score >= (#[trigger] hits@[k2]).score by {
                assert(hit_ok(docs, tv, hits@[k1], pos[k1]));
                assert(hit_ok(docs, tv, hits@[k2], pos[k2]));
                assert(ranked_before(docs, tv, pos[k1], pos[k2]));
            }
            assert forall|k: int| 0 <= k < hits@.len() implies hit_from_docs(
                docs,
                #[trigger] hits@[k],
            ) by {
                assert(hit_ok(docs, tv, hits@[k], pos[k]));
                assert(docs[pos[k]].id == hits@[k].id@);
            }
            assert forall|i: int|
                0 <= i < docs.len() && #[trigger] doc_score(docs, i, tv) > 0 && hits@.len()
                    < RESULT_LIMIT implies hits_have_id(hits@, docs[i].id) by {
                if pos.contains(i) {
                    let k = choose|k: int| 0 <= k < pos.len() && pos[k] == i;
                    assert(hit_ok(docs, tv, hits@[k], pos[k]));
                    assert(hits@[k].id@ == docs[i].id);
                }
            }
        }
        hits
    }
}

/// Candidate `a` is ranked ahead of candidate `b`.
spec fn cand_beats(a: Candidate, b: Candidate) -> bool {
    a.score > b.score || (a.score == b.score && a.doc < b.doc)
}

/// Index `m` lies in `[lo, ps.len())`; stating it instantiates `ps_post`.
spec fn k_in_range(ps: Seq<Posting>, lo: int, m: int) -> bool {
    lo <= m < ps.len()
}

/// Ranking is monotone in term frequency: a document holding every query
/// term at least as often (in each field) as another scores at least as
/// high.
pub proof fn lemma_ranking_monotone(docs: Seq<NoteV>, i: int, j: int, toks: Seq<Seq<char>>)
    requires
        0 <= i < docs.len(),
        0 <= j < docs.len(),
        forall|q: int|
            0 <= q < toks.len() ==> t_tf(docs[i], #[trigger] toks[q]) <= t_tf(docs[j], toks[q])
                && c_tf(docs[i], toks[q]) <= c_tf(docs[j], toks[q]),
    ensures
        doc_score(docs, i, toks) <= doc_score(docs, j, toks),
    decreases toks.len(),
{
    if toks.len() > 0 {
        let td = toks.drop_last();
        assert(forall|q: int| 0 <= q < td.len() ==> td[q] == toks[q]);
        lemma_ranking_monotone(docs, i, j, td);
        let t = toks.last();
        assert(t == toks[toks.len() - 1]);
        assert(token_score(docs, i, t) <= token_score(docs, j, t)) by {
            if matches_term(docs[i], t) {
                assert(matches_term(docs[j], t));
                crate::score::lemma_term_weight_mono(
                    (t_tf(docs[i], t) + c_tf(docs[i], t)) as int,
                    (t_tf(docs[j], t) + c_tf(docs[j], t)) as int,
                    idf_weight(docs.len() as int, df_of(docs, t) as int),
                );
            }
        }
        crate::score::lemma_sat64_mono(
            doc_score(docs, i, td) as int + token_score(docs, i, t) as int,
            doc_score(docs, j, td) as int + token_score(docs, j, t) as int,
        );
    }
}

} // verus!
