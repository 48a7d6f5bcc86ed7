//! Relevance scoring: an integer term-frequency / inverse-document-frequency
//! weight.  A term occurring often in a document scores higher; a term common
//! across many documents is penalized.  All arithmetic saturates at
//! `u64::MAX`, so scores are total functions of the inputs.

use vstd::prelude::*;

verus! {

/// Scale factor of the integer inverse-document-frequency weight.
pub const IDF_SCALE: u64 = 1000;

/// The `u64` nearest to the exact integer `x`: `x` clamped to `0 ..= u64::MAX`.
pub open spec fn sat64(x: int) -> u64 {
    if x > u64::MAX {
        u64::MAX
    } else if x < 0 {
        0u64
    } else {
        x as u64
    }
}

/// Saturating addition.
pub fn sat_add64(a: u64, b: u64) -> (r: u64)
    ensures
        r == sat64(a + b),
{
    match a.checked_add(b) {
        Some(v) => v,
        None => u64::MAX,
    }
}

/// Saturating multiplication.
pub fn sat_mul64(a: u64, b: u64) -> (r: u64)
    ensures
        r == sat64(a * b),
{
    match a.checked_mul(b) {
        Some(v) => v,
        None => u64::MAX,
    }
}

/// The inverse-document-frequency weight of a term: `IDF_SCALE` scaled by how
/// rare the term is among the `n_docs` stored documents, `df` of which
/// contain it.  Always at least `IDF_SCALE` when `df <= n_docs`.
pub open spec fn idf_weight(n_docs: int, df: int) -> u64
    recommends
        0 <= df,
        0 <= n_docs,
{
    let num = sat64((n_docs + 1) * (IDF_SCALE as int));
    let den = sat64(df + 1);
    if den == 0 {
        0u64
    } else {
        (num as int / den as int) as u64
    }
}

/// The score a single term contributes to a document: its frequency in the
/// document times the term's inverse-document-frequency weight.
pub open spec fn term_weight(tf: int, idf: u64) -> u64 {
    sat64(tf * idf)
}

/// Computes `idf_weight` over the machine integers.
pub fn idf(n_docs: usize, df: usize) -> (r: u64)
    ensures
        r == idf_weight(n_docs as int, df as int),
{
    let num = sat_mul64(sat_add64(n_docs as u64, 1), IDF_SCALE);
    let den = sat_add64(df as u64, 1);
    proof {
        assert(den == sat64(df as int + 1));
        assert(den >= 1);
        assert(num == sat64((n_docs as int + 1) * (IDF_SCALE as int))) by (nonlinear_arith)
            requires
                num == sat64(sat64(n_docs as int + 1) as int * (IDF_SCALE as int)),
        {
        }
    }
    num / den
}

/// Computes `term_weight` over the machine integers.
pub fn weight_of(tf: u64, idf: u64) -> (r: u64)
    ensures
        r == term_weight(tf as int, idf),
{
    sat_mul64(tf, idf)
}

/// Saturation keeps order: clamping two exact values to `u64` keeps the
/// smaller one no larger than the other.
pub proof fn lemma_sat64_mono(x: int, y: int)
    requires
        x <= y,
    ensures
        sat64(x) <= sat64(y),
{
}

/// The score contribution of a term grows with its frequency in the
/// document.
pub proof fn lemma_term_weight_mono(tf1: int, tf2: int, idf: u64)
    requires
        0 <= tf1 <= tf2,
    ensures
        term_weight(tf1, idf) <= term_weight(tf2, idf),
{
    assert(tf1 * idf <= tf2 * idf) by (nonlinear_arith)
        requires
            0 <= tf1 <= tf2,
    {
    }
    lemma_sat64_mono(tf1 * idf, tf2 * idf);
}

/// A term that occurs in a document contributes a positive score.
pub proof fn lemma_term_weight_pos(tf: int, idf: u64)
    requires
        1 <= tf,
        1 <= idf,
    ensures
        1 <= term_weight(tf, idf),
{
    assert(1 * 1 <= tf * idf) by (nonlinear_arith)
        requires
            1 <= tf,
            1 <= idf,
    {
    }
}

/// A term present in no more documents than another has at least that
/// other's inverse-document-frequency weight.
pub proof fn lemma_idf_antimono(n_docs: int, df1: int, df2: int)
    requires
        0 <= df1 <= df2,
        0 <= n_docs,
    ensures
        idf_weight(n_docs, df2) <= idf_weight(n_docs, df1),
{
    let num = sat64((n_docs + 1) * (IDF_SCALE as int)) as int;
    let d1 = sat64(df1 + 1) as int;
    let d2 = sat64(df2 + 1) as int;
    assert(1 <= d1 <= d2);
    assert(num / d2 <= num / d1) by (nonlinear_arith)
        requires
            0 <= num,
            1 <= d1 <= d2,
    {
    }
}

/// A term contained in at most every stored document has a positive
/// inverse-document-frequency weight.
pub proof fn lemma_idf_pos(n_docs: int, df: int)
    requires
        0 <= df <= n_docs <= u64::MAX,
    ensures
        1 <= idf_weight(n_docs, df),
{
    let num = sat64((n_docs + 1) * (IDF_SCALE as int)) as int;
    let den = sat64(df + 1) as int;
    assert(1 <= den);
    assert((n_docs + 1) * 1 <= (n_docs + 1) * (IDF_SCALE as int)) by (nonlinear_arith)
        requires
            0 <= n_docs,
            1 <= (IDF_SCALE as int),
    {
    }
    lemma_sat64_mono(df + 1, n_docs + 1);
    lemma_sat64_mono(n_docs + 1, (n_docs + 1) * (IDF_SCALE as int));
    assert(den <= num);
    assert(1 <= num / den) by (nonlinear_arith)
        requires
            1 <= den <= num,
    {
    }
}

/// Clamping the combined frequency before weighting changes nothing: the
/// weight saturates anyway.
pub proof fn lemma_term_weight_sat(x: int, idf: u64)
    requires
        0 <= x,
        1 <= idf,
    ensures
        term_weight(sat64(x) as int, idf) == term_weight(x, idf),
{
    if x > u64::MAX {
        assert(sat64(x) == u64::MAX);
        assert(u64::MAX * idf >= u64::MAX) by (nonlinear_arith)
            requires
                1 <= idf,
        {
        }
        assert(x * idf > u64::MAX) by (nonlinear_arith)
            requires
                x > u64::MAX,
                1 <= idf,
        {
        }
    }
}

} // verus!
