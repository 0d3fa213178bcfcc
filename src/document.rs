//! Articles, their term vectors, and the similarity of two articles.

use vstd::prelude::*;

use crate::vocabulary::{term_indices, vector_of, vectorize, words_of, Vocabulary};
use crate::vector::{
    distance, dot, lemma_dot_symmetric, lemma_dot_valid, valid_vector, Vector, UNIT_COSINE,
};

verus! {

/// A penalty is counted in units of `1 / PENALTY_SCALE`.
pub const PENALTY_SCALE: u64 = 14400;

/// Penalty for two articles of the same feed: 0.3.
pub const SOURCE_PENALTY: u64 = 4320;

/// Seconds of publish-time difference below which no time penalty applies
/// (a delta of 2 after the division by 1440).
pub const TIME_GRACE: u64 = 2880;

/// Cap of the time penalty: 0.5.
pub const TIME_PENALTY_CAP: u64 = 7200;

/// A similarity is counted in units of `1 / SIMILARITY_SCALE`
/// (`2 * UNIT_COSINE * PENALTY_SCALE`).
pub const SIMILARITY_SCALE: u64 = 123695058124800;

/// An article record as it travels between the services.
pub struct Entry {
    pub source: String,
    pub url: String,
    pub title: String,
    pub author: Option<String>,
    pub content: String,
    /// Seconds since the epoch.
    pub published: i64,
}

/// An article admitted to clustering: its record and its term vector.
pub struct Document {
    pub entry: Entry,
    pub vector: Vector,
}

impl Document {
    /// The vector is valid and holds at least one term.
    pub open spec fn wf(&self) -> bool {
        &&& valid_vector(self.vector@)
        &&& self.vector@.len() > 0
    }

    /// The document of an article, or `None` when no word of its content
    /// survives vectorization (or more survive than a count can hold).
    pub fn from_entry(entry: Entry, vocabulary: &Vocabulary) -> (r: Option<Document>)
        requires
            vocabulary.wf(),
        ensures
            match r {
                Some(d) => {
                    &&& d.entry == entry
                    &&& d.wf()
                    &&& vector_of(d.vector@, term_indices(*vocabulary, words_of(entry.content@)))
                },
                None => term_indices(*vocabulary, words_of(entry.content@)).len() == 0
                    || term_indices(*vocabulary, words_of(entry.content@)).len() > u32::MAX,
            },
    {
        match vectorize(entry.content.as_str(), vocabulary) {
            Some(vector) => {
                if vector.0.len() == 0 {
                    None
                } else {
                    Some(Document { entry, vector })
                }
            },
            None => None,
        }
    }

    pub fn entry(&self) -> (r: &Entry)
        ensures
            r == &self.entry,
    {
        &self.entry
    }

    /// Similarity of two documents, in units of `1 / SIMILARITY_SCALE`.
    pub fn distance(&self, that: &Document) -> (r: u64)
        requires
            self.wf(),
            that.wf(),
        ensures
            r == similarity(*self, *that),
            r <= SIMILARITY_SCALE,
    {
        proof {
            lemma_similarity_range(*self, *that);
            lemma_dot_valid(self.vector@, that.vector@);
        }
        let cosine = distance(&self.vector, &that.vector);
        let p = penalty(&self.entry, &that.entry);
        let c: u64 = UNIT_COSINE + cosine;
        let q: u64 = PENALTY_SCALE - p;
        assert(c as int * q as int == similarity(*self, *that));
        c * q
    }
}

/// Absolute difference of two publish times.
pub open spec fn time_delta(a: int, b: int) -> int {
    if a >= b {
        a - b
    } else {
        b - a
    }
}

/// Time-decay part of the penalty, in units of `1 / PENALTY_SCALE`: with
/// `delta = |dt| / 1440`, nothing while `delta <= 2`, then
/// `min(0.1 * delta - 0.2, 0.5)`.
pub open spec fn time_penalty(dt: int) -> int {
    if dt > TIME_GRACE {
        if dt - TIME_GRACE < TIME_PENALTY_CAP {
            dt - TIME_GRACE
        } else {
            TIME_PENALTY_CAP as int
        }
    } else {
        0
    }
}

/// Penalty of a pair of records, in units of `1 / PENALTY_SCALE`.
pub open spec fn penalty_of(a: Entry, b: Entry) -> int {
    (if a.source@ == b.source@ {
        SOURCE_PENALTY as int
    } else {
        0
    }) + time_penalty(time_delta(a.published as int, b.published as int))
}

/// `0.5 * (1 + cosine) * (1 - penalty)`, in units of `1 / SIMILARITY_SCALE`.
pub open spec fn similarity(a: Document, b: Document) -> int {
    (UNIT_COSINE + dot(a.vector@, b.vector@)) * (PENALTY_SCALE - penalty_of(a.entry, b.entry))
}

pub proof fn lemma_penalty_range(a: Entry, b: Entry)
    ensures
        0 <= penalty_of(a, b) <= SOURCE_PENALTY + TIME_PENALTY_CAP,
        penalty_of(a, b) < PENALTY_SCALE,
{
}

/// The penalty is symmetric.
pub proof fn lemma_penalty_symmetric(a: Entry, b: Entry)
    ensures
        penalty_of(a, b) == penalty_of(b, a),
{
}

/// The similarity of two valid documents lies in `[0, 1]`.
pub proof fn lemma_similarity_range(a: Document, b: Document)
    requires
        a.wf(),
        b.wf(),
    ensures
        SIMILARITY_SCALE == 2 * UNIT_COSINE * PENALTY_SCALE,
        0 <= similarity(a, b) <= SIMILARITY_SCALE,
{
    lemma_dot_valid(a.vector@, b.vector@);
    lemma_penalty_range(a.entry, b.entry);
    let c = UNIT_COSINE + dot(a.vector@, b.vector@);
    let q = PENALTY_SCALE - penalty_of(a.entry, b.entry);
    assert(0 <= c * q <= (2 * UNIT_COSINE) * PENALTY_SCALE) by (nonlinear_arith)
        requires
            0 <= c <= 2 * UNIT_COSINE,
            0 < q <= PENALTY_SCALE,
    ;
}

/// Similarity is symmetric.
pub proof fn lemma_similarity_symmetric(a: Document, b: Document)
    ensures
        similarity(a, b) == similarity(b, a),
{
    lemma_dot_symmetric(a.vector@, b.vector@);
    lemma_penalty_symmetric(a.entry, b.entry);
}

/// Two documents of the same feed published at the same time score exactly
/// 0.7 times what the same pair scores when the feeds differ: the same-source
/// penalty is 0.3 and nothing else changes.
pub proof fn lemma_same_source_penalty(a: Document, b: Document, c: Document)
    requires
        a.entry.source@ == b.entry.source@,
        c.entry.source@ != b.entry.source@,
        a.entry.published == b.entry.published,
        c.entry.published == b.entry.published,
        a.vector@ == c.vector@,
    ensures
        penalty_of(a.entry, b.entry) == SOURCE_PENALTY,
        penalty_of(c.entry, b.entry) == 0,
        similarity(a, b) * PENALTY_SCALE == similarity(c, b) * (PENALTY_SCALE - SOURCE_PENALTY),
{
    let m = UNIT_COSINE + dot(a.vector@, b.vector@);
    assert(m * (PENALTY_SCALE - SOURCE_PENALTY) * PENALTY_SCALE == m * PENALTY_SCALE * (
    PENALTY_SCALE - SOURCE_PENALTY)) by (nonlinear_arith);
}

/// The time penalty is nothing while `delta = |dt| / 1440` is at most 2, never
/// exceeds 0.5, and does not decrease as `|dt|` grows.
pub proof fn lemma_time_penalty(dt1: int, dt2: int)
    requires
        0 <= dt1 <= dt2,
    ensures
        dt1 <= TIME_GRACE ==> time_penalty(dt1) == 0,
        0 <= time_penalty(dt1) <= time_penalty(dt2) <= TIME_PENALTY_CAP,
        dt2 > TIME_GRACE ==> time_penalty(dt2) == if dt2 - TIME_GRACE < TIME_PENALTY_CAP {
            dt2 - TIME_GRACE
        } else {
            TIME_PENALTY_CAP as int
        },
{
}

/// Penalty of two records: 0.3 for a shared feed, plus the time decay.
fn penalty(lhs: &Entry, rhs: &Entry) -> (r: u64)
    ensures
        r == penalty_of(*lhs, *rhs),
        r < PENALTY_SCALE,
{
    let mut p: u64 = 0;
    if lhs.source == rhs.source {
        p = p + SOURCE_PENALTY;
    }
    let dt: i128 = if lhs.published >= rhs.published {
        lhs.published as i128 - rhs.published as i128
    } else {
        rhs.published as i128 - lhs.published as i128
    };
    if dt > TIME_GRACE as i128 {
        let over = dt - TIME_GRACE as i128;
        if over < TIME_PENALTY_CAP as i128 {
            p = p + over as u64;
        } else {
            p = p + TIME_PENALTY_CAP;
        }
    }
    p
}

} // verus!
