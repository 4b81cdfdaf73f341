//! Records passed across the index boundary: documents submitted for
//! indexing and the results a query hands back.

use vstd::prelude::*;

use crate::text::{contains_sub, contains_bytes};

verus! {

/// Mathematical model of a document: its identifier and text fields as
/// byte sequences.
pub ghost struct DocModel {
    pub id: Seq<u8>,
    pub title: Seq<u8>,
    pub body: Seq<u8>,
}

/// A document submitted for indexing: a stable identifier unique per
/// indexed entity, plus the text fields used for full-text matching,
/// all UTF-8 byte strings.
pub struct Document {
    pub id: Vec<u8>,
    pub title: Vec<u8>,
    pub body: Vec<u8>,
}

impl View for Document {
    type V = DocModel;

    open spec fn view(&self) -> DocModel {
        DocModel { id: self.id@, title: self.title@, body: self.body@ }
    }
}

impl Document {
    pub fn new(id: Vec<u8>, title: Vec<u8>, body: Vec<u8>) -> (d: Document)
        ensures
            d@ == (DocModel { id: id@, title: title@, body: body@ }),
    {
        Document { id, title, body }
    }
}

/// Mathematical model of one query hit.
pub ghost struct ResultModel {
    pub id: Seq<u8>,
    pub title: Seq<u8>,
    pub excerpt: Seq<u8>,
    pub score: nat,
}

/// One query hit: identifier, ranking score (higher is more relevant),
/// and the display fields needed to render a result line.
pub struct SearchResult {
    pub id: Vec<u8>,
    pub title: Vec<u8>,
    pub excerpt: Vec<u8>,
    pub score: u64,
}

impl View for SearchResult {
    type V = ResultModel;

    open spec fn view(&self) -> ResultModel {
        ResultModel {
            id: self.id@,
            title: self.title@,
            excerpt: self.excerpt@,
            score: self.score as nat,
        }
    }
}

/// Relevance of a document to a query: a title hit counts double a body
/// hit, so the score is 0 (no match) up to 3 (both fields match).
pub open spec fn score_of(d: DocModel, text: Seq<u8>) -> nat {
    (if contains_sub(d.title, text) {
        2nat
    } else {
        0nat
    }) + (if contains_sub(d.body, text) {
        1nat
    } else {
        0nat
    })
}

/// The result record a matching document contributes: the whole body
/// stands as the excerpt.
pub open spec fn result_of(d: DocModel, text: Seq<u8>) -> ResultModel {
    ResultModel { id: d.id, title: d.title, excerpt: d.body, score: score_of(d, text) }
}

/// Computes the relevance score of one document for a query.
pub fn score_doc(d: &Document, text: &[u8]) -> (s: u64)
    ensures
        s == score_of(d@, text@),
{
    let mut s: u64 = 0;
    if contains_bytes(d.title.as_slice(), text) {
        s = s + 2;
    }
    if contains_bytes(d.body.as_slice(), text) {
        s = s + 1;
    }
    s
}

/// Builds the result record for a matching document.
pub fn make_result(d: &Document, text: &[u8]) -> (r: SearchResult)
    ensures
        r@ == result_of(d@, text@),
{
    let score = score_doc(d, text);
    SearchResult {
        id: clone_bytes(&d.id),
        title: clone_bytes(&d.title),
        excerpt: clone_bytes(&d.body),
        score,
    }
}

/// Copies a byte vector.
pub fn clone_bytes(v: &Vec<u8>) -> (r: Vec<u8>)
    ensures
        r@ == v@,
{
    let mut r: Vec<u8> = Vec::new();
    let n = v.len();
    let mut i: usize = 0;
    while i < n
        invariant
            i <= n,
            n == v@.len(),
            r@ == v@.take(i as int),
        decreases n - i,
    {
        r.push(v[i]);
        proof {
            assert(r@ =~= v@.take(i + 1));
        }
        i = i + 1;
    }
    proof {
        assert(v@.take(n as int) =~= v@);
    }
    r
}

} // verus!
