//! The full-text index itself: a collection of documents unique by
//! identifier, kept sorted so that query results come out in a
//! deterministic order (descending score, ties by ascending identifier).

use vstd::prelude::*;

use crate::docs::{
    DocModel, Document, ResultModel, SearchResult, score_of, result_of, make_result, score_doc,
};
use crate::text::{
    lex_lt, lemma_lex_total, lemma_lex_antisym, lemma_lex_trans, bytes_lt, bytes_eq,
};

verus! {

/// The models of a sequence of documents.
pub open spec fn doc_models(s: Seq<Document>) -> Seq<DocModel> {
    s.map_values(|d: Document| d@)
}

/// The models of a sequence of results.
pub open spec fn result_models(s: Seq<SearchResult>) -> Seq<ResultModel> {
    s.map_values(|r: SearchResult| r@)
}

/// Documents stand in strictly ascending identifier order; this also
/// makes every identifier unique.
pub open spec fn sorted_by_id(docs: Seq<DocModel>) -> bool {
    forall|i: int, j: int| 0 <= i < j < docs.len() ==> lex_lt(docs[i].id, docs[j].id)
}

/// Insert-or-replace by identifier, keeping ascending identifier order.
pub open spec fn seq_upsert(docs: Seq<DocModel>, d: DocModel) -> Seq<DocModel>
    decreases docs.len(),
{
    if docs.len() == 0 {
        seq![d]
    } else if lex_lt(d.id, docs[0].id) {
        seq![d] + docs
    } else if d.id == docs[0].id {
        seq![d] + docs.skip(1)
    } else {
        seq![docs[0]] + seq_upsert(docs.skip(1), d)
    }
}

/// Remove the first document carrying `id`; on a sorted sequence that is
/// the only one.
pub open spec fn seq_delete(docs: Seq<DocModel>, id: Seq<u8>) -> Seq<DocModel>
    decreases docs.len(),
{
    if docs.len() == 0 {
        docs
    } else if docs[0].id == id {
        docs.skip(1)
    } else {
        seq![docs[0]] + seq_delete(docs.skip(1), id)
    }
}

/// Some document carries `id`.
pub open spec fn has_id(docs: Seq<DocModel>, id: Seq<u8>) -> bool {
    exists|i: int| 0 <= i < docs.len() && docs[i].id == id
}

/// The results contributed, in document order, by the documents whose
/// score for `text` is exactly `sc`.
pub open spec fn hits(docs: Seq<DocModel>, text: Seq<u8>, sc: nat) -> Seq<ResultModel>
    decreases docs.len(),
{
    if docs.len() == 0 {
        Seq::<ResultModel>::empty()
    } else {
        (if score_of(docs[0], text) == sc {
            seq![result_of(docs[0], text)]
        } else {
            Seq::<ResultModel>::empty()
        }) + hits(docs.skip(1), text, sc)
    }
}

/// All matching documents ordered by descending score, ties by ascending
/// identifier (document order within one score bucket).
pub open spec fn ranked(docs: Seq<DocModel>, text: Seq<u8>) -> Seq<ResultModel> {
    hits(docs, text, 3) + hits(docs, text, 2) + hits(docs, text, 1)
}

/// What a query returns: nothing for an empty (malformed) query text,
/// otherwise the ranked matches cut down to `limit`.
pub open spec fn query_spec(docs: Seq<DocModel>, text: Seq<u8>, limit: nat) -> Seq<ResultModel> {
    if text.len() == 0 {
        Seq::<ResultModel>::empty()
    } else if ranked(docs, text).len() <= limit {
        ranked(docs, text)
    } else {
        ranked(docs, text).take(limit as int)
    }
}

/// Strict lexicographic order is transitive.
pub proof fn lemma_lex_lt_trans(a: Seq<u8>, b: Seq<u8>, c: Seq<u8>)
    requires
        lex_lt(a, b),
        lex_lt(b, c),
    ensures
        lex_lt(a, c),
{
    lemma_lex_trans(a, b, c);
    if a == c {
        lemma_lex_antisym(b, c);
    }
}

/// Exactly one of `a == b`, `a` strictly before `b`, `b` strictly before
/// `a` holds.
pub proof fn lemma_lex_trichotomy(a: Seq<u8>, b: Seq<u8>)
    ensures
        a != b ==> (lex_lt(a, b) <==> !lex_lt(b, a)),
{
    lemma_lex_total(a, b);
    if lex_lt(a, b) && lex_lt(b, a) {
        lemma_lex_antisym(a, b);
    }
}

/// A suffix of a sorted sequence is sorted.
pub proof fn lemma_sorted_skip(docs: Seq<DocModel>)
    requires
        sorted_by_id(docs),
        docs.len() > 0,
    ensures
        sorted_by_id(docs.skip(1)),
{
    assert forall|i: int, j: int|
        0 <= i < j < docs.skip(1).len() implies lex_lt(docs.skip(1)[i].id, docs.skip(1)[j].id) by {
        assert(docs.skip(1)[i] == docs[i + 1]);
        assert(docs.skip(1)[j] == docs[j + 1]);
    }
}

/// Where an in-order scan for `d.id` stops determines `seq_upsert`
/// outright: the new document stands at the stop position, replacing the
/// resident one when the identifiers are equal.
pub proof fn lemma_upsert_split(docs: Seq<DocModel>, d: DocModel, pos: int)
    requires
        sorted_by_id(docs),
        0 <= pos <= docs.len(),
        forall|k: int| 0 <= k < pos ==> lex_lt(docs[k].id, d.id),
        pos < docs.len() ==> !lex_lt(docs[pos].id, d.id),
    ensures
        pos < docs.len() && docs[pos].id == d.id ==> seq_upsert(docs, d) == docs.take(pos).push(d)
            + docs.skip(pos + 1),
        !(pos < docs.len() && docs[pos].id == d.id) ==> seq_upsert(docs, d) == docs.take(
            pos,
        ).push(d) + docs.skip(pos),
    decreases pos,
{
    if pos == 0 {
        if docs.len() == 0 {
            assert(seq_upsert(docs, d) =~= docs.take(0).push(d) + docs.skip(0));
        } else if docs[0].id == d.id {
            assert(seq_upsert(docs, d) == seq![d] + docs.skip(1));
            assert(seq![d] + docs.skip(1) =~= docs.take(0).push(d) + docs.skip(1));
        } else {
            lemma_lex_trichotomy(docs[0].id, d.id);
            assert(lex_lt(d.id, docs[0].id));
            assert(seq_upsert(docs, d) == seq![d] + docs);
            assert(seq![d] + docs =~= docs.take(0).push(d) + docs.skip(0));
        }
    } else {
        assert(lex_lt(docs[0].id, d.id));
        lemma_lex_trichotomy(docs[0].id, d.id);
        assert(!lex_lt(d.id, docs[0].id));
        assert(d.id != docs[0].id);
        assert(seq_upsert(docs, d) == seq![docs[0]] + seq_upsert(docs.skip(1), d));
        lemma_sorted_skip(docs);
        let tail = docs.skip(1);
        assert forall|k: int| 0 <= k < pos - 1 implies lex_lt(tail[k].id, d.id) by {
            assert(tail[k] == docs[k + 1]);
        }
        assert(pos - 1 < tail.len() ==> tail[pos - 1] == docs[pos]);
        lemma_upsert_split(tail, d, pos - 1);
        if pos < docs.len() && docs[pos].id == d.id {
            assert(seq![docs[0]] + (tail.take(pos - 1).push(d) + tail.skip(pos)) =~= docs.take(
                pos,
            ).push(d) + docs.skip(pos + 1));
        } else {
            assert(seq![docs[0]] + (tail.take(pos - 1).push(d) + tail.skip(pos - 1)) =~= docs.take(
                pos,
            ).push(d) + docs.skip(pos));
        }
    }
}

/// Insert-or-replace keeps the ascending identifier order.
pub proof fn lemma_upsert_sorted(docs: Seq<DocModel>, d: DocModel, pos: int)
    requires
        sorted_by_id(docs),
        0 <= pos <= docs.len(),
        forall|k: int| 0 <= k < pos ==> lex_lt(docs[k].id, d.id),
        pos < docs.len() ==> !lex_lt(docs[pos].id, d.id),
    ensures
        sorted_by_id(seq_upsert(docs, d)),
{
    lemma_upsert_split(docs, d, pos);
    let r = seq_upsert(docs, d);
    if pos < docs.len() && docs[pos].id == d.id {
        assert forall|i: int, j: int| 0 <= i < j < r.len() implies lex_lt(r[i].id, r[j].id) by {
            if i < pos {
                assert(r[i] == docs[i]);
            } else if i == pos {
                assert(r[i] == d);
            } else {
                assert(r[i] == docs[i]);
            }
            if j < pos {
                assert(r[j] == docs[j]);
            } else if j == pos {
                assert(r[j] == d);
            } else {
                assert(r[j] == docs[j]);
            }
            if i == pos && j > pos {
                assert(lex_lt(docs[pos].id, docs[j].id));
            }
            if i < pos && j == pos {
                assert(lex_lt(docs[i].id, d.id));
            }
        }
    } else {
        lemma_lex_trichotomy(if pos < docs.len() {
            docs[pos].id
        } else {
            d.id
        }, d.id);
        assert(pos < docs.len() ==> lex_lt(d.id, docs[pos].id));
        assert forall|i: int, j: int| 0 <= i < j < r.len() implies lex_lt(r[i].id, r[j].id) by {
            if i == pos && j > pos {
                assert(r[i] == d);
                assert(r[j] == docs[j - 1]);
                assert(lex_lt(d.id, docs[pos].id));
                if j - 1 > pos {
                    lemma_lex_lt_trans(d.id, docs[pos].id, docs[j - 1].id);
                }
            } else {
                if i < pos {
                    assert(r[i] == docs[i]);
                } else if i > pos {
                    assert(r[i] == docs[i - 1]);
                }
                if j < pos {
                    assert(r[j] == docs[j]);
                } else if j == pos {
                    assert(r[j] == d);
                } else {
                    assert(r[j] == docs[j - 1]);
                }
            }
        }
    }
}

/// Removing an identifier that no document carries changes nothing.
pub proof fn lemma_delete_not_found(docs: Seq<DocModel>, id: Seq<u8>)
    requires
        !has_id(docs, id),
    ensures
        seq_delete(docs, id) == docs,
    decreases docs.len(),
{
    if docs.len() > 0 {
        assert(docs[0].id != id);
        assert forall|i: int| 0 <= i < docs.skip(1).len() implies docs.skip(1)[i].id != id by {
            assert(docs.skip(1)[i] == docs[i + 1]);
        }
        lemma_delete_not_found(docs.skip(1), id);
        assert(seq![docs[0]] + docs.skip(1) =~= docs);
    }
}

/// Where an in-order scan finds `id`, `seq_delete` removes exactly that
/// document.
pub proof fn lemma_delete_found(docs: Seq<DocModel>, id: Seq<u8>, pos: int)
    requires
        sorted_by_id(docs),
        0 <= pos < docs.len(),
        docs[pos].id == id,
        forall|k: int| 0 <= k < pos ==> lex_lt(docs[k].id, id),
    ensures
        seq_delete(docs, id) == docs.take(pos) + docs.skip(pos + 1),
    decreases pos,
{
    if pos == 0 {
        assert(seq_delete(docs, id) == docs.skip(1));
        assert(docs.skip(1) =~= docs.take(0) + docs.skip(1));
    } else {
        assert(lex_lt(docs[0].id, id));
        assert(docs[0].id != id);
        lemma_sorted_skip(docs);
        let tail = docs.skip(1);
        assert(tail[pos - 1] == docs[pos]);
        assert forall|k: int| 0 <= k < pos - 1 implies lex_lt(tail[k].id, id) by {
            assert(tail[k] == docs[k + 1]);
        }
        lemma_delete_found(tail, id, pos - 1);
        assert(seq![docs[0]] + (tail.take(pos - 1) + tail.skip(pos)) =~= docs.take(pos) + docs.skip(
            pos + 1,
        ));
    }
}

/// If an in-order scan passes `id` without finding it, no document
/// carries it.
pub proof fn lemma_scan_absent(docs: Seq<DocModel>, id: Seq<u8>, pos: int)
    requires
        sorted_by_id(docs),
        0 <= pos <= docs.len(),
        forall|k: int| 0 <= k < pos ==> lex_lt(docs[k].id, id),
        pos < docs.len() ==> !lex_lt(docs[pos].id, id),
        pos < docs.len() ==> docs[pos].id != id,
    ensures
        !has_id(docs, id),
{
    assert forall|i: int| 0 <= i < docs.len() implies docs[i].id != id by {
        if i < pos {
            assert(lex_lt(docs[i].id, id));
        } else {
            lemma_lex_trichotomy(docs[pos].id, id);
            assert(lex_lt(id, docs[pos].id));
            if i > pos {
                lemma_lex_lt_trans(id, docs[pos].id, docs[i].id);
            }
        }
    }
}

/// The search index: documents unique by identifier, held in ascending
/// identifier order. Only the index actor touches a value of this type.
pub struct Index {
    docs: Vec<Document>,
}

impl View for Index {
    type V = Seq<DocModel>;

    closed spec fn view(&self) -> Seq<DocModel> {
        doc_models(self.docs@)
    }
}

/// The first position whose identifier is not strictly below `id`; on a
/// sorted sequence, where `id` itself would stand.
fn find_ge(docs: &Vec<Document>, id: &[u8]) -> (pos: usize)
    ensures
        pos <= docs@.len(),
        forall|k: int| 0 <= k < pos ==> lex_lt(doc_models(docs@)[k].id, id@),
        pos < docs@.len() ==> !lex_lt(doc_models(docs@)[pos as int].id, id@),
{
    let n = docs.len();
    let mut pos: usize = 0;
    loop
        invariant
            pos <= n,
            n == docs@.len(),
            forall|k: int| 0 <= k < pos ==> lex_lt(doc_models(docs@)[k].id, id@),
        decreases n - pos,
    {
        if pos == n {
            return pos;
        }
        if !bytes_lt(docs[pos].id.as_slice(), id) {
            return pos;
        }
        pos = pos + 1;
    }
}

impl Index {
    /// Well-formed: strictly ascending identifier order.
    pub open spec fn wf(&self) -> bool {
        sorted_by_id(self@)
    }

    /// An empty index, as created at process start.
    pub fn new() -> (r: Index)
        ensures
            r.wf(),
            r@ == Seq::<DocModel>::empty(),
    {
        proof {
            assert(doc_models(Seq::<Document>::empty()) =~= Seq::<DocModel>::empty());
        }
        Index { docs: Vec::new() }
    }

    /// How many documents the index holds.
    pub fn len(&self) -> (n: usize)
        ensures
            n == self@.len(),
    {
        self.docs.len()
    }

    /// Insert `d`, replacing any resident document with the same
    /// identifier.
    pub fn upsert(&mut self, d: Document)
        requires
            old(self).wf(),
        ensures
            final(self).wf(),
            final(self)@ == seq_upsert(old(self)@, d@),
    {
        let ghost m0 = self@;
        let pos = find_ge(&self.docs, d.id.as_slice());
        proof {
            lemma_upsert_split(m0, d@, pos as int);
            lemma_upsert_sorted(m0, d@, pos as int);
        }
        if pos < self.docs.len() && bytes_eq(self.docs[pos].id.as_slice(), d.id.as_slice()) {
            self.docs.remove(pos);
            self.docs.insert(pos, d);
            proof {
                assert(self@ =~= m0.take(pos as int).push(d@) + m0.skip(pos as int + 1));
            }
        } else {
            self.docs.insert(pos, d);
            proof {
                assert(self@ =~= m0.take(pos as int).push(d@) + m0.skip(pos as int));
            }
        }
    }

    /// Remove the document carrying `id`, if any; removing an absent
    /// identifier is a no-op.
    pub fn delete(&mut self, id: &[u8])
        requires
            old(self).wf(),
        ensures
            final(self).wf(),
            final(self)@ == seq_delete(old(self)@, id@),
    {
        let ghost m0 = self@;
        let pos = find_ge(&self.docs, id);
        if pos < self.docs.len() && bytes_eq(self.docs[pos].id.as_slice(), id) {
            self.docs.remove(pos);
            proof {
                lemma_delete_found(m0, id@, pos as int);
                assert(self@ =~= m0.take(pos as int) + m0.skip(pos as int + 1));
                assert forall|i: int, j: int|
                    0 <= i < j < self@.len() implies lex_lt(self@[i].id, self@[j].id) by {
                    if i < pos {
                        assert(self@[i] == m0[i]);
                    } else {
                        assert(self@[i] == m0[i + 1]);
                    }
                    if j < pos {
                        assert(self@[j] == m0[j]);
                    } else {
                        assert(self@[j] == m0[j + 1]);
                    }
                }
            }
        } else {
            proof {
                lemma_scan_absent(m0, id@, pos as int);
                lemma_delete_not_found(m0, id@);
            }
        }
    }

    /// Search the current index state: up to `limit` results, ordered by
    /// descending score, ties by ascending identifier. An empty query
    /// text yields no results.
    pub fn query(&self, text: &[u8], limit: usize) -> (r: Vec<SearchResult>)
        requires
            self.wf(),
        ensures
            result_models(r@) == query_spec(self@, text@, limit as nat),
    {
        let mut out: Vec<SearchResult> = Vec::new();
        if text.len() == 0 {
            proof {
                assert(result_models(out@) =~= query_spec(self@, text@, limit as nat));
            }
            return out;
        }
        self.collect_hits(text, 3, &mut out);
        self.collect_hits(text, 2, &mut out);
        self.collect_hits(text, 1, &mut out);
        proof {
            assert(result_models(out@) =~= ranked(self@, text@));
        }
        if out.len() > limit {
            out.truncate(limit);
            proof {
                assert(result_models(out@) =~= ranked(self@, text@).take(limit as int));
            }
        }
        out
    }

    /// Append, in document order, the results of the documents scoring
    /// exactly `sc` for `text`.
    fn collect_hits(&self, text: &[u8], sc: u64, out: &mut Vec<SearchResult>)
        ensures
            result_models(final(out)@) == result_models(old(out)@) + hits(
                self@,
                text@,
                sc as nat,
            ),
    {
        let ghost base = result_models(old(out)@);
        let n = self.docs.len();
        let mut i: usize = 0;
        proof {
            assert(self@.take(0) =~= Seq::<DocModel>::empty());
            assert(result_models(out@) =~= base + hits(self@.take(0), text@, sc as nat));
        }
        while i < n
            invariant
                i <= n,
                n == self.docs@.len(),
                result_models(out@) == base + hits(self@.take(i as int), text@, sc as nat),
            decreases n - i,
        {
            let s = score_doc(&self.docs[i], text);
            if s == sc {
                let r = make_result(&self.docs[i], text);
                out.push(r);
            }
            proof {
                assert(self@.take(i + 1) =~= self@.take(i as int).push(self@[i as int]));
                lemma_hits_push(self@.take(i as int), self@[i as int], text@, sc as nat);
                if s == sc {
                    assert(result_models(out@) =~= (base + hits(
                        self@.take(i as int),
                        text@,
                        sc as nat,
                    )).push(result_of(self@[i as int], text@)));
                    assert(result_models(out@) =~= base + hits(self@.take(i + 1), text@, sc as nat));
                } else {
                    assert(hits(self@.take(i + 1), text@, sc as nat) =~= hits(
                        self@.take(i as int),
                        text@,
                        sc as nat,
                    ));
                }
            }
            i = i + 1;
        }
        proof {
            assert(self@.take(n as int) =~= self@);
        }
    }
}

/// Appending a document extends each score bucket by that document's
/// contribution.
pub proof fn lemma_hits_push(docs: Seq<DocModel>, d: DocModel, text: Seq<u8>, sc: nat)
    ensures
        hits(docs.push(d), text, sc) == hits(docs, text, sc) + (if score_of(d, text) == sc {
            seq![result_of(d, text)]
        } else {
            Seq::<ResultModel>::empty()
        }),
    decreases docs.len(),
{
    let step = if score_of(d, text) == sc {
        seq![result_of(d, text)]
    } else {
        Seq::<ResultModel>::empty()
    };
    if docs.len() == 0 {
        assert(docs.push(d)[0] == d);
        assert(docs.push(d).skip(1) =~= Seq::<DocModel>::empty());
        assert(hits(docs.push(d).skip(1), text, sc) =~= Seq::<ResultModel>::empty());
        assert(hits(docs, text, sc) =~= Seq::<ResultModel>::empty());
        assert(hits(docs.push(d), text, sc) == step + hits(docs.push(d).skip(1), text, sc));
        assert(hits(docs.push(d), text, sc) =~= hits(docs, text, sc) + step);
    } else {
        let head0 = if score_of(docs[0], text) == sc {
            seq![result_of(docs[0], text)]
        } else {
            Seq::<ResultModel>::empty()
        };
        assert(docs.push(d)[0] == docs[0]);
        assert(docs.push(d).skip(1) =~= docs.skip(1).push(d));
        assert(hits(docs.push(d), text, sc) == head0 + hits(docs.skip(1).push(d), text, sc));
        lemma_hits_push(docs.skip(1), d, text, sc);
        assert(hits(docs, text, sc) == head0 + hits(docs.skip(1), text, sc));
        assert(head0 + (hits(docs.skip(1), text, sc) + step) =~= (head0 + hits(
            docs.skip(1),
            text,
            sc,
        )) + step);
    }
}

/// Applying the same upsert twice leaves exactly the state one
/// application leaves, so a later query returns the same results.
pub proof fn lemma_upsert_idempotent(docs: Seq<DocModel>, d: DocModel)
    ensures
        seq_upsert(seq_upsert(docs, d), d) == seq_upsert(docs, d),
    decreases docs.len(),
{
    let once = seq_upsert(docs, d);
    if docs.len() == 0 {
        assert(once == seq![d]);
        assert(once[0] == d);
        assert(seq_upsert(once, d) == seq![d] + once.skip(1));
        assert(seq![d] + once.skip(1) =~= once);
    } else if lex_lt(d.id, docs[0].id) {
        assert(once == seq![d] + docs);
        assert(once[0] == d);
        assert(seq_upsert(once, d) == seq![d] + once.skip(1));
        assert(seq![d] + once.skip(1) =~= once);
    } else if d.id == docs[0].id {
        assert(once == seq![d] + docs.skip(1));
        assert(once[0] == d);
        assert(seq_upsert(once, d) == seq![d] + once.skip(1));
        assert(seq![d] + once.skip(1) =~= once);
    } else {
        lemma_lex_trichotomy(docs[0].id, d.id);
        assert(lex_lt(docs[0].id, d.id));
        let inner = seq_upsert(docs.skip(1), d);
        assert(once == seq![docs[0]] + inner);
        assert(once[0] == docs[0]);
        assert(once.len() > 0);
        assert(seq_upsert(once, d) == seq![once[0]] + seq_upsert(once.skip(1), d));
        assert(once.skip(1) =~= inner);
        lemma_upsert_idempotent(docs.skip(1), d);
        assert(seq![docs[0]] + seq_upsert(inner, d) =~= once);
    }
}

/// After a removal no document carries the removed identifier.
pub proof fn lemma_delete_removes(docs: Seq<DocModel>, id: Seq<u8>)
    requires
        sorted_by_id(docs),
    ensures
        !has_id(seq_delete(docs, id), id),
    decreases docs.len(),
{
    if docs.len() > 0 {
        lemma_sorted_skip(docs);
        if docs[0].id == id {
            let r = docs.skip(1);
            assert forall|i: int| 0 <= i < r.len() implies r[i].id != id by {
                assert(r[i] == docs[i + 1]);
                assert(lex_lt(docs[0].id, docs[i + 1].id));
            }
        } else {
            lemma_delete_removes(docs.skip(1), id);
            let r = seq![docs[0]] + seq_delete(docs.skip(1), id);
            assert forall|i: int| 0 <= i < r.len() implies r[i].id != id by {
                if i > 0 {
                    assert(r[i] == seq_delete(docs.skip(1), id)[i - 1]);
                }
            }
        }
    }
}

/// Every entry of a score bucket carries the identifier of some
/// document in the sequence.
pub proof fn lemma_hits_source(docs: Seq<DocModel>, text: Seq<u8>, sc: nat)
    ensures
        forall|j: int|
            0 <= j < hits(docs, text, sc).len() ==> has_id(
                docs,
                #[trigger] hits(docs, text, sc)[j].id,
            ),
    decreases docs.len(),
{
    if docs.len() == 0 {
        assert(hits(docs, text, sc).len() == 0);
    } else {
        lemma_hits_source(docs.skip(1), text, sc);
        let head_len: int = if score_of(docs[0], text) == sc {
            1
        } else {
            0
        };
        let h = hits(docs, text, sc);
        let tail = hits(docs.skip(1), text, sc);
        assert forall|j: int|
            0 <= j < hits(docs, text, sc).len() implies has_id(
            docs,
            #[trigger] hits(docs, text, sc)[j].id,
        ) by {
            if j < head_len {
                assert(h[j] == result_of(docs[0], text));
                assert(docs[0].id == h[j].id);
            } else {
                assert(h[j] == tail[j - head_len]);
                assert(has_id(docs.skip(1), tail[j - head_len].id));
                let i0 = choose|i0: int|
                    0 <= i0 < docs.skip(1).len() && docs.skip(1)[i0].id == tail[j - head_len].id;
                assert(docs[i0 + 1].id == h[j].id);
            }
        }
    }
}

/// A document whose score is the bucket's appears in that bucket.
pub proof fn lemma_hits_member(docs: Seq<DocModel>, text: Seq<u8>, sc: nat, i: int)
    requires
        0 <= i < docs.len(),
        score_of(docs[i], text) == sc,
    ensures
        hits(docs, text, sc).contains(result_of(docs[i], text)),
    decreases i,
{
    if i == 0 {
        assert(hits(docs, text, sc)[0] == result_of(docs[0], text));
    } else {
        assert(docs.skip(1)[i - 1] == docs[i]);
        lemma_hits_member(docs.skip(1), text, sc, i - 1);
        let tail = hits(docs.skip(1), text, sc);
        let j = choose|j: int| 0 <= j < tail.len() && tail[j] == result_of(docs[i], text);
        let head_len: int = if score_of(docs[0], text) == sc {
            1
        } else {
            0
        };
        assert(hits(docs, text, sc)[head_len + j] == result_of(docs[i], text));
    }
}

/// There are never more ranked matches than documents: each document
/// lands in at most one score bucket.
pub proof fn lemma_ranked_len(docs: Seq<DocModel>, text: Seq<u8>)
    ensures
        ranked(docs, text).len() <= docs.len(),
    decreases docs.len(),
{
    if docs.len() > 0 {
        lemma_ranked_len(docs.skip(1), text);
    }
}

/// No query run after removing an identifier returns a result carrying
/// it, whatever was indexed before.
pub proof fn lemma_query_excludes_deleted(
    docs: Seq<DocModel>,
    id: Seq<u8>,
    text: Seq<u8>,
    limit: nat,
)
    requires
        sorted_by_id(docs),
    ensures
        forall|j: int|
            0 <= j < query_spec(seq_delete(docs, id), text, limit).len() ==> #[trigger] query_spec(
                seq_delete(docs, id),
                text,
                limit,
            )[j].id != id,
{
    let del = seq_delete(docs, id);
    lemma_delete_removes(docs, id);
    lemma_hits_source(del, text, 3);
    lemma_hits_source(del, text, 2);
    lemma_hits_source(del, text, 1);
    let q = query_spec(del, text, limit);
    assert forall|j: int|
        0 <= j < query_spec(seq_delete(docs, id), text, limit).len() implies query_spec(
        seq_delete(docs, id),
        text,
        limit,
    )[j].id != id by {
        if text.len() != 0 {
            let all = ranked(del, text);
            assert(q[j] == all[j]);
            let h3 = hits(del, text, 3);
            let h2 = hits(del, text, 2);
            let h1 = hits(del, text, 1);
            if j < h3.len() {
                assert(all[j] == h3[j]);
                assert(has_id(del, h3[j].id));
            } else if j < h3.len() + h2.len() {
                assert(all[j] == h2[j - h3.len()]);
                assert(has_id(del, h2[j - h3.len()].id));
            } else {
                assert(all[j] == h1[j - h3.len() - h2.len()]);
                assert(has_id(del, h1[j - h3.len() - h2.len()].id));
            }
            assert(has_id(del, q[j].id));
            let i0 = choose|i0: int| 0 <= i0 < del.len() && del[i0].id == q[j].id;
            assert(del[i0].id != id);
        }
    }
}

/// A query generous enough in its limit returns a result for every
/// matching document: nothing indexed is lost.
pub proof fn lemma_query_finds_match(docs: Seq<DocModel>, text: Seq<u8>, limit: nat, i: int)
    requires
        text.len() > 0,
        limit >= docs.len(),
        0 <= i < docs.len(),
        score_of(docs[i], text) > 0,
    ensures
        query_spec(docs, text, limit).contains(result_of(docs[i], text)),
{
    let sc = score_of(docs[i], text);
    assert(sc <= 3);
    lemma_hits_member(docs, text, sc, i);
    lemma_ranked_len(docs, text);
    let h3 = hits(docs, text, 3);
    let h2 = hits(docs, text, 2);
    let h1 = hits(docs, text, 1);
    let all = ranked(docs, text);
    let r = result_of(docs[i], text);
    if sc == 3 {
        let j = choose|j: int| 0 <= j < h3.len() && h3[j] == r;
        assert(all[j] == r);
    } else if sc == 2 {
        let j = choose|j: int| 0 <= j < h2.len() && h2[j] == r;
        assert(all[h3.len() + j] == r);
    } else {
        let j = choose|j: int| 0 <= j < h1.len() && h1[j] == r;
        assert(all[h3.len() + h2.len() + j] == r);
    }
    assert(query_spec(docs, text, limit) == all);
    assert(all.contains(r));
}

/// `x` comes strictly before every identifier in `docs`.
pub open spec fn lt_all(x: Seq<u8>, docs: Seq<DocModel>) -> bool {
    forall|i: int| 0 <= i < docs.len() ==> lex_lt(x, #[trigger] docs[i].id)
}

proof fn lemma_upsert_lt_all(x: Seq<u8>, docs: Seq<DocModel>, d: DocModel)
    requires
        lt_all(x, docs),
        lex_lt(x, d.id),
    ensures
        lt_all(x, seq_upsert(docs, d)),
    decreases docs.len(),
{
    if docs.len() == 0 {
        assert(seq_upsert(docs, d) == seq![d]);
    } else if lex_lt(d.id, docs[0].id) {
        assert forall|i: int|
            0 <= i < seq_upsert(docs, d).len() implies lex_lt(
            x,
            #[trigger] seq_upsert(docs, d)[i].id,
        ) by {
            if i > 0 {
                assert(seq_upsert(docs, d)[i] == docs[i - 1]);
            }
        }
    } else if d.id == docs[0].id {
        assert forall|i: int|
            0 <= i < seq_upsert(docs, d).len() implies lex_lt(
            x,
            #[trigger] seq_upsert(docs, d)[i].id,
        ) by {
            if i > 0 {
                assert(seq_upsert(docs, d)[i] == docs.skip(1)[i - 1]);
                assert(docs.skip(1)[i - 1] == docs[i]);
            }
        }
    } else {
        assert forall|i: int|
            0 <= i < docs.skip(1).len() implies lex_lt(x, #[trigger] docs.skip(1)[i].id) by {
            assert(docs.skip(1)[i] == docs[i + 1]);
        }
        lemma_upsert_lt_all(x, docs.skip(1), d);
        assert forall|i: int|
            0 <= i < seq_upsert(docs, d).len() implies lex_lt(
            x,
            #[trigger] seq_upsert(docs, d)[i].id,
        ) by {
            if i > 0 {
                assert(seq_upsert(docs, d)[i] == seq_upsert(docs.skip(1), d)[i - 1]);
            }
        }
    }
}

/// Insert-or-replace keeps the ascending identifier order, wherever the
/// new document lands.
pub proof fn lemma_upsert_sorted_any(docs: Seq<DocModel>, d: DocModel)
    requires
        sorted_by_id(docs),
    ensures
        sorted_by_id(seq_upsert(docs, d)),
    decreases docs.len(),
{
    if docs.len() == 0 {
    } else if lex_lt(d.id, docs[0].id) {
        let r = seq![d] + docs;
        assert forall|i: int, j: int| 0 <= i < j < r.len() implies lex_lt(r[i].id, r[j].id) by {
            if i == 0 {
                assert(r[j] == docs[j - 1]);
                if j > 1 {
                    lemma_lex_lt_trans(d.id, docs[0].id, docs[j - 1].id);
                }
            } else {
                assert(r[i] == docs[i - 1]);
                assert(r[j] == docs[j - 1]);
            }
        }
    } else if d.id == docs[0].id {
        let r = seq![d] + docs.skip(1);
        lemma_sorted_skip(docs);
        assert forall|i: int, j: int| 0 <= i < j < r.len() implies lex_lt(r[i].id, r[j].id) by {
            if i == 0 {
                assert(r[j] == docs.skip(1)[j - 1]);
                assert(docs.skip(1)[j - 1] == docs[j]);
                assert(lex_lt(docs[0].id, docs[j].id));
            } else {
                assert(r[i] == docs.skip(1)[i - 1]);
                assert(r[j] == docs.skip(1)[j - 1]);
            }
        }
    } else {
        lemma_lex_trichotomy(docs[0].id, d.id);
        assert(lex_lt(docs[0].id, d.id));
        lemma_sorted_skip(docs);
        lemma_upsert_sorted_any(docs.skip(1), d);
        assert forall|i: int|
            0 <= i < docs.skip(1).len() implies lex_lt(docs[0].id, #[trigger] docs.skip(1)[i].id) by {
            assert(docs.skip(1)[i] == docs[i + 1]);
        }
        lemma_upsert_lt_all(docs[0].id, docs.skip(1), d);
        let inner = seq_upsert(docs.skip(1), d);
        let r = seq![docs[0]] + inner;
        assert forall|i: int, j: int| 0 <= i < j < r.len() implies lex_lt(r[i].id, r[j].id) by {
            if i == 0 {
                assert(r[j] == inner[j - 1]);
                assert(lex_lt(docs[0].id, inner[j - 1].id));
            } else {
                assert(r[i] == inner[i - 1]);
                assert(r[j] == inner[j - 1]);
            }
        }
    }
}

proof fn lemma_delete_lt_all(x: Seq<u8>, docs: Seq<DocModel>, id: Seq<u8>)
    requires
        lt_all(x, docs),
    ensures
        lt_all(x, seq_delete(docs, id)),
    decreases docs.len(),
{
    if docs.len() > 0 {
        assert forall|i: int|
            0 <= i < docs.skip(1).len() implies lex_lt(x, #[trigger] docs.skip(1)[i].id) by {
            assert(docs.skip(1)[i] == docs[i + 1]);
        }
        if docs[0].id == id {
        } else {
            lemma_delete_lt_all(x, docs.skip(1), id);
            let r = seq![docs[0]] + seq_delete(docs.skip(1), id);
            assert forall|i: int| 0 <= i < r.len() implies lex_lt(x, #[trigger] r[i].id) by {
                if i > 0 {
                    assert(r[i] == seq_delete(docs.skip(1), id)[i - 1]);
                }
            }
        }
    }
}

/// Removal keeps the ascending identifier order.
pub proof fn lemma_delete_sorted_any(docs: Seq<DocModel>, id: Seq<u8>)
    requires
        sorted_by_id(docs),
    ensures
        sorted_by_id(seq_delete(docs, id)),
    decreases docs.len(),
{
    if docs.len() > 0 {
        lemma_sorted_skip(docs);
        if docs[0].id == id {
        } else {
            lemma_delete_sorted_any(docs.skip(1), id);
            assert forall|i: int|
                0 <= i < docs.skip(1).len() implies lex_lt(
                docs[0].id,
                #[trigger] docs.skip(1)[i].id,
            ) by {
                assert(docs.skip(1)[i] == docs[i + 1]);
            }
            lemma_delete_lt_all(docs[0].id, docs.skip(1), id);
            let inner = seq_delete(docs.skip(1), id);
            let r = seq![docs[0]] + inner;
            assert forall|i: int, j: int|
                0 <= i < j < r.len() implies lex_lt(r[i].id, r[j].id) by {
                if i == 0 {
                    assert(r[j] == inner[j - 1]);
                    assert(lex_lt(docs[0].id, inner[j - 1].id));
                } else {
                    assert(r[i] == inner[i - 1]);
                    assert(r[j] == inner[j - 1]);
                }
            }
        }
    }
}

} // verus!
