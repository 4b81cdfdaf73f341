//! The gateway request handlers talk to: submits commands to the index
//! actor and, for queries, retrieves exactly the result produced for
//! that query. Correlation goes through per-call tokens and a reply
//! bank, so no caller can receive another caller's answer.

use vstd::prelude::*;

use crate::actor::{
    CmdModel, IndexActor, IndexCommand, Reply, ReplyModel, apply_cmds, cmd_models,
    has_query_token, is_query, lemma_apply_snoc, lemma_replies_snoc, lemma_replies_tokens,
    qtoken, reply_models, reply_of, replies_of,
};
use crate::docs::{DocModel, Document, ResultModel, SearchResult};
use crate::index::{query_spec, result_models};

verus! {

/// The map a pile of replies stands for: token to results, later
/// deposits overriding earlier ones (which never happens while tokens
/// stay distinct).
pub open spec fn bank_model(s: Seq<ReplyModel>) -> Map<u64, Seq<ResultModel>>
    decreases s.len(),
{
    if s.len() == 0 {
        Map::<u64, Seq<ResultModel>>::empty()
    } else {
        bank_model(s.drop_last()).insert(s.last().token, s.last().results)
    }
}

/// No two replies carry the same token.
pub open spec fn distinct_tokens(s: Seq<ReplyModel>) -> bool {
    forall|i: int, j: int| 0 <= i < j < s.len() ==> s[i].token != s[j].token
}

/// Some reply carries `t`.
pub open spec fn has_token(s: Seq<ReplyModel>, t: u64) -> bool {
    exists|i: int| 0 <= i < s.len() && s[i].token == t
}

/// The bank's domain is exactly the deposited tokens.
pub proof fn lemma_bank_dom(s: Seq<ReplyModel>)
    ensures
        forall|t: u64| #[trigger] bank_model(s).contains_key(t) <==> has_token(s, t),
    decreases s.len(),
{
    if s.len() == 0 {
        assert forall|t: u64| #[trigger] bank_model(s).contains_key(t) <==> has_token(s, t) by {
            assert(bank_model(s) == Map::<u64, Seq<ResultModel>>::empty());
            assert(!bank_model(s).contains_key(t));
            assert(!has_token(s, t));
        }
    } else {
        lemma_bank_dom(s.drop_last());
        assert forall|t: u64| #[trigger] bank_model(s).contains_key(t) <==> has_token(s, t) by {
            assert(bank_model(s) == bank_model(s.drop_last()).insert(
                s.last().token,
                s.last().results,
            ));
            if bank_model(s).contains_key(t) {
                if t == s.last().token {
                    assert(s[s.len() - 1].token == t);
                } else {
                    assert(bank_model(s.drop_last()).contains_key(t));
                    assert(has_token(s.drop_last(), t));
                    let i = choose|i: int|
                        0 <= i < s.drop_last().len() && s.drop_last()[i].token == t;
                    assert(s[i].token == t);
                }
            }
            if has_token(s, t) {
                let i = choose|i: int| 0 <= i < s.len() && s[i].token == t;
                if i == s.len() - 1 {
                    assert(bank_model(s).contains_key(t));
                } else {
                    assert(s.drop_last()[i].token == t);
                    assert(has_token(s.drop_last(), t));
                    assert(bank_model(s.drop_last()).contains_key(t));
                }
            }
        }
    }
}

/// While tokens stay distinct, each deposited reply is retrievable
/// under its own token.
pub proof fn lemma_bank_value(s: Seq<ReplyModel>, i: int)
    requires
        distinct_tokens(s),
        0 <= i < s.len(),
    ensures
        bank_model(s).contains_key(s[i].token),
        bank_model(s)[s[i].token] == s[i].results,
    decreases s.len(),
{
    if i == s.len() - 1 {
    } else {
        assert(distinct_tokens(s.drop_last()));
        assert(s.drop_last()[i] == s[i]);
        lemma_bank_value(s.drop_last(), i);
        assert(s[i].token != s.last().token);
    }
}

/// Taking one reply out removes exactly its token from the map.
pub proof fn lemma_bank_remove(s: Seq<ReplyModel>, i: int)
    requires
        distinct_tokens(s),
        0 <= i < s.len(),
    ensures
        bank_model(s.remove(i)) == bank_model(s).remove(s[i].token),
    decreases s.len(),
{
    lemma_bank_dom(s.drop_last());
    if i == s.len() - 1 {
        assert(s.remove(i) =~= s.drop_last());
        assert(!has_token(s.drop_last(), s[i].token));
        assert(!bank_model(s.drop_last()).contains_key(s[i].token));
        assert(bank_model(s.drop_last()).insert(s.last().token, s.last().results).remove(
            s[i].token,
        ) =~= bank_model(s.drop_last()));
    } else {
        assert(distinct_tokens(s.drop_last()));
        assert(s.drop_last()[i] == s[i]);
        lemma_bank_remove(s.drop_last(), i);
        let s2 = s.remove(i);
        assert(s2.len() == s.len() - 1);
        assert(s2.last() == s.last());
        assert(s2.drop_last() =~= s.drop_last().remove(i));
        assert(bank_model(s2) == bank_model(s.drop_last().remove(i)).insert(
            s.last().token,
            s.last().results,
        ));
        assert(s[i].token != s.last().token);
        assert(bank_model(s.drop_last()).remove(s[i].token).insert(
            s.last().token,
            s.last().results,
        ) =~= bank_model(s.drop_last()).insert(s.last().token, s.last().results).remove(
            s[i].token,
        ));
    }
}

/// Holds each query's results until the caller that issued the query
/// withdraws them by token.
pub struct ReplyBank {
    slots: Vec<Reply>,
}

impl View for ReplyBank {
    type V = Map<u64, Seq<ResultModel>>;

    closed spec fn view(&self) -> Map<u64, Seq<ResultModel>> {
        bank_model(reply_models(self.slots@))
    }
}

impl ReplyBank {
    /// Well-formed: no two held replies share a token.
    pub closed spec fn wf(&self) -> bool {
        distinct_tokens(reply_models(self.slots@))
    }

    /// An empty bank.
    pub fn new() -> (b: ReplyBank)
        ensures
            b.wf(),
            b@ == Map::<u64, Seq<ResultModel>>::empty(),
    {
        let b = ReplyBank { slots: Vec::new() };
        proof {
            assert(reply_models(b.slots@) =~= Seq::<ReplyModel>::empty());
        }
        b
    }

    /// Put one reply in; its token must not be held yet.
    pub fn deposit(&mut self, r: Reply)
        requires
            old(self).wf(),
            !old(self)@.contains_key(r.token),
        ensures
            final(self).wf(),
            final(self)@ == old(self)@.insert(r.token, result_models(r.results@)),
    {
        proof {
            let s = reply_models(self.slots@);
            lemma_bank_dom(s);
            assert(!has_token(s, r.token));
            assert forall|i: int, j: int|
                0 <= i < j < s.push(r@).len() implies s.push(r@)[i].token != s.push(
                r@,
            )[j].token by {
                if j == s.len() {
                    assert(s.push(r@)[j] == r@);
                    assert(s[i].token != r.token);
                }
            }
        }
        let ghost s = reply_models(self.slots@);
        self.slots.push(r);
        proof {
            assert(reply_models(self.slots@) =~= s.push(r@));
            assert(s.push(r@).drop_last() =~= s);
        }
    }

    /// Take the reply deposited under `token` out, if one is there: a
    /// caller gets its own query's results or nothing, never another
    /// caller's.
    pub fn withdraw(&mut self, token: u64) -> (r: Option<Vec<SearchResult>>)
        requires
            old(self).wf(),
        ensures
            final(self).wf(),
            final(self)@ == old(self)@.remove(token),
            old(self)@.contains_key(token) ==> (r matches Some(v) && result_models(v@) == old(
                self,
            )@[token]),
            !old(self)@.contains_key(token) ==> r is None,
    {
        let ghost s = reply_models(self.slots@);
        proof {
            lemma_bank_dom(s);
        }
        let n = self.slots.len();
        let mut i: usize = 0;
        while i < n
            invariant
                i <= n,
                n == self.slots@.len(),
                s == reply_models(self.slots@),
                bank_model(s) == old(self)@,
                distinct_tokens(s),
                forall|k: int| 0 <= k < i ==> s[k].token != token,
            decreases n - i,
        {
            if self.slots[i].token == token {
                proof {
                    assert(s[i as int].token == token);
                    lemma_bank_value(s, i as int);
                    lemma_bank_remove(s, i as int);
                }
                let ghost pre = self.slots@;
                let rep = self.slots.remove(i);
                proof {
                    assert(old(self)@ == bank_model(s));
                    assert(rep == pre[i as int]);
                    assert(rep@ == s[i as int]);
                    assert(result_models(rep.results@) == s[i as int].results);
                    assert(result_models(rep.results@) == old(self)@[token]);
                    assert(reply_models(self.slots@) =~= s.remove(i as int));
                    assert(self@ == bank_model(s.remove(i as int)));
                    assert(self@ == old(self)@.remove(token));
                    assert forall|a: int, b: int|
                        0 <= a < b < s.remove(i as int).len() implies s.remove(i as int)[a].token
                        != s.remove(i as int)[b].token by {
                        let sr = s.remove(i as int);
                        if a < i {
                            assert(sr[a] == s[a]);
                        } else {
                            assert(sr[a] == s[a + 1]);
                        }
                        if b < i {
                            assert(sr[b] == s[b]);
                        } else {
                            assert(sr[b] == s[b + 1]);
                        }
                    }
                }
                return Some(rep.results);
            }
            i = i + 1;
        }
        proof {
            assert(!has_token(s, token));
            assert(!old(self)@.contains_key(token));
            assert(old(self)@.remove(token) =~= old(self)@);
        }
        None
    }
}

/// All query tokens in a pending command sequence lie below `bound`.
pub open spec fn queued_tokens_lt(cmds: Seq<CmdModel>, bound: u64) -> bool {
    forall|i: int|
        0 <= i < cmds.len() && is_query(#[trigger] cmds[i]) ==> qtoken(cmds[i]) < bound
}

/// No two pending queries share a token.
pub open spec fn queued_tokens_distinct(cmds: Seq<CmdModel>) -> bool {
    forall|i: int, j: int|
        0 <= i < j < cmds.len() && is_query(#[trigger] cmds[i]) && is_query(#[trigger] cmds[j])
            ==> qtoken(cmds[i]) != qtoken(cmds[j])
}

/// No pending query's token is already held by the bank.
pub open spec fn queued_tokens_fresh(cmds: Seq<CmdModel>, m: Map<u64, Seq<ResultModel>>) -> bool {
    forall|i: int|
        0 <= i < cmds.len() && is_query(#[trigger] cmds[i]) ==> !m.contains_key(qtoken(cmds[i]))
}

/// Every key the bank holds lies below `bound`.
pub open spec fn bank_keys_lt(m: Map<u64, Seq<ResultModel>>, bound: u64) -> bool {
    forall|t: u64| #[trigger] m.contains_key(t) ==> t < bound
}

/// The bank after a batch of replies is deposited, in order.
pub open spec fn deposit_all(
    m: Map<u64, Seq<ResultModel>>,
    rs: Seq<ReplyModel>,
) -> Map<u64, Seq<ResultModel>>
    decreases rs.len(),
{
    if rs.len() == 0 {
        m
    } else {
        deposit_all(m.insert(rs[0].token, rs[0].results), rs.skip(1))
    }
}

/// Depositing one more reply folds onto the bank the earlier ones left.
pub proof fn lemma_deposit_all_snoc(
    m: Map<u64, Seq<ResultModel>>,
    rs: Seq<ReplyModel>,
    r: ReplyModel,
)
    ensures
        deposit_all(m, rs.push(r)) == deposit_all(m, rs).insert(r.token, r.results),
    decreases rs.len(),
{
    if rs.len() == 0 {
        assert(rs.push(r)[0] == r);
        assert(rs.push(r).skip(1) =~= Seq::<ReplyModel>::empty());
        assert(deposit_all(m, rs) == m);
        assert(deposit_all(m.insert(r.token, r.results), rs.push(r).skip(1)) == m.insert(
            r.token,
            r.results,
        ));
    } else {
        assert(rs.push(r)[0] == rs[0]);
        assert(rs.push(r).skip(1) =~= rs.skip(1).push(r));
        lemma_deposit_all_snoc(m.insert(rs[0].token, rs[0].results), rs.skip(1), r);
    }
}

/// Depositing adds exactly the batch's tokens to the bank's domain.
pub proof fn lemma_deposit_all_dom(m: Map<u64, Seq<ResultModel>>, rs: Seq<ReplyModel>)
    ensures
        forall|t: u64|
            #[trigger] deposit_all(m, rs).contains_key(t) <==> m.contains_key(t) || has_token(
                rs,
                t,
            ),
    decreases rs.len(),
{
    if rs.len() == 0 {
        assert forall|t: u64|
            #[trigger] deposit_all(m, rs).contains_key(t) <==> m.contains_key(t) || has_token(
                rs,
                t,
            ) by {
            assert(deposit_all(m, rs) == m);
            assert(!has_token(rs, t));
        }
    } else {
        let m1 = m.insert(rs[0].token, rs[0].results);
        lemma_deposit_all_dom(m1, rs.skip(1));
        assert forall|t: u64|
            #[trigger] deposit_all(m, rs).contains_key(t) <==> m.contains_key(t) || has_token(
                rs,
                t,
            ) by {
            assert(deposit_all(m, rs) == deposit_all(m1, rs.skip(1)));
            if deposit_all(m, rs).contains_key(t) {
                if m1.contains_key(t) && !m.contains_key(t) {
                    assert(t == rs[0].token);
                    assert(rs[0].token == t);
                    assert(has_token(rs, t));
                } else if !m1.contains_key(t) {
                    assert(has_token(rs.skip(1), t));
                    let i = choose|i: int| 0 <= i < rs.skip(1).len() && rs.skip(1)[i].token == t;
                    assert(rs[i + 1].token == t);
                }
            }
            if m.contains_key(t) {
                assert(m1.contains_key(t));
            }
            if has_token(rs, t) {
                let i = choose|i: int| 0 <= i < rs.len() && rs[i].token == t;
                if i == 0 {
                    assert(m1.contains_key(t));
                } else {
                    assert(rs.skip(1)[i - 1].token == t);
                    assert(has_token(rs.skip(1), t));
                }
            }
        }
    }
}

/// Appending one command keeps the queue's token conditions, provided a
/// query's token is new on every side.
proof fn lemma_push_preserves(
    cmds: Seq<CmdModel>,
    c: CmdModel,
    bound: u64,
    m: Map<u64, Seq<ResultModel>>,
)
    requires
        queued_tokens_lt(cmds, bound),
        queued_tokens_distinct(cmds),
        queued_tokens_fresh(cmds, m),
        is_query(c) ==> qtoken(c) < bound,
        is_query(c) ==> !m.contains_key(qtoken(c)),
        is_query(c) ==> !has_query_token(cmds, qtoken(c)),
    ensures
        queued_tokens_lt(cmds.push(c), bound),
        queued_tokens_distinct(cmds.push(c)),
        queued_tokens_fresh(cmds.push(c), m),
{
    let p = cmds.push(c);
    assert forall|i: int|
        0 <= i < p.len() && is_query(#[trigger] p[i]) implies qtoken(p[i]) < bound
            && !m.contains_key(qtoken(p[i])) by {
        if i < cmds.len() {
            assert(p[i] == cmds[i]);
        } else {
            assert(p[i] == c);
        }
    }
    assert forall|i: int, j: int|
        0 <= i < j < p.len() && is_query(#[trigger] p[i]) && is_query(#[trigger] p[j]) implies
        qtoken(p[i]) != qtoken(p[j]) by {
        if j < cmds.len() {
            assert(p[i] == cmds[i]);
            assert(p[j] == cmds[j]);
        } else {
            assert(p[j] == c);
            assert(p[i] == cmds[i]);
            if qtoken(cmds[i]) == qtoken(c) {
                assert(has_query_token(cmds, qtoken(c)));
            }
        }
    }
}

/// Correlation: with distinct tokens, each caller reads back exactly
/// what was deposited for its own query, whatever else was deposited or
/// withdrawn around it.
pub proof fn lemma_correlation(
    m: Map<u64, Seq<ResultModel>>,
    t1: u64,
    r1: Seq<ResultModel>,
    t2: u64,
    r2: Seq<ResultModel>,
)
    requires
        t1 != t2,
    ensures
        m.insert(t1, r1).insert(t2, r2)[t1] == r1,
        m.insert(t1, r1).insert(t2, r2)[t2] == r2,
        m.insert(t1, r1).insert(t2, r2).remove(t2)[t1] == r1,
{
}

/// The entry point request handlers use. Submits are fire-and-forget;
/// a query is answered with exactly its own result, correlated by a
/// fresh token. In-process the queue is drained synchronously; the
/// contracts describe precisely the arrival-order consumption a
/// background actor task performs.
pub struct IndexGateway {
    queue: Vec<IndexCommand>,
    actor: IndexActor,
    bank: ReplyBank,
    next_token: u64,
    running: bool,
}

impl IndexGateway {
    /// The commands submitted and not yet consumed, oldest first.
    pub closed spec fn pending(&self) -> Seq<CmdModel> {
        cmd_models(self.queue@)
    }

    /// The index state the actor has reached.
    pub closed spec fn index_model(&self) -> Seq<DocModel> {
        self.actor@
    }

    /// The replies produced and not yet withdrawn, by token.
    pub closed spec fn bank_view(&self) -> Map<u64, Seq<ResultModel>> {
        self.bank@
    }

    /// Whether the gateway still accepts commands.
    pub closed spec fn is_running(&self) -> bool {
        self.running
    }

    /// How many correlation tokens have been issued.
    pub closed spec fn token_bound(&self) -> u64 {
        self.next_token
    }

    /// Well-formed: the actor's index is, the bank holds distinct
    /// tokens, and every token anywhere was issued by this gateway and
    /// is claimed at most once.
    pub closed spec fn wf(&self) -> bool {
        &&& self.actor.wf()
        &&& self.bank.wf()
        &&& queued_tokens_lt(self.pending(), self.next_token)
        &&& queued_tokens_distinct(self.pending())
        &&& queued_tokens_fresh(self.pending(), self.bank@)
        &&& bank_keys_lt(self.bank@, self.next_token)
    }

    /// A fresh gateway over an empty index, as created at process
    /// start.
    pub fn new() -> (g: IndexGateway)
        ensures
            g.wf(),
            g.pending() == Seq::<CmdModel>::empty(),
            g.index_model() == Seq::<DocModel>::empty(),
            g.is_running(),
            g.token_bound() == 0,
    {
        let g = IndexGateway {
            queue: Vec::new(),
            actor: IndexActor::new(),
            bank: ReplyBank::new(),
            next_token: 0,
            running: true,
        };
        proof {
            assert(cmd_models(g.queue@) =~= Seq::<CmdModel>::empty());
        }
        g
    }

    /// Enqueue an insert-or-replace and return at once; no
    /// acknowledgment. After shutdown the command is refused (`false`)
    /// rather than queued forever.
    pub fn submit_upsert(&mut self, d: Document) -> (ok: bool)
        requires
            old(self).wf(),
        ensures
            final(self).wf(),
            ok == old(self).is_running(),
            final(self).is_running() == old(self).is_running(),
            final(self).index_model() == old(self).index_model(),
            final(self).bank_view() == old(self).bank_view(),
            final(self).token_bound() == old(self).token_bound(),
            old(self).is_running() ==> final(self).pending() == old(self).pending().push(
                CmdModel::Upsert(d@),
            ),
            !old(self).is_running() ==> final(self).pending() == old(self).pending(),
    {
        if !self.running {
            return false;
        }
        let ghost p0 = self.pending();
        proof {
            lemma_push_preserves(p0, CmdModel::Upsert(d@), self.next_token, self.bank@);
        }
        self.queue.push(IndexCommand::Upsert(d));
        proof {
            assert(cmd_models(self.queue@) =~= p0.push(CmdModel::Upsert(d@)));
        }
        true
    }

    /// Enqueue a removal and return at once; removing an identifier
    /// that was never indexed is a queued no-op, not a fault.
    pub fn submit_delete(&mut self, id: Vec<u8>) -> (ok: bool)
        requires
            old(self).wf(),
        ensures
            final(self).wf(),
            ok == old(self).is_running(),
            final(self).is_running() == old(self).is_running(),
            final(self).index_model() == old(self).index_model(),
            final(self).bank_view() == old(self).bank_view(),
            final(self).token_bound() == old(self).token_bound(),
            old(self).is_running() ==> final(self).pending() == old(self).pending().push(
                CmdModel::Delete(id@),
            ),
            !old(self).is_running() ==> final(self).pending() == old(self).pending(),
    {
        if !self.running {
            return false;
        }
        let ghost p0 = self.pending();
        proof {
            lemma_push_preserves(p0, CmdModel::Delete(id@), self.next_token, self.bank@);
        }
        self.queue.push(IndexCommand::Delete(id));
        proof {
            assert(cmd_models(self.queue@) =~= p0.push(CmdModel::Delete(id@)));
        }
        true
    }

    /// Let the actor consume every queued command, oldest first,
    /// banking each query's reply under its token.
    fn pump(&mut self)
        requires
            old(self).wf(),
        ensures
            final(self).wf(),
            final(self).pending() == Seq::<CmdModel>::empty(),
            final(self).index_model() == apply_cmds(
                old(self).index_model(),
                old(self).pending(),
            ),
            final(self).bank_view() == deposit_all(
                old(self).bank_view(),
                replies_of(old(self).index_model(), old(self).pending()),
            ),
            final(self).token_bound() == old(self).token_bound(),
            final(self).is_running() == old(self).is_running(),
    {
        let ghost docs0 = self.actor@;
        let ghost full = cmd_models(self.queue@);
        let ghost bank0 = self.bank@;
        let ghost bound = self.next_token;
        let ghost run0 = self.running;
        let ghost mut i: int = 0;
        proof {
            assert(full.take(0) =~= Seq::<CmdModel>::empty());
            assert(full.skip(0) =~= full);
        }
        loop
            invariant
                0 <= i <= full.len(),
                cmd_models(self.queue@) == full.skip(i),
                self.actor.wf(),
                self.bank.wf(),
                self.actor@ == apply_cmds(docs0, full.take(i)),
                self.bank@ == deposit_all(bank0, replies_of(docs0, full.take(i))),
                self.next_token == bound,
                self.running == run0,
                queued_tokens_lt(full, bound),
                queued_tokens_distinct(full),
                queued_tokens_fresh(full, bank0),
                bank_keys_lt(bank0, bound),
                bank_keys_lt(self.bank@, bound),
            ensures
                i == full.len(),
                cmd_models(self.queue@).len() == 0,
            decreases full.len() - i,
        {
            if self.queue.len() == 0 {
                proof {
                    assert(full.skip(i).len() == 0);
                    assert(i == full.len());
                    assert(full.take(i) =~= full);
                }
                break;
            }
            let ghost q_pre = self.queue@;
            let c = self.queue.remove(0);
            proof {
                assert(cmd_models(q_pre) == full.skip(i));
                assert(full.skip(i).len() > 0);
                assert(c == q_pre[0]);
                assert(c@ == cmd_models(q_pre)[0]);
                assert(full.skip(i)[0] == full[i]);
                assert(self.queue@ == q_pre.remove(0));
                assert(q_pre.remove(0) =~= q_pre.skip(1));
                assert(cmd_models(q_pre.skip(1)) =~= cmd_models(q_pre).skip(1));
                assert(cmd_models(q_pre).skip(1) =~= full.skip(i).skip(1));
                assert(full.skip(i).skip(1) =~= full.skip(i + 1));
            }
            let ghost state_i = self.actor@;
            let rep = self.actor.handle(c);
            proof {
                lemma_apply_snoc(docs0, full.take(i), full[i]);
                assert(full.take(i).push(full[i]) =~= full.take(i + 1));
                lemma_replies_snoc(docs0, full.take(i), full[i]);
            }
            match rep {
                Some(rp) => {
                    let ghost rpm = rp@;
                    proof {
                        assert(is_query(full[i]));
                        assert(rp.token == qtoken(full[i]));
                        assert(reply_of(state_i, full[i]) =~= seq![rpm]);
                        lemma_deposit_all_dom(bank0, replies_of(docs0, full.take(i)));
                        assert(!bank0.contains_key(rp.token));
                        if has_token(replies_of(docs0, full.take(i)), rp.token) {
                            lemma_replies_tokens(docs0, full.take(i));
                            let rs = replies_of(docs0, full.take(i));
                            let jj = choose|jj: int|
                                0 <= jj < rs.len() && rs[jj].token == rp.token;
                            assert(has_query_token(full.take(i), rs[jj].token));
                            let k = choose|k: int|
                                0 <= k < full.take(i).len() && is_query(#[trigger] full.take(i)[k])
                                    && qtoken(full.take(i)[k]) == rp.token;
                            assert(full.take(i)[k] == full[k]);
                            assert(qtoken(full[k]) != qtoken(full[i]));
                            assert(false);
                        }
                        assert(!self.bank@.contains_key(rp.token));
                    }
                    self.bank.deposit(rp);
                    proof {
                        lemma_deposit_all_snoc(bank0, replies_of(docs0, full.take(i)), rpm);
                        assert(replies_of(docs0, full.take(i + 1)) =~= replies_of(
                            docs0,
                            full.take(i),
                        ).push(rpm));
                        assert(qtoken(full[i]) < bound);
                        assert forall|t: u64|
                            #[trigger] self.bank@.contains_key(t) implies t < bound by {
                            if t != rpm.token {
                                assert(deposit_all(
                                    bank0,
                                    replies_of(docs0, full.take(i)),
                                ).contains_key(t));
                            }
                        }
                    }
                },
                None => {
                    proof {
                        assert(reply_of(state_i, full[i]) =~= Seq::<ReplyModel>::empty());
                        assert(replies_of(docs0, full.take(i + 1)) =~= replies_of(
                            docs0,
                            full.take(i),
                        ));
                    }
                },
            }
            proof {
                i = i + 1;
            }
        }
        proof {
            assert(cmd_models(self.queue@) =~= Seq::<CmdModel>::empty());
            assert forall|a: int|
                0 <= a < self.pending().len() && is_query(#[trigger] self.pending()[a]) implies
                qtoken(self.pending()[a]) < self.next_token && !self.bank@.contains_key(
                qtoken(self.pending()[a]),
            ) by {}
        }
    }

    /// Run a search: enqueue a query under a fresh token, let the actor
    /// drain the queue in arrival order, and withdraw exactly this
    /// call's result — never a stale one, never another caller's. The
    /// answer reflects every command this gateway accepted before the
    /// call. `None` after shutdown (fail fast).
    pub fn query(&mut self, text: Vec<u8>, limit: usize) -> (r: Option<Vec<SearchResult>>)
        requires
            old(self).wf(),
            old(self).token_bound() < u64::MAX,
        ensures
            final(self).wf(),
            final(self).is_running() == old(self).is_running(),
            !old(self).is_running() ==> r is None && final(self).pending() == old(self).pending()
                && final(self).index_model() == old(self).index_model()
                && final(self).bank_view() == old(self).bank_view()
                && final(self).token_bound() == old(self).token_bound(),
            old(self).is_running() ==> (r matches Some(v) && result_models(v@) == query_spec(
                apply_cmds(old(self).index_model(), old(self).pending()),
                text@,
                limit as nat,
            ) && final(self).index_model() == apply_cmds(
                old(self).index_model(),
                old(self).pending(),
            ) && final(self).pending() == Seq::<CmdModel>::empty() && final(self).bank_view()
                == deposit_all(
                old(self).bank_view(),
                replies_of(old(self).index_model(), old(self).pending()),
            ) && final(self).token_bound() == old(self).token_bound() + 1),
    {
        if !self.running {
            return None;
        }
        let token = self.next_token;
        self.next_token = token + 1;
        let ghost p0 = self.pending();
        let ghost docs0 = self.actor@;
        let ghost bank0 = self.bank@;
        let qc = IndexCommand::Query { text, limit, token };
        let ghost qcm = qc@;
        proof {
            assert(is_query(qcm) && qtoken(qcm) == token);
            assert forall|a: int|
                0 <= a < p0.len() && is_query(#[trigger] p0[a]) implies qtoken(p0[a])
                < self.next_token by {}
            assert(!has_query_token(p0, token));
            assert forall|t: u64| #[trigger] bank0.contains_key(t) implies t < self.next_token by {}
            lemma_push_preserves(p0, qcm, self.next_token, bank0);
        }
        self.queue.push(qc);
        proof {
            assert(cmd_models(self.queue@) =~= p0.push(qcm));
        }
        self.pump();
        proof {
            lemma_replies_snoc(docs0, p0, qcm);
            let applied = apply_cmds(docs0, p0);
            let rm = ReplyModel { token, results: query_spec(applied, text@, limit as nat) };
            assert(reply_of(applied, qcm) =~= seq![rm]);
            assert(replies_of(docs0, p0.push(qcm)) =~= replies_of(docs0, p0).push(rm));
            lemma_deposit_all_snoc(bank0, replies_of(docs0, p0), rm);
            assert(self.bank@ == deposit_all(bank0, replies_of(docs0, p0)).insert(
                token,
                rm.results,
            ));
            assert(self.bank@.contains_key(token));
            assert(self.bank@[token] == rm.results);
            lemma_apply_snoc(docs0, p0, qcm);
            assert(apply_cmds(docs0, p0.push(qcm)) == applied);
        }
        let got = self.bank.withdraw(token);
        proof {
            assert forall|t: u64|
                #[trigger] self.bank@.contains_key(t) implies t < self.next_token by {}
            let deposited = deposit_all(bank0, replies_of(docs0, p0));
            lemma_deposit_all_dom(bank0, replies_of(docs0, p0));
            assert(!bank0.contains_key(token));
            if has_token(replies_of(docs0, p0), token) {
                lemma_replies_tokens(docs0, p0);
                let rs = replies_of(docs0, p0);
                let jj = choose|jj: int| 0 <= jj < rs.len() && rs[jj].token == token;
                assert(has_query_token(p0, rs[jj].token));
                let k = choose|k: int|
                    0 <= k < p0.len() && is_query(#[trigger] p0[k]) && qtoken(p0[k]) == token;
                assert(qtoken(p0[k]) < token);
                assert(false);
            }
            assert(!deposited.contains_key(token));
            assert(self.bank@ == deposited.insert(token, query_spec(
                apply_cmds(docs0, p0),
                text@,
                limit as nat,
            )).remove(token));
            assert(self.bank@ =~= deposited);
        }
        match got {
            Some(v) => Some(v),
            None => {
                proof {
                    assert(false);
                }
                Some(Vec::new())
            },
        }
    }

    /// Drain every outstanding command, then stop: the index reflects
    /// everything submitted, and later submissions fail fast instead of
    /// blocking forever.
    pub fn shutdown(&mut self)
        requires
            old(self).wf(),
        ensures
            final(self).wf(),
            !final(self).is_running(),
            final(self).pending() == Seq::<CmdModel>::empty(),
            final(self).index_model() == apply_cmds(
                old(self).index_model(),
                old(self).pending(),
            ),
            final(self).bank_view() == deposit_all(
                old(self).bank_view(),
                replies_of(old(self).index_model(), old(self).pending()),
            ),
            final(self).token_bound() == old(self).token_bound(),
    {
        self.pump();
        self.running = false;
    }
}

} // verus!
