//! The index actor: sole owner of the search index, consuming one
//! command at a time in arrival order. Everything the actor does is a
//! fold of `apply_cmd` over the command sequence, which is what makes
//! the "no lost or reordered writes" guarantee a theorem.

use vstd::prelude::*;

use crate::docs::{DocModel, Document, ResultModel, SearchResult};
use crate::index::{Index, seq_upsert, seq_delete, query_spec, result_models, sorted_by_id};

verus! {

/// Mathematical model of a command.
pub ghost enum CmdModel {
    Upsert(DocModel),
    Delete(Seq<u8>),
    Query { text: Seq<u8>, limit: nat, token: u64 },
}

/// A command submitted to the index actor. `Upsert` and `Delete` carry
/// no result; a `Query` carries the correlation token under which its
/// result is to be handed back.
pub enum IndexCommand {
    Upsert(Document),
    Delete(Vec<u8>),
    Query { text: Vec<u8>, limit: usize, token: u64 },
}

impl View for IndexCommand {
    type V = CmdModel;

    open spec fn view(&self) -> CmdModel {
        match self {
            IndexCommand::Upsert(d) => CmdModel::Upsert(d@),
            IndexCommand::Delete(id) => CmdModel::Delete(id@),
            IndexCommand::Query { text, limit, token } => CmdModel::Query {
                text: text@,
                limit: *limit as nat,
                token: *token,
            },
        }
    }
}

/// Mathematical model of a correlated reply.
pub ghost struct ReplyModel {
    pub token: u64,
    pub results: Seq<ResultModel>,
}

/// The actor's answer to one `Query` command: the results, under the
/// query's correlation token.
pub struct Reply {
    pub token: u64,
    pub results: Vec<SearchResult>,
}

impl View for Reply {
    type V = ReplyModel;

    open spec fn view(&self) -> ReplyModel {
        ReplyModel { token: self.token, results: result_models(self.results@) }
    }
}

/// The models of a sequence of commands.
pub open spec fn cmd_models(s: Seq<IndexCommand>) -> Seq<CmdModel> {
    s.map_values(|c: IndexCommand| c@)
}

/// The models of a sequence of replies.
pub open spec fn reply_models(s: Seq<Reply>) -> Seq<ReplyModel> {
    s.map_values(|r: Reply| r@)
}

/// What one command does to the index state; a query changes nothing.
pub open spec fn apply_cmd(docs: Seq<DocModel>, c: CmdModel) -> Seq<DocModel> {
    match c {
        CmdModel::Upsert(d) => seq_upsert(docs, d),
        CmdModel::Delete(id) => seq_delete(docs, id),
        CmdModel::Query { .. } => docs,
    }
}

/// The cumulative effect of a command sequence, applied in arrival
/// order.
pub open spec fn apply_cmds(docs: Seq<DocModel>, cmds: Seq<CmdModel>) -> Seq<DocModel>
    decreases cmds.len(),
{
    if cmds.len() == 0 {
        docs
    } else {
        apply_cmds(apply_cmd(docs, cmds[0]), cmds.skip(1))
    }
}

/// The reply one command produces against a given index state, if any.
pub open spec fn reply_of(docs: Seq<DocModel>, c: CmdModel) -> Seq<ReplyModel> {
    match c {
        CmdModel::Query { text, limit, token } => seq![
            ReplyModel { token, results: query_spec(docs, text, limit) },
        ],
        _ => Seq::<ReplyModel>::empty(),
    }
}

/// The replies a command sequence produces when consumed in arrival
/// order: each query answers against the state left by everything
/// before it.
pub open spec fn replies_of(docs: Seq<DocModel>, cmds: Seq<CmdModel>) -> Seq<ReplyModel>
    decreases cmds.len(),
{
    if cmds.len() == 0 {
        Seq::<ReplyModel>::empty()
    } else {
        reply_of(docs, cmds[0]) + replies_of(apply_cmd(docs, cmds[0]), cmds.skip(1))
    }
}

/// Consuming one more command folds onto the state the earlier commands
/// left.
pub proof fn lemma_apply_snoc(docs: Seq<DocModel>, cmds: Seq<CmdModel>, c: CmdModel)
    ensures
        apply_cmds(docs, cmds.push(c)) == apply_cmd(apply_cmds(docs, cmds), c),
    decreases cmds.len(),
{
    if cmds.len() == 0 {
        assert(cmds.push(c)[0] == c);
        assert(cmds.push(c).skip(1) =~= Seq::<CmdModel>::empty());
        assert(apply_cmds(apply_cmd(docs, c), cmds.push(c).skip(1)) == apply_cmd(docs, c));
    } else {
        assert(cmds.push(c)[0] == cmds[0]);
        assert(cmds.push(c).skip(1) =~= cmds.skip(1).push(c));
        lemma_apply_snoc(apply_cmd(docs, cmds[0]), cmds.skip(1), c);
    }
}

/// A query appended after a batch of commands is answered against
/// exactly the cumulative effect of that batch, in submission order:
/// no write submitted before it is lost or reordered.
pub proof fn lemma_replies_snoc(docs: Seq<DocModel>, cmds: Seq<CmdModel>, c: CmdModel)
    ensures
        replies_of(docs, cmds.push(c)) == replies_of(docs, cmds) + reply_of(
            apply_cmds(docs, cmds),
            c,
        ),
    decreases cmds.len(),
{
    if cmds.len() == 0 {
        assert(cmds.push(c)[0] == c);
        assert(cmds.push(c).skip(1) =~= Seq::<CmdModel>::empty());
        assert(replies_of(apply_cmd(docs, c), cmds.push(c).skip(1)) == Seq::<
            ReplyModel,
        >::empty());
        assert(replies_of(docs, cmds.push(c)) =~= replies_of(docs, cmds) + reply_of(
            apply_cmds(docs, cmds),
            c,
        ));
    } else {
        assert(cmds.push(c)[0] == cmds[0]);
        assert(cmds.push(c).skip(1) =~= cmds.skip(1).push(c));
        lemma_replies_snoc(apply_cmd(docs, cmds[0]), cmds.skip(1), c);
        assert(reply_of(docs, cmds[0]) + (replies_of(apply_cmd(docs, cmds[0]), cmds.skip(1))
            + reply_of(apply_cmds(docs, cmds), c)) =~= (reply_of(docs, cmds[0]) + replies_of(
            apply_cmd(docs, cmds[0]),
            cmds.skip(1),
        )) + reply_of(apply_cmds(docs, cmds), c));
    }
}

/// Consuming commands keeps the index well-formed.
pub proof fn lemma_apply_cmds_sorted(docs: Seq<DocModel>, cmds: Seq<CmdModel>)
    requires
        sorted_by_id(docs),
    ensures
        sorted_by_id(apply_cmds(docs, cmds)),
    decreases cmds.len(),
{
    if cmds.len() > 0 {
        match cmds[0] {
            CmdModel::Upsert(d) => {
                crate::index::lemma_upsert_sorted_any(docs, d);
            },
            CmdModel::Delete(id) => {
                crate::index::lemma_delete_sorted_any(docs, id);
            },
            CmdModel::Query { .. } => {},
        }
        lemma_apply_cmds_sorted(apply_cmd(docs, cmds[0]), cmds.skip(1));
    }
}

/// Whether a command is a query.
pub open spec fn is_query(c: CmdModel) -> bool {
    c matches CmdModel::Query { .. }
}

/// The correlation token a query command carries.
pub open spec fn qtoken(c: CmdModel) -> u64 {
    match c {
        CmdModel::Query { token, .. } => token,
        _ => 0,
    }
}

/// Whether some query command in `cmds` carries `t` as its token.
pub open spec fn has_query_token(cmds: Seq<CmdModel>, t: u64) -> bool {
    exists|i: int| 0 <= i < cmds.len() && is_query(#[trigger] cmds[i]) && qtoken(cmds[i]) == t
}

/// Every reply's token is the token of some query command consumed.
pub proof fn lemma_replies_tokens(docs: Seq<DocModel>, cmds: Seq<CmdModel>)
    ensures
        forall|j: int|
            0 <= j < replies_of(docs, cmds).len() ==> has_query_token(
                cmds,
                #[trigger] replies_of(docs, cmds)[j].token,
            ),
    decreases cmds.len(),
{
    if cmds.len() == 0 {
        assert(replies_of(docs, cmds).len() == 0);
    } else {
        let docs1 = apply_cmd(docs, cmds[0]);
        lemma_replies_tokens(docs1, cmds.skip(1));
        let head = reply_of(docs, cmds[0]);
        let tail = replies_of(docs1, cmds.skip(1));
        assert forall|j: int|
            0 <= j < replies_of(docs, cmds).len() implies has_query_token(
            cmds,
            #[trigger] replies_of(docs, cmds)[j].token,
        ) by {
            let r = replies_of(docs, cmds);
            if j < head.len() {
                assert(r[j] == head[j]);
                match cmds[0] {
                    CmdModel::Query { text, limit, token } => {
                        assert(head[j].token == token);
                        assert(is_query(cmds[0]) && qtoken(cmds[0]) == r[j].token);
                    },
                    _ => {
                        assert(head.len() == 0);
                    },
                }
            } else {
                assert(r[j] == tail[j - head.len()]);
                assert(has_query_token(cmds.skip(1), tail[j - head.len()].token));
                let i0 = choose|i0: int|
                    0 <= i0 < cmds.skip(1).len() && is_query(#[trigger] cmds.skip(1)[i0])
                        && qtoken(cmds.skip(1)[i0]) == tail[j - head.len()].token;
                assert(cmds[i0 + 1] == cmds.skip(1)[i0]);
            }
        }
    }
}

/// A batch of writes alone produces no replies.
pub proof fn lemma_writes_produce_no_replies(docs: Seq<DocModel>, cmds: Seq<CmdModel>)
    requires
        forall|i: int| 0 <= i < cmds.len() ==> !is_query(#[trigger] cmds[i]),
    ensures
        replies_of(docs, cmds) == Seq::<ReplyModel>::empty(),
    decreases cmds.len(),
{
    if cmds.len() > 0 {
        assert(!is_query(cmds[0]));
        assert(reply_of(docs, cmds[0]) == Seq::<ReplyModel>::empty());
        assert forall|i: int|
            0 <= i < cmds.skip(1).len() implies !is_query(#[trigger] cmds.skip(1)[i]) by {
            assert(cmds.skip(1)[i] == cmds[i + 1]);
        }
        lemma_writes_produce_no_replies(apply_cmd(docs, cmds[0]), cmds.skip(1));
        assert(replies_of(docs, cmds) =~= Seq::<ReplyModel>::empty());
    }
}

/// For any batch of writes from one producer, a query submitted after
/// them is answered against exactly their cumulative effect, applied
/// in submission order: no write is lost or reordered, and the query
/// is the only command answered.
pub proof fn lemma_query_observes_writes(
    docs: Seq<DocModel>,
    writes: Seq<CmdModel>,
    text: Seq<u8>,
    limit: nat,
    token: u64,
)
    requires
        forall|i: int| 0 <= i < writes.len() ==> !is_query(#[trigger] writes[i]),
    ensures
        replies_of(docs, writes.push(CmdModel::Query { text, limit, token })) == seq![
            ReplyModel { token, results: query_spec(apply_cmds(docs, writes), text, limit) },
        ],
{
    let q = CmdModel::Query { text, limit, token };
    lemma_replies_snoc(docs, writes, q);
    lemma_writes_produce_no_replies(docs, writes);
    assert(replies_of(docs, writes) + reply_of(apply_cmds(docs, writes), q) =~= seq![
        ReplyModel { token, results: query_spec(apply_cmds(docs, writes), text, limit) },
    ]);
}

/// The index actor: wraps the index and applies one command at a time.
pub struct IndexActor {
    index: Index,
}

impl View for IndexActor {
    type V = Seq<DocModel>;

    closed spec fn view(&self) -> Seq<DocModel> {
        self.index@
    }
}

impl IndexActor {
    /// Well-formed: the owned index is.
    pub closed spec fn wf(&self) -> bool {
        self.index.wf()
    }

    /// A fresh actor owning an empty index, as created at process start.
    pub fn new() -> (a: IndexActor)
        ensures
            a.wf(),
            a@ == Seq::<DocModel>::empty(),
    {
        IndexActor { index: Index::new() }
    }

    /// Consume one command: apply it to the index and produce the
    /// correlated reply if it was a query. The actor survives every
    /// command; nothing here can stop its loop.
    pub fn handle(&mut self, cmd: IndexCommand) -> (r: Option<Reply>)
        requires
            old(self).wf(),
        ensures
            final(self).wf(),
            final(self)@ == apply_cmd(old(self)@, cmd@),
            match cmd@ {
                CmdModel::Query { text, limit, token } => r matches Some(rep) && rep.token
                    == token && result_models(rep.results@) == query_spec(
                    old(self)@,
                    text,
                    limit,
                ),
                _ => r is None,
            },
    {
        match cmd {
            IndexCommand::Upsert(d) => {
                self.index.upsert(d);
                None
            },
            IndexCommand::Delete(id) => {
                self.index.delete(id.as_slice());
                None
            },
            IndexCommand::Query { text, limit, token } => {
                let results = self.index.query(text.as_slice(), limit);
                Some(Reply { token, results })
            },
        }
    }
}

} // verus!
