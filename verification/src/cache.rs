//! The response cache: rendered bodies keyed by `(namespace, partition
//! key)`, with explicit invalidation. A reader never sees an entry that
//! an earlier invalidation removed.

use vstd::prelude::*;
use vstd::string::StrSliceExecFns;

use crate::docs::clone_bytes;

verus! {

/// Mathematical model of one cache slot.
pub ghost struct SlotModel {
    pub ns: Seq<char>,
    pub key: Seq<char>,
    pub body: Seq<u8>,
    pub valid: bool,
}

/// One stored entry; invalidation clears `valid` rather than mutating
/// the bytes.
struct CacheSlot {
    ns: String,
    key: String,
    body: Vec<u8>,
    valid: bool,
}

impl View for CacheSlot {
    type V = SlotModel;

    closed spec fn view(&self) -> SlotModel {
        SlotModel { ns: self.ns@, key: self.key@, body: self.body@, valid: self.valid }
    }
}

/// The models of a sequence of slots.
spec fn slot_models(s: Seq<CacheSlot>) -> Seq<SlotModel> {
    s.map_values(|c: CacheSlot| c@)
}

/// No two slots carry the same `(namespace, key)` pair.
pub open spec fn distinct_pairs(s: Seq<SlotModel>) -> bool {
    forall|i: int, j: int|
        0 <= i < j < s.len() ==> !(s[i].ns == s[j].ns && s[i].key == s[j].key)
}

/// Some slot is valid and carries `p`.
pub open spec fn has_pair(s: Seq<SlotModel>, p: (Seq<char>, Seq<char>)) -> bool {
    exists|i: int| 0 <= i < s.len() && s[i].valid && s[i].ns == p.0 && s[i].key == p.1
}

/// `pre` is a prefix of `s`.
pub open spec fn key_starts_with(s: Seq<char>, pre: Seq<char>) -> bool {
    pre.len() <= s.len() && s.take(pre.len() as int) == pre
}

/// The map a pile of slots stands for: only valid slots contribute.
pub open spec fn cache_model(s: Seq<SlotModel>) -> Map<(Seq<char>, Seq<char>), Seq<u8>>
    decreases s.len(),
{
    if s.len() == 0 {
        Map::<(Seq<char>, Seq<char>), Seq<u8>>::empty()
    } else if s.last().valid {
        cache_model(s.drop_last()).insert((s.last().ns, s.last().key), s.last().body)
    } else {
        cache_model(s.drop_last())
    }
}

/// The model's domain is exactly the valid slots' pairs.
pub proof fn lemma_cache_dom(s: Seq<SlotModel>)
    ensures
        forall|p: (Seq<char>, Seq<char>)| #[trigger] cache_model(s).contains_key(p) <==> has_pair(
            s,
            p,
        ),
    decreases s.len(),
{
    if s.len() == 0 {
        assert forall|p: (Seq<char>, Seq<char>)|
            #[trigger] cache_model(s).contains_key(p) <==> has_pair(s, p) by {
            assert(cache_model(s) == Map::<(Seq<char>, Seq<char>), Seq<u8>>::empty());
            assert(!has_pair(s, p));
        }
    } else {
        lemma_cache_dom(s.drop_last());
        assert forall|p: (Seq<char>, Seq<char>)|
            #[trigger] cache_model(s).contains_key(p) <==> has_pair(s, p) by {
            let last = s.last();
            if cache_model(s).contains_key(p) {
                if last.valid && p == (last.ns, last.key) {
                    assert(s[s.len() - 1].valid && s[s.len() - 1].ns == p.0 && s[s.len()
                        - 1].key == p.1);
                } else {
                    assert(cache_model(s.drop_last()).contains_key(p));
                    assert(has_pair(s.drop_last(), p));
                    let i = choose|i: int|
                        0 <= i < s.drop_last().len() && s.drop_last()[i].valid && s.drop_last()[
                            i
                        ].ns == p.0 && s.drop_last()[i].key == p.1;
                    assert(s[i].valid && s[i].ns == p.0 && s[i].key == p.1);
                }
            }
            if has_pair(s, p) {
                let i = choose|i: int|
                    0 <= i < s.len() && s[i].valid && s[i].ns == p.0 && s[i].key == p.1;
                if i == s.len() - 1 {
                    assert(cache_model(s).contains_key(p));
                } else {
                    assert(s.drop_last()[i].valid && s.drop_last()[i].ns == p.0 && s.drop_last()[
                        i
                    ].key == p.1);
                    assert(has_pair(s.drop_last(), p));
                    assert(cache_model(s.drop_last()).contains_key(p));
                }
            }
        }
    }
}

/// While pairs stay distinct, each valid slot's body is retrievable
/// under its pair.
pub proof fn lemma_cache_value(s: Seq<SlotModel>, i: int)
    requires
        distinct_pairs(s),
        0 <= i < s.len(),
        s[i].valid,
    ensures
        cache_model(s).contains_key((s[i].ns, s[i].key)),
        cache_model(s)[(s[i].ns, s[i].key)] == s[i].body,
    decreases s.len(),
{
    if i == s.len() - 1 {
    } else {
        assert(distinct_pairs(s.drop_last()));
        assert(s.drop_last()[i] == s[i]);
        lemma_cache_value(s.drop_last(), i);
        assert(!(s[i].ns == s.last().ns && s[i].key == s.last().key));
    }
}

/// Rewriting one slot in place, keeping its pair, updates the model at
/// exactly that pair: an insert if the new slot is valid, a removal if
/// not.
pub proof fn lemma_cache_update(s: Seq<SlotModel>, i: int, slot2: SlotModel)
    requires
        distinct_pairs(s),
        0 <= i < s.len(),
        slot2.ns == s[i].ns,
        slot2.key == s[i].key,
    ensures
        slot2.valid ==> cache_model(s.update(i, slot2)) == cache_model(s).insert(
            (slot2.ns, slot2.key),
            slot2.body,
        ),
        !slot2.valid ==> cache_model(s.update(i, slot2)) == cache_model(s).remove(
            (slot2.ns, slot2.key),
        ),
    decreases s.len(),
{
    lemma_cache_dom(s.drop_last());
    let p = (slot2.ns, slot2.key);
    if i == s.len() - 1 {
        assert(s.update(i, slot2).drop_last() =~= s.drop_last());
        assert(s.update(i, slot2).last() == slot2);
        assert(!has_pair(s.drop_last(), p));
        assert(!cache_model(s.drop_last()).contains_key(p));
        if s.last().valid {
            if slot2.valid {
                assert(cache_model(s.drop_last()).insert(p, slot2.body) =~= cache_model(
                    s.drop_last(),
                ).insert(p, s.last().body).insert(p, slot2.body));
            } else {
                assert(cache_model(s.drop_last()) =~= cache_model(s.drop_last()).insert(
                    p,
                    s.last().body,
                ).remove(p));
            }
        } else {
            if slot2.valid {
            } else {
                assert(cache_model(s.drop_last()) =~= cache_model(s.drop_last()).remove(p));
            }
        }
    } else {
        assert(distinct_pairs(s.drop_last()));
        assert(s.drop_last()[i] == s[i]);
        lemma_cache_update(s.drop_last(), i, slot2);
        let s2 = s.update(i, slot2);
        assert(s2.last() == s.last());
        assert(s2.drop_last() =~= s.drop_last().update(i, slot2));
        assert(!(s.last().ns == p.0 && s.last().key == p.1));
        let lastp = (s.last().ns, s.last().key);
        if s.last().valid {
            if slot2.valid {
                assert(cache_model(s.drop_last()).insert(p, slot2.body).insert(
                    lastp,
                    s.last().body,
                ) =~= cache_model(s.drop_last()).insert(lastp, s.last().body).insert(
                    p,
                    slot2.body,
                ));
            } else {
                assert(cache_model(s.drop_last()).remove(p).insert(lastp, s.last().body)
                    =~= cache_model(s.drop_last()).insert(lastp, s.last().body).remove(p));
            }
        }
    }
}

/// The response cache: bodies keyed by `(namespace, partition key)`.
pub struct CacheStore {
    slots: Vec<CacheSlot>,
}

impl View for CacheStore {
    type V = Map<(Seq<char>, Seq<char>), Seq<u8>>;

    closed spec fn view(&self) -> Map<(Seq<char>, Seq<char>), Seq<u8>> {
        cache_model(slot_models(self.slots@))
    }
}

impl CacheStore {
    /// Well-formed: no two slots share a `(namespace, key)` pair.
    pub closed spec fn wf(&self) -> bool {
        distinct_pairs(slot_models(self.slots@))
    }

    /// An empty cache.
    pub fn new() -> (c: CacheStore)
        ensures
            c.wf(),
            c@ == Map::<(Seq<char>, Seq<char>), Seq<u8>>::empty(),
    {
        let c = CacheStore { slots: Vec::new() };
        proof {
            assert(slot_models(c.slots@) =~= Seq::<SlotModel>::empty());
        }
        c
    }

    /// The first slot carrying `(ns, key)`, valid or not.
    fn find(&self, ns: &String, key: &String) -> (r: Option<usize>)
        ensures
            r matches Some(i) ==> i < self.slots@.len() && slot_models(self.slots@)[i as int].ns
                == ns@ && slot_models(self.slots@)[i as int].key == key@,
            r is None ==> forall|k: int|
                0 <= k < self.slots@.len() ==> !((#[trigger] slot_models(self.slots@)[k]).ns == ns@
                    && slot_models(self.slots@)[k].key == key@),
    {
        let n = self.slots.len();
        let mut i: usize = 0;
        while i < n
            invariant
                i <= n,
                n == self.slots@.len(),
                forall|k: int|
                    0 <= k < i ==> !((#[trigger] slot_models(self.slots@)[k]).ns == ns@
                        && slot_models(self.slots@)[k].key == key@),
            decreases n - i,
        {
            if self.slots[i].ns.eq(ns) && self.slots[i].key.eq(key) {
                return Some(i);
            }
            i = i + 1;
        }
        None
    }

    /// Return the stored body iff one is present and currently valid;
    /// a miss or a previously invalidated entry yields nothing — never
    /// a stale body.
    pub fn get(&self, ns: &String, key: &String) -> (r: Option<Vec<u8>>)
        requires
            self.wf(),
        ensures
            self@.contains_key((ns@, key@)) ==> (r matches Some(b) && b@ == self@[(ns@, key@)]),
            !self@.contains_key((ns@, key@)) ==> r is None,
    {
        proof {
            lemma_cache_dom(slot_models(self.slots@));
        }
        match self.find(ns, key) {
            Some(i) => {
                if self.slots[i].valid {
                    proof {
                        lemma_cache_value(slot_models(self.slots@), i as int);
                    }
                    Some(clone_bytes(&self.slots[i].body))
                } else {
                    proof {
                        assert forall|k: int|
                            0 <= k < self.slots@.len() implies !((#[trigger] slot_models(
                            self.slots@,
                        )[k]).valid && slot_models(self.slots@)[k].ns == ns@ && slot_models(
                            self.slots@,
                        )[k].key == key@) by {
                            if k != i {
                                assert(!(slot_models(self.slots@)[k].ns == ns@ && slot_models(
                                    self.slots@,
                                )[k].key == key@));
                            }
                        }
                        assert(!has_pair(slot_models(self.slots@), (ns@, key@)));
                    }
                    None
                }
            },
            None => {
                proof {
                    assert(!has_pair(slot_models(self.slots@), (ns@, key@)));
                }
                None
            },
        }
    }

    /// Store or overwrite unconditionally; call-order decides between
    /// two racing writers.
    pub fn set(&mut self, ns: &String, key: &String, body: Vec<u8>)
        requires
            old(self).wf(),
        ensures
            final(self).wf(),
            final(self)@ == old(self)@.insert((ns@, key@), body@),
    {
        let ghost s = slot_models(self.slots@);
        match self.find(ns, key) {
            Some(i) => {
                let ghost slot2 = SlotModel { ns: ns@, key: key@, body: body@, valid: true };
                proof {
                    lemma_cache_update(s, i as int, slot2);
                }
                let fresh = CacheSlot { ns: clone_string(ns), key: clone_string(key), body, valid: true };
                self.slots[i] = fresh;
                proof {
                    assert(slot_models(self.slots@) =~= s.update(i as int, slot2));
                    assert forall|a: int, b: int|
                        #![trigger s.update(i as int, slot2)[a], s.update(i as int, slot2)[b]]
                        0 <= a < b < s.update(i as int, slot2).len() implies !(s.update(
                        i as int,
                        slot2,
                    )[a].ns == s.update(i as int, slot2)[b].ns && s.update(i as int, slot2)[a].key
                        == s.update(i as int, slot2)[b].key) by {
                        assert(s.update(i as int, slot2)[a] == if a == i {
                            slot2
                        } else {
                            s[a]
                        });
                        assert(s.update(i as int, slot2)[b] == if b == i {
                            slot2
                        } else {
                            s[b]
                        });
                    }
                }
            },
            None => {
                let ghost slot2 = SlotModel { ns: ns@, key: key@, body: body@, valid: true };
                let fresh = CacheSlot { ns: clone_string(ns), key: clone_string(key), body, valid: true };
                self.slots.push(fresh);
                proof {
                    assert(slot_models(self.slots@) =~= s.push(slot2));
                    assert(s.push(slot2).drop_last() =~= s);
                    assert forall|a: int, b: int|
                        #![trigger s.push(slot2)[a], s.push(slot2)[b]]
                        0 <= a < b < s.push(slot2).len() implies !(s.push(slot2)[a].ns
                        == s.push(slot2)[b].ns && s.push(slot2)[a].key == s.push(
                        slot2,
                    )[b].key) by {
                        if b == s.len() {
                            assert(s.push(slot2)[a] == s[a]);
                            assert(s.push(slot2)[b] == slot2);
                        } else {
                            assert(s.push(slot2)[a] == s[a]);
                            assert(s.push(slot2)[b] == s[b]);
                        }
                    }
                }
            },
        }
    }

    /// Remove the entry: every later `get` for this key misses until
    /// someone repopulates it.
    pub fn invalidate(&mut self, ns: &String, key: &String)
        requires
            old(self).wf(),
        ensures
            final(self).wf(),
            final(self)@ == old(self)@.remove((ns@, key@)),
    {
        let ghost s = slot_models(self.slots@);
        proof {
            lemma_cache_dom(s);
        }
        match self.find(ns, key) {
            Some(i) => {
                let ghost slot2 = SlotModel { ns: ns@, key: key@, body: s[i as int].body, valid: false };
                proof {
                    lemma_cache_update(s, i as int, slot2);
                }
                let body2 = clone_bytes(&self.slots[i].body);
                let fresh = CacheSlot { ns: clone_string(ns), key: clone_string(key), body: body2, valid: false };
                self.slots[i] = fresh;
                proof {
                    assert(slot_models(self.slots@) =~= s.update(i as int, slot2));
                    assert forall|a: int, b: int|
                        #![trigger s.update(i as int, slot2)[a], s.update(i as int, slot2)[b]]
                        0 <= a < b < s.update(i as int, slot2).len() implies !(s.update(
                        i as int,
                        slot2,
                    )[a].ns == s.update(i as int, slot2)[b].ns && s.update(i as int, slot2)[a].key
                        == s.update(i as int, slot2)[b].key) by {
                        assert(s.update(i as int, slot2)[a] == if a == i {
                            slot2
                        } else {
                            s[a]
                        });
                        assert(s.update(i as int, slot2)[b] == if b == i {
                            slot2
                        } else {
                            s[b]
                        });
                    }
                }
            },
            None => {
                proof {
                    assert(!has_pair(s, (ns@, key@)));
                    assert(!old(self)@.contains_key((ns@, key@)));
                    assert(old(self)@.remove((ns@, key@)) =~= old(self)@);
                }
            },
        }
    }

    /// Drop every entry of one namespace, for mutations whose reach
    /// within the namespace is unbounded.
    pub fn invalidate_all(&mut self, ns: &String)
        requires
            old(self).wf(),
        ensures
            final(self).wf(),
            forall|p: (Seq<char>, Seq<char>)|
                p.0 == ns@ ==> !(#[trigger] final(self)@.contains_key(p)),
            forall|p: (Seq<char>, Seq<char>)|
                p.0 != ns@ ==> (#[trigger] final(self)@.contains_key(p)
                    == old(self)@.contains_key(p) && (old(self)@.contains_key(p) ==> final(self)@[p]
                    == old(self)@[p])),
    {
        let n = self.slots.len();
        let mut i: usize = 0;
        while i < n
            invariant
                i <= n,
                n == self.slots@.len(),
                self.slots@.len() == old(self).slots@.len(),
                distinct_pairs(slot_models(self.slots@)),
                forall|k: int|
                    0 <= k < i ==> !((#[trigger] slot_models(self.slots@)[k]).valid && slot_models(
                        self.slots@,
                    )[k].ns == ns@),
                forall|k: int|
                    0 <= k < self.slots@.len() ==> ((#[trigger] slot_models(self.slots@)[k]).ns,
                    slot_models(self.slots@)[k].key) == (
                        slot_models(old(self).slots@)[k].ns,
                        slot_models(old(self).slots@)[k].key,
                    ),
                forall|k: int|
                    i <= k < self.slots@.len() ==> #[trigger] slot_models(self.slots@)[k]
                        == slot_models(old(self).slots@)[k],
                cache_model(slot_models(self.slots@)) == old(self)@.remove_keys(
                    removed_prefix(slot_models(old(self).slots@), ns@, i as int),
                ),
            decreases n - i,
        {
            let ghost s = slot_models(self.slots@);
            let slot_valid = self.slots[i].valid;
            let slot_in_ns = self.slots[i].ns.eq(ns);
            proof {
                assert(slot_valid == s[i as int].valid);
                assert(slot_in_ns == (s[i as int].ns == ns@));
            }
            if slot_valid && slot_in_ns {
                let ghost slot2 = SlotModel {
                    ns: s[i as int].ns,
                    key: s[i as int].key,
                    body: s[i as int].body,
                    valid: false,
                };
                proof {
                    lemma_cache_update(s, i as int, slot2);
                }
                let body2 = clone_bytes(&self.slots[i].body);
                let key2 = clone_string(&self.slots[i].key);
                let ns2 = clone_string(&self.slots[i].ns);
                let fresh = CacheSlot { ns: ns2, key: key2, body: body2, valid: false };
                self.slots[i] = fresh;
                proof {
                    assert(slot_models(self.slots@) =~= s.update(i as int, slot2));
                    assert forall|a: int, b: int|
                        #![trigger s.update(i as int, slot2)[a], s.update(i as int, slot2)[b]]
                        0 <= a < b < s.update(i as int, slot2).len() implies !(s.update(
                        i as int,
                        slot2,
                    )[a].ns == s.update(i as int, slot2)[b].ns && s.update(i as int, slot2)[a].key
                        == s.update(i as int, slot2)[b].key) by {
                        assert(s.update(i as int, slot2)[a] == if a == i {
                            slot2
                        } else {
                            s[a]
                        });
                        assert(s.update(i as int, slot2)[b] == if b == i {
                            slot2
                        } else {
                            s[b]
                        });
                    }
                    let s0 = slot_models(old(self).slots@);
                    assert(s[i as int] == s0[i as int]);
                    assert forall|q: (Seq<char>, Seq<char>)|
                        removed_prefix(s0, ns@, i + 1).contains(q) == removed_prefix(
                            s0,
                            ns@,
                            i as int,
                        ).insert((slot2.ns, slot2.key)).contains(q) by {
                        if removed_prefix(s0, ns@, i + 1).contains(q) {
                            let k = choose|k: int|
                                0 <= k < i + 1 && k < s0.len() && (#[trigger] s0[k]).valid && s0[
                                    k
                                ].ns == q.0 && s0[k].key == q.1 && q.0 == ns@;
                            if k < i {
                                assert(removed_prefix(s0, ns@, i as int).contains(q));
                            } else {
                                assert(q == (slot2.ns, slot2.key));
                            }
                        }
                        if removed_prefix(s0, ns@, i as int).contains(q) {
                            let k = choose|k: int|
                                0 <= k < i && k < s0.len() && (#[trigger] s0[k]).valid && s0[
                                    k
                                ].ns == q.0 && s0[k].key == q.1 && q.0 == ns@;
                            assert(removed_prefix(s0, ns@, i + 1).contains(q));
                        }
                        if q == (slot2.ns, slot2.key) {
                            assert(0 <= i < s0.len() && s0[i as int].valid && s0[i as int].ns == q.0
                                && s0[i as int].key == q.1 && q.0 == ns@);
                            assert(removed_prefix(s0, ns@, i + 1).contains(q));
                        }
                    }
                    assert(removed_prefix(s0, ns@, i + 1) =~= removed_prefix(
                        s0,
                        ns@,
                        i as int,
                    ).insert((slot2.ns, slot2.key)));
                    assert(cache_model(slot_models(self.slots@)) =~= old(self)@.remove_keys(
                        removed_prefix(s0, ns@, i + 1),
                    ));
                }
            } else {
                proof {
                    let s0 = slot_models(old(self).slots@);
                    assert(s[i as int] == s0[i as int]);
                    assert forall|q: (Seq<char>, Seq<char>)|
                        removed_prefix(s0, ns@, i + 1).contains(q) == removed_prefix(
                            s0,
                            ns@,
                            i as int,
                        ).contains(q) by {
                        if removed_prefix(s0, ns@, i + 1).contains(q) {
                            let k = choose|k: int|
                                0 <= k < i + 1 && k < s0.len() && (#[trigger] s0[k]).valid && s0[
                                    k
                                ].ns == q.0 && s0[k].key == q.1 && q.0 == ns@;
                            assert(k < i);
                            assert(removed_prefix(s0, ns@, i as int).contains(q));
                        }
                        if removed_prefix(s0, ns@, i as int).contains(q) {
                            let k = choose|k: int|
                                0 <= k < i && k < s0.len() && (#[trigger] s0[k]).valid && s0[
                                    k
                                ].ns == q.0 && s0[k].key == q.1 && q.0 == ns@;
                            assert(removed_prefix(s0, ns@, i + 1).contains(q));
                        }
                    }
                    assert(removed_prefix(s0, ns@, i + 1) =~= removed_prefix(s0, ns@, i as int));
                }
            }
            i = i + 1;
        }
        proof {
            lemma_cache_dom(slot_models(self.slots@));
            lemma_cache_dom(slot_models(old(self).slots@));
            assert forall|p: (Seq<char>, Seq<char>)|
                p.0 == ns@ implies !(#[trigger] self@.contains_key(p)) by {
                if has_pair(slot_models(self.slots@), p) {
                    let k = choose|k: int|
                        0 <= k < slot_models(self.slots@).len() && slot_models(self.slots@)[
                            k
                        ].valid && slot_models(self.slots@)[k].ns == p.0 && slot_models(
                            self.slots@,
                        )[k].key == p.1;
                    assert(false);
                }
            }
        }
    }

    /// Drop every entry of one namespace whose key starts with
    /// `prefix`: invalidation that must reach every paginated partition
    /// of one instance at once.
    pub fn invalidate_prefix(&mut self, ns: &String, prefix: &String)
        requires
            old(self).wf(),
        ensures
            final(self).wf(),
            forall|p: (Seq<char>, Seq<char>)|
                p.0 == ns@ && key_starts_with(p.1, prefix@)
                    ==> !(#[trigger] final(self)@.contains_key(p)),
            forall|p: (Seq<char>, Seq<char>)|
                !(p.0 == ns@ && key_starts_with(p.1, prefix@))
                    ==> (#[trigger] final(self)@.contains_key(p) == old(self)@.contains_key(p)
                    && (old(self)@.contains_key(p) ==> final(self)@[p] == old(self)@[p])),
    {
        let n = self.slots.len();
        let mut i: usize = 0;
        while i < n
            invariant
                i <= n,
                n == self.slots@.len(),
                self.slots@.len() == old(self).slots@.len(),
                distinct_pairs(slot_models(self.slots@)),
                forall|k: int|
                    0 <= k < i ==> !((#[trigger] slot_models(self.slots@)[k]).valid && slot_models(
                        self.slots@,
                    )[k].ns == ns@ && key_starts_with(slot_models(self.slots@)[k].key, prefix@)),
                forall|k: int|
                    0 <= k < self.slots@.len() ==> ((#[trigger] slot_models(self.slots@)[k]).ns,
                    slot_models(self.slots@)[k].key) == (
                        slot_models(old(self).slots@)[k].ns,
                        slot_models(old(self).slots@)[k].key,
                    ),
                forall|k: int|
                    i <= k < self.slots@.len() ==> #[trigger] slot_models(self.slots@)[k]
                        == slot_models(old(self).slots@)[k],
                cache_model(slot_models(self.slots@)) == old(self)@.remove_keys(
                    removed_matching(slot_models(old(self).slots@), ns@, prefix@, i as int),
                ),
            decreases n - i,
        {
            let ghost s = slot_models(self.slots@);
            let slot_valid = self.slots[i].valid;
            let slot_in_ns = self.slots[i].ns.eq(ns);
            let slot_pre = string_starts_with(&self.slots[i].key, prefix);
            proof {
                assert(slot_valid == s[i as int].valid);
                assert(slot_in_ns == (s[i as int].ns == ns@));
                assert(slot_pre == key_starts_with(s[i as int].key, prefix@));
            }
            if slot_valid && slot_in_ns && slot_pre {
                let ghost slot2 = SlotModel {
                    ns: s[i as int].ns,
                    key: s[i as int].key,
                    body: s[i as int].body,
                    valid: false,
                };
                proof {
                    lemma_cache_update(s, i as int, slot2);
                }
                let body2 = clone_bytes(&self.slots[i].body);
                let key2 = clone_string(&self.slots[i].key);
                let ns2 = clone_string(&self.slots[i].ns);
                let fresh = CacheSlot { ns: ns2, key: key2, body: body2, valid: false };
                self.slots[i] = fresh;
                proof {
                    assert(slot_models(self.slots@) =~= s.update(i as int, slot2));
                    assert forall|a: int, b: int|
                        #![trigger s.update(i as int, slot2)[a], s.update(i as int, slot2)[b]]
                        0 <= a < b < s.update(i as int, slot2).len() implies !(s.update(
                        i as int,
                        slot2,
                    )[a].ns == s.update(i as int, slot2)[b].ns && s.update(i as int, slot2)[a].key
                        == s.update(i as int, slot2)[b].key) by {
                        assert(s.update(i as int, slot2)[a] == if a == i {
                            slot2
                        } else {
                            s[a]
                        });
                        assert(s.update(i as int, slot2)[b] == if b == i {
                            slot2
                        } else {
                            s[b]
                        });
                    }
                    let s0 = slot_models(old(self).slots@);
                    assert(s[i as int] == s0[i as int]);
                    assert forall|q: (Seq<char>, Seq<char>)|
                        removed_matching(s0, ns@, prefix@, i + 1).contains(q) == removed_matching(
                            s0,
                            ns@,
                            prefix@,
                            i as int,
                        ).insert((slot2.ns, slot2.key)).contains(q) by {
                        if removed_matching(s0, ns@, prefix@, i + 1).contains(q) {
                            let k = choose|k: int|
                                0 <= k < i + 1 && k < s0.len() && (#[trigger] s0[k]).valid && s0[
                                    k
                                ].ns == q.0 && s0[k].key == q.1 && q.0 == ns@ && key_starts_with(
                                    q.1,
                                    prefix@,
                                );
                            if k < i {
                                assert(removed_matching(s0, ns@, prefix@, i as int).contains(q));
                            } else {
                                assert(q == (slot2.ns, slot2.key));
                            }
                        }
                        if removed_matching(s0, ns@, prefix@, i as int).contains(q) {
                            let k = choose|k: int|
                                0 <= k < i && k < s0.len() && (#[trigger] s0[k]).valid && s0[
                                    k
                                ].ns == q.0 && s0[k].key == q.1 && q.0 == ns@ && key_starts_with(
                                    q.1,
                                    prefix@,
                                );
                            assert(removed_matching(s0, ns@, prefix@, i + 1).contains(q));
                        }
                        if q == (slot2.ns, slot2.key) {
                            assert(0 <= i < s0.len() && s0[i as int].valid && s0[i as int].ns == q.0
                                && s0[i as int].key == q.1 && q.0 == ns@ && key_starts_with(
                                q.1,
                                prefix@,
                            ));
                            assert(removed_matching(s0, ns@, prefix@, i + 1).contains(q));
                        }
                    }
                    assert(removed_matching(s0, ns@, prefix@, i + 1) =~= removed_matching(
                        s0,
                        ns@,
                        prefix@,
                        i as int,
                    ).insert((slot2.ns, slot2.key)));
                    assert(cache_model(slot_models(self.slots@)) =~= old(self)@.remove_keys(
                        removed_matching(s0, ns@, prefix@, i + 1),
                    ));
                }
            } else {
                proof {
                    let s0 = slot_models(old(self).slots@);
                    assert(s[i as int] == s0[i as int]);
                    assert forall|q: (Seq<char>, Seq<char>)|
                        removed_matching(s0, ns@, prefix@, i + 1).contains(q) == removed_matching(
                            s0,
                            ns@,
                            prefix@,
                            i as int,
                        ).contains(q) by {
                        if removed_matching(s0, ns@, prefix@, i + 1).contains(q) {
                            let k = choose|k: int|
                                0 <= k < i + 1 && k < s0.len() && (#[trigger] s0[k]).valid && s0[
                                    k
                                ].ns == q.0 && s0[k].key == q.1 && q.0 == ns@ && key_starts_with(
                                    q.1,
                                    prefix@,
                                );
                            assert(k < i);
                            assert(removed_matching(s0, ns@, prefix@, i as int).contains(q));
                        }
                        if removed_matching(s0, ns@, prefix@, i as int).contains(q) {
                            let k = choose|k: int|
                                0 <= k < i && k < s0.len() && (#[trigger] s0[k]).valid && s0[
                                    k
                                ].ns == q.0 && s0[k].key == q.1 && q.0 == ns@ && key_starts_with(
                                    q.1,
                                    prefix@,
                                );
                            assert(removed_matching(s0, ns@, prefix@, i + 1).contains(q));
                        }
                    }
                    assert(removed_matching(s0, ns@, prefix@, i + 1) =~= removed_matching(s0, ns@, prefix@, i as int));
                }
            }
            i = i + 1;
        }
        proof {
            lemma_cache_dom(slot_models(self.slots@));
            lemma_cache_dom(slot_models(old(self).slots@));
            assert forall|p: (Seq<char>, Seq<char>)|
                p.0 == ns@ && key_starts_with(p.1, prefix@) implies !(#[trigger] self@.contains_key(
                p,
            )) by {
                if has_pair(slot_models(self.slots@), p) {
                    let k = choose|k: int|
                        0 <= k < slot_models(self.slots@).len() && slot_models(self.slots@)[
                            k
                        ].valid && slot_models(self.slots@)[k].ns == p.0 && slot_models(
                            self.slots@,
                        )[k].key == p.1;
                    assert(false);
                }
            }
        }
    }
}

/// The pairs of the first `upto` slots that belong to `ns`.
pub open spec fn removed_prefix(s: Seq<SlotModel>, ns: Seq<char>, upto: int) -> Set<
    (Seq<char>, Seq<char>),
> {
    Set::new(
        |p: (Seq<char>, Seq<char>)|
            exists|k: int|
                0 <= k < upto && k < s.len() && (#[trigger] s[k]).valid && s[k].ns == p.0 && s[
                    k
                ].key == p.1 && p.0 == ns,
    )
}

/// Whether `pre` is a prefix of `s`.
fn string_starts_with(s: &String, pre: &String) -> (r: bool)
    ensures
        r == key_starts_with(s@, pre@),
{
    let sl = s.as_str().unicode_len();
    let pl = pre.as_str().unicode_len();
    if pl > sl {
        return false;
    }
    let head = s.as_str().substring_char(0, pl).to_owned();
    proof {
        assert(head@ == s@.take(pre@.len() as int));
    }
    head.eq(pre)
}

/// The pairs of the first `upto` slots that belong to `ns` and whose
/// key starts with `pre`.
pub open spec fn removed_matching(
    s: Seq<SlotModel>,
    ns: Seq<char>,
    pre: Seq<char>,
    upto: int,
) -> Set<(Seq<char>, Seq<char>)> {
    Set::new(
        |p: (Seq<char>, Seq<char>)|
            exists|k: int|
                0 <= k < upto && k < s.len() && (#[trigger] s[k]).valid && s[k].ns == p.0 && s[
                    k
                ].key == p.1 && p.0 == ns && key_starts_with(p.1, pre),
    )
}

/// Copies a string.
fn clone_string(s: &String) -> (r: String)
    ensures
        r@ == s@,
{
    s.clone()
}

/// An entry just invalidated is gone: a `get` through the model misses.
pub proof fn lemma_invalidate_then_miss(
    m: Map<(Seq<char>, Seq<char>), Seq<u8>>,
    p: (Seq<char>, Seq<char>),
)
    ensures
        !m.remove(p).contains_key(p),
{
}

} // verus!
