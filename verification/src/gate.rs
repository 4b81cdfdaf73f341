//! The cache gate around the request lifecycle: before a handler runs
//! it may serve a stored body; after a handler runs it stores the body
//! on a miss; mutating routes invalidate the partitions they affect.

use vstd::prelude::*;
use vstd::string::StringExecFns;

use crate::auth::{is_admin, is_admin_role};
use crate::cache::{key_starts_with, CacheStore};
use crate::docs::clone_bytes;

verus! {

/// The character of one decimal digit.
pub open spec fn digit_char(d: int) -> char {
    if d == 0 {
        '0'
    } else if d == 1 {
        '1'
    } else if d == 2 {
        '2'
    } else if d == 3 {
        '3'
    } else if d == 4 {
        '4'
    } else if d == 5 {
        '5'
    } else if d == 6 {
        '6'
    } else if d == 7 {
        '7'
    } else if d == 8 {
        '8'
    } else {
        '9'
    }
}

/// The decimal digits of a non-negative number, most significant
/// first.
pub open spec fn dec_chars(n: int) -> Seq<char>
    decreases n,
{
    if n < 10 {
        seq![digit_char(n)]
    } else {
        dec_chars(n / 10).push(digit_char(n % 10))
    }
}

/// Decimal text of a number, with a leading minus sign when negative.
pub open spec fn int_chars(n: int) -> Seq<char> {
    if n < 0 {
        seq!['-'] + dec_chars(-n)
    } else {
        dec_chars(n)
    }
}

/// The cache partition key of a section page: the section identifier,
/// a colon, and the page number.
pub open spec fn part_key(id: Seq<char>, page: int) -> Seq<char> {
    id + seq![':'] + int_chars(page)
}

/// The namespace of section pages.
pub open spec fn section_ns() -> Seq<char> {
    "section"@
}

/// The namespace and key of the front page's single cache entry.
pub open spec fn index_ns() -> Seq<char> {
    "index"@
}

fn append_digit(out: &mut String, d: u64)
    requires
        d < 10,
    ensures
        final(out)@ == old(out)@ + seq![digit_char(d as int)],
{
    if d == 0 {
        proof {
            reveal_strlit("0");
        }
        out.append("0");
        proof {
            assert(("0")@ =~= seq![digit_char(0)]);
        }
    } else if d == 1 {
        proof {
            reveal_strlit("1");
        }
        out.append("1");
        proof {
            assert(("1")@ =~= seq![digit_char(1)]);
        }
    } else if d == 2 {
        proof {
            reveal_strlit("2");
        }
        out.append("2");
        proof {
            assert(("2")@ =~= seq![digit_char(2)]);
        }
    } else if d == 3 {
        proof {
            reveal_strlit("3");
        }
        out.append("3");
        proof {
            assert(("3")@ =~= seq![digit_char(3)]);
        }
    } else if d == 4 {
        proof {
            reveal_strlit("4");
        }
        out.append("4");
        proof {
            assert(("4")@ =~= seq![digit_char(4)]);
        }
    } else if d == 5 {
        proof {
            reveal_strlit("5");
        }
        out.append("5");
        proof {
            assert(("5")@ =~= seq![digit_char(5)]);
        }
    } else if d == 6 {
        proof {
            reveal_strlit("6");
        }
        out.append("6");
        proof {
            assert(("6")@ =~= seq![digit_char(6)]);
        }
    } else if d == 7 {
        proof {
            reveal_strlit("7");
        }
        out.append("7");
        proof {
            assert(("7")@ =~= seq![digit_char(7)]);
        }
    } else if d == 8 {
        proof {
            reveal_strlit("8");
        }
        out.append("8");
        proof {
            assert(("8")@ =~= seq![digit_char(8)]);
        }
    } else {
        proof {
            reveal_strlit("9");
        }
        out.append("9");
        proof {
            assert(("9")@ =~= seq![digit_char(9)]);
        }
    }
}

fn append_dec(out: &mut String, n: u64)
    ensures
        final(out)@ == old(out)@ + dec_chars(n as int),
    decreases n,
{
    if n >= 10 {
        append_dec(out, n / 10);
        append_digit(out, n % 10);
        proof {
            assert(final(out)@ =~= old(out)@ + dec_chars(n as int));
        }
    } else {
        append_digit(out, n);
        proof {
            assert(final(out)@ =~= old(out)@ + dec_chars(n as int));
        }
    }
}

/// Builds the partition key `<section-id>:<page>` of a section page.
pub fn partition_key(section_id: &String, page: i64) -> (k: String)
    ensures
        k@ == part_key(section_id@, page as int),
{
    let mut k = section_id.clone();
    proof {
        reveal_strlit(":");
    }
    k.append(":");
    proof {
        assert((":")@ =~= seq![':']);
    }
    if page < 0 {
        proof {
            reveal_strlit("-");
        }
        k.append("-");
        proof {
            assert(("-")@ =~= seq!['-']);
        }
        let m: u64 = ((-(page + 1)) as u64) + 1;
        proof {
            assert(m as int == -(page as int));
        }
        append_dec(&mut k, m);
        proof {
            assert(k@ =~= part_key(section_id@, page as int));
        }
    } else {
        append_dec(&mut k, page as u64);
        proof {
            assert(k@ =~= part_key(section_id@, page as int));
        }
    }
    k
}

fn section_ns_string() -> (s: String)
    ensures
        s@ == section_ns(),
{
    String::from_str("section")
}

fn index_ns_string() -> (s: String)
    ensures
        s@ == index_ns(),
{
    String::from_str("index")
}

/// The cache keys an edit of `section_id` makes stale: the front
/// page's entry, the section's bare-identifier entry, and every
/// paginated partition of that section.
pub open spec fn edit_stales(section_id: Seq<char>, p: (Seq<char>, Seq<char>)) -> bool {
    (p.0 == index_ns() && p.1 == index_ns()) || (p.0 == section_ns() && (p.1 == section_id
        || key_starts_with(p.1, section_id + seq![':'])))
}

/// One request as the route table resolves it.
pub enum Route {
    /// A section or blog page view: cacheable, keyed by section and
    /// page number.
    SectionView { section_id: String, page: i64 },
    /// Creating a section: the front page's cache entry goes stale.
    SectionCreate,
    /// Editing a section: the front page's entry and every cache
    /// entry of that section, paginated partitions included, go stale.
    SectionEdit { section_id: String },
    /// Reordering the sections: the front page's cache entry goes
    /// stale.
    SectionRearrange,
    /// Any other route: no caching, no invalidation.
    Other,
}

/// Wraps the request lifecycle around the cache store.
pub struct CacheGate {
    store: CacheStore,
    enabled: bool,
}

impl CacheGate {
    /// The store's contents.
    pub closed spec fn store_view(&self) -> Map<(Seq<char>, Seq<char>), Seq<u8>> {
        self.store@
    }

    /// Whether cached bodies may be served at all.
    pub closed spec fn is_enabled(&self) -> bool {
        self.enabled
    }

    /// Well-formed: the store is.
    pub closed spec fn wf(&self) -> bool {
        self.store.wf()
    }

    /// A gate over an empty store.
    pub fn new(enabled: bool) -> (g: CacheGate)
        ensures
            g.wf(),
            g.is_enabled() == enabled,
            g.store_view() == Map::<(Seq<char>, Seq<char>), Seq<u8>>::empty(),
    {
        CacheGate { store: CacheStore::new(), enabled }
    }

    /// Before the handler: on a cacheable route, with caching enabled
    /// and the caller no administrator (administrators always see live
    /// content), a valid entry short-circuits with the stored body; in
    /// every other case the handler runs.
    pub fn before(&self, route: &Route, role: Option<i32>) -> (r: Option<Vec<u8>>)
        requires
            self.wf(),
        ensures
            match route {
                Route::SectionView { section_id, page } => {
                    let kk = (section_ns(), part_key(section_id@, *page as int));
                    &&& (self.is_enabled() && !is_admin_role(role)
                        && self.store_view().contains_key(kk)) ==> (r matches Some(b) && b@
                        == self.store_view()[kk])
                    &&& !(self.is_enabled() && !is_admin_role(role)
                        && self.store_view().contains_key(kk)) ==> r is None
                },
                _ => r is None,
            },
    {
        if !self.enabled {
            return None;
        }
        if is_admin(role) {
            return None;
        }
        match route {
            Route::SectionView { section_id, page } => {
                let key = partition_key(section_id, *page);
                let ns = section_ns_string();
                self.store.get(&ns, &key)
            },
            _ => None,
        }
    }

    /// After the handler: store the rendered body on a view route's
    /// miss (never overwriting a hit), and on mutating routes drop the
    /// partitions the mutation affects.
    pub fn after(&mut self, route: &Route, body: &Vec<u8>)
        requires
            old(self).wf(),
        ensures
            final(self).wf(),
            final(self).is_enabled() == old(self).is_enabled(),
            match route {
                Route::SectionView { section_id, page } => {
                    let kk = (section_ns(), part_key(section_id@, *page as int));
                    &&& old(self).store_view().contains_key(kk) ==> final(self).store_view()
                        == old(self).store_view()
                    &&& !old(self).store_view().contains_key(kk) ==> final(self).store_view()
                        == old(self).store_view().insert(kk, body@)
                },
                Route::SectionCreate | Route::SectionRearrange => final(self).store_view() == old(
                    self,
                ).store_view().remove((index_ns(), index_ns())),
                Route::SectionEdit { section_id } => {
                    &&& forall|p: (Seq<char>, Seq<char>)|
                        edit_stales(section_id@, p)
                            ==> !(#[trigger] final(self).store_view().contains_key(p))
                    &&& forall|p: (Seq<char>, Seq<char>)|
                        !edit_stales(section_id@, p)
                            ==> (#[trigger] final(self).store_view().contains_key(p)
                            == old(self).store_view().contains_key(p)
                            && (old(self).store_view().contains_key(p)
                            ==> final(self).store_view()[p] == old(self).store_view()[p]))
                },
                Route::Other => final(self).store_view() == old(self).store_view(),
            },
    {
        match route {
            Route::SectionView { section_id, page } => {
                let key = partition_key(section_id, *page);
                let ns = section_ns_string();
                let hit = self.store.get(&ns, &key);
                match hit {
                    Some(_) => {},
                    None => {
                        self.store.set(&ns, &key, clone_bytes(body));
                    },
                }
            },
            Route::SectionCreate | Route::SectionRearrange => {
                let ns = index_ns_string();
                let key = index_ns_string();
                self.store.invalidate(&ns, &key);
            },
            Route::SectionEdit { section_id } => {
                let ns = index_ns_string();
                let key = index_ns_string();
                self.store.invalidate(&ns, &key);
                let sns = section_ns_string();
                self.store.invalidate(&sns, section_id);
                let mut pre = section_id.clone();
                proof {
                    reveal_strlit(":");
                }
                pre.append(":");
                proof {
                    assert((":")@ =~= seq![':']);
                    assert(pre@ == section_id@ + seq![':']);
                }
                self.store.invalidate_prefix(&sns, &pre);
                proof {
                    reveal_strlit("index");
                    reveal_strlit("section");
                    assert(index_ns().len() == 5);
                    assert(section_ns().len() == 7);
                    assert(index_ns() != section_ns());
                    let m0 = old(self).store_view();
                    let ii = (index_ns(), index_ns());
                    let si = (section_ns(), section_id@);
                    let m2 = m0.remove(ii).remove(si);
                    assert forall|p: (Seq<char>, Seq<char>)|
                        edit_stales(section_id@, p) implies !(#[trigger] self.store_view(
                    ).contains_key(p)) by {
                        if p.0 == section_ns() && key_starts_with(p.1, section_id@ + seq![':']) {
                        } else if p == si {
                            assert(!key_starts_with(p.1, section_id@ + seq![':']));
                            assert(self.store_view().contains_key(p) == m2.contains_key(p));
                        } else {
                            assert(p == ii);
                            assert(p.0 != section_ns());
                            assert(self.store_view().contains_key(p) == m2.contains_key(p));
                        }
                    }
                    assert forall|p: (Seq<char>, Seq<char>)|
                        !edit_stales(section_id@, p) implies (#[trigger] self.store_view(
                    ).contains_key(p) == m0.contains_key(p) && (m0.contains_key(p)
                        ==> self.store_view()[p] == m0[p])) by {
                        assert(p != ii);
                        assert(p != si);
                        assert(!(p.0 == section_ns() && key_starts_with(
                            p.1,
                            section_id@ + seq![':'],
                        )));
                        assert(self.store_view().contains_key(p) == m2.contains_key(p));
                        assert(m2.contains_key(p) == m0.contains_key(p));
                    }
                }
            },
            Route::Other => {},
        }
    }

    /// Store a body directly, as the miss path does.
    pub fn store_body(&mut self, ns: &String, key: &String, body: Vec<u8>)
        requires
            old(self).wf(),
        ensures
            final(self).wf(),
            final(self).is_enabled() == old(self).is_enabled(),
            final(self).store_view() == old(self).store_view().insert((ns@, key@), body@),
    {
        self.store.set(ns, key, body);
    }

    /// Read a body directly, as the hit path does.
    pub fn lookup(&self, ns: &String, key: &String) -> (r: Option<Vec<u8>>)
        requires
            self.wf(),
        ensures
            self.store_view().contains_key((ns@, key@)) ==> (r matches Some(b) && b@
                == self.store_view()[(ns@, key@)]),
            !self.store_view().contains_key((ns@, key@)) ==> r is None,
    {
        self.store.get(ns, key)
    }
}

} // verus!
