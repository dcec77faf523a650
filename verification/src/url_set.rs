//! Sets of relay URLs, kept as strictly ascending lists.

use vstd::prelude::*;
use crate::order::lemma_strictly_sorted_unique;
use crate::url::lemma_url_lt_asymmetric;
use crate::url::lemma_url_lt_irreflexive;
use crate::url::lemma_url_lt_total;
use crate::url::lemma_url_lt_transitive;
use crate::url::url_lt;
use crate::url::RelayUrl;

verus! {

/// The URLs as strings.
pub open spec fn url_views(urls: Seq<RelayUrl>) -> Seq<Seq<char>> {
    urls.map_values(|url: RelayUrl| url@)
}

/// Each URL of the list comes strictly before those behind it: the list is
/// sorted and holds nothing twice.
pub open spec fn ascending(urls: Seq<Seq<char>>) -> bool {
    forall|i: int, j: int| 0 <= i < j < urls.len() ==> url_lt(#[trigger] urls[i], #[trigger] urls[j])
}

/// `urls` lists `set` in ascending order.
pub open spec fn lists_ascending(urls: Seq<Seq<char>>, set: Set<Seq<char>>) -> bool {
    ascending(urls) && urls.to_set() == set
}

/// An ascending list holds no URL twice.
pub proof fn lemma_ascending_no_duplicates(urls: Seq<Seq<char>>)
    requires
        ascending(urls),
    ensures
        urls.no_duplicates(),
{
    assert forall|i: int, j: int| 0 <= i < urls.len() && 0 <= j < urls.len() && i != j implies urls[i]
        != urls[j] by {
        if i < j {
            assert(url_lt(urls[i], urls[j]));
        } else {
            assert(url_lt(urls[j], urls[i]));
        }
        lemma_url_lt_irreflexive(urls[i]);
    }
}

/// A set of URLs has one ascending list only.
pub proof fn lemma_ascending_unique(a: Seq<Seq<char>>, b: Seq<Seq<char>>)
    requires
        ascending(a),
        ascending(b),
        a.to_set() == b.to_set(),
    ensures
        a == b,
{
    let lt = |x: Seq<char>, y: Seq<char>| url_lt(x, y);
    assert forall|x: Seq<char>, y: Seq<char>| #[trigger] lt(x, y) implies !lt(y, x) by {
        lemma_url_lt_asymmetric(x, y);
    }
    lemma_strictly_sorted_unique(a, b, lt);
}

/// A set of relay URLs.
pub struct UrlSet {
    urls: Vec<RelayUrl>,
}

impl View for UrlSet {
    type V = Set<Seq<char>>;

    closed spec fn view(&self) -> Set<Seq<char>> {
        url_views(self.urls@).to_set()
    }
}

impl UrlSet {
    #[verifier::type_invariant]
    closed spec fn wf(&self) -> bool {
        ascending(url_views(self.urls@))
    }

    /// The empty set.
    pub fn new() -> (r: UrlSet)
        ensures
            r@ == Set::<Seq<char>>::empty(),
    {
        let r = UrlSet { urls: Vec::new() };
        assert(url_views(r.urls@).to_set() =~= Set::<Seq<char>>::empty());
        r
    }

    /// The place of `url` in the list: the first index whose URL does not
    /// come before it.
    fn position(&self, url: &RelayUrl) -> (i: usize)
        ensures
            0 <= i <= self.urls@.len(),
            forall|k: int| 0 <= k < i ==> url_lt(#[trigger] self.urls@[k]@, url@),
            i < self.urls@.len() ==> !url_lt(self.urls@[i as int]@, url@),
    {
        let mut i: usize = 0;
        while i < self.urls.len() && self.urls[i].precedes(url)
            invariant
                0 <= i <= self.urls@.len(),
                forall|k: int| 0 <= k < i ==> url_lt(#[trigger] self.urls@[k]@, url@),
            decreases self.urls@.len() - i,
        {
            i = i + 1;
        }
        i
    }

    /// Whether `url` is in the set.
    pub fn contains(&self, url: &RelayUrl) -> (r: bool)
        ensures
            r == self@.contains(url@),
    {
        proof {
            use_type_invariant(self);
        }
        let i = self.position(url);
        let r = i < self.urls.len() && self.urls[i] == *url;
        proof {
            let views = url_views(self.urls@);
            if r {
                assert(views[i as int] == url@);
                assert(views.contains(url@));
            } else if views.contains(url@) {
                let j = choose|j: int| 0 <= j < views.len() && views[j] == url@;
                if j < i {
                    lemma_url_lt_irreflexive(url@);
                } else {
                    assert(url_lt(views[i as int], views[j]));
                }
            }
        }
        r
    }

    /// Puts `url` into the set.
    pub fn insert(&mut self, url: RelayUrl)
        ensures
            final(self)@ == old(self)@.insert(url@),
    {
        proof {
            use_type_invariant(&*self);
        }
        let i = self.position(&url);
        let ghost before = url_views(self.urls@);
        if i < self.urls.len() && self.urls[i] == url {
            assert(before[i as int] == url@);
            assert(before.contains(url@));
            assert(before.to_set() =~= before.to_set().insert(url@));
            return ;
        }
        let mut urls: Vec<RelayUrl> = Vec::new();
        core::mem::swap(&mut self.urls, &mut urls);
        urls.insert(i, url);
        proof {
            let after = url_views(urls@);
            assert(after =~= before.insert(i as int, url@));
            if i < before.len() {
                lemma_url_lt_total(before[i as int], url@);
            }
            assert forall|a: int, b: int| 0 <= a < b < after.len() implies url_lt(
                #[trigger] after[a],
                #[trigger] after[b],
            ) by {
                if b < i {
                    assert(url_lt(before[a], before[b]));
                } else if b == i {
                    assert(url_lt(before[a], url@));
                } else if a < i {
                    assert(url_lt(before[a], before[b - 1]));
                } else if a == i {
                    if b - 1 > i {
                        assert(url_lt(before[i as int], before[b - 1]));
                        lemma_url_lt_transitive(url@, before[i as int], before[b - 1]);
                    }
                } else {
                    assert(url_lt(before[a - 1], before[b - 1]));
                }
            }
            assert forall|u: Seq<char>| after.to_set().contains(u) <==> before.to_set().insert(
                url@,
            ).contains(u) by {
                if after.contains(u) {
                    let k = choose|k: int| 0 <= k < after.len() && after[k] == u;
                    if k < i {
                        assert(before[k] == u);
                        assert(before.contains(u));
                    } else if k > i {
                        assert(before[k - 1] == u);
                        assert(before.contains(u));
                    }
                }
                if before.contains(u) {
                    let k = choose|k: int| 0 <= k < before.len() && before[k] == u;
                    if k < i {
                        assert(after[k] == u);
                    } else {
                        assert(after[k + 1] == u);
                    }
                    assert(after.contains(u));
                }
                if u == url@ {
                    assert(after[i as int] == u);
                    assert(after.contains(u));
                }
            }
            assert(after.to_set() =~= before.to_set().insert(url@));
        }
        core::mem::swap(&mut self.urls, &mut urls);
    }

    /// Takes `url` out of the set.
    pub fn remove(&mut self, url: &RelayUrl)
        ensures
            final(self)@ == old(self)@.remove(url@),
    {
        proof {
            use_type_invariant(&*self);
        }
        let i = self.position(url);
        let ghost before = url_views(self.urls@);
        if i >= self.urls.len() || self.urls[i] != *url {
            proof {
                if before.contains(url@) {
                    let j = choose|j: int| 0 <= j < before.len() && before[j] == url@;
                    if j < i {
                        lemma_url_lt_irreflexive(url@);
                    } else {
                        assert(url_lt(before[i as int], before[j]));
                    }
                }
                assert(before.to_set() =~= before.to_set().remove(url@));
            }
            return ;
        }
        let mut urls: Vec<RelayUrl> = Vec::new();
        core::mem::swap(&mut self.urls, &mut urls);
        let _ = urls.remove(i);
        proof {
            let after = url_views(urls@);
            assert(after =~= before.remove(i as int));
            assert forall|a: int, b: int| 0 <= a < b < after.len() implies url_lt(
                #[trigger] after[a],
                #[trigger] after[b],
            ) by {
                let a0 = if a < i { a } else { a + 1 };
                let b0 = if b < i { b } else { b + 1 };
                assert(url_lt(before[a0], before[b0]));
            }
            assert forall|u: Seq<char>| after.to_set().contains(u) <==> before.to_set().remove(
                url@,
            ).contains(u) by {
                if after.contains(u) {
                    let k = choose|k: int| 0 <= k < after.len() && after[k] == u;
                    let k0 = if k < i { k } else { k + 1 };
                    assert(before[k0] == u);
                    assert(before.contains(u));
                    if k0 < i {
                        assert(url_lt(before[k0], before[i as int]));
                    } else {
                        assert(url_lt(before[i as int], before[k0]));
                    }
                    lemma_url_lt_irreflexive(url@);
                }
                if before.contains(u) && u != url@ {
                    let k = choose|k: int| 0 <= k < before.len() && before[k] == u;
                    if k < i {
                        assert(after[k] == u);
                    } else {
                        assert(after[k - 1] == u);
                    }
                    assert(after.contains(u));
                }
            }
            assert(after.to_set() =~= before.to_set().remove(url@));
        }
        core::mem::swap(&mut self.urls, &mut urls);
    }

    /// The URLs of the set, in ascending order.
    pub fn into_vec(self) -> (r: Vec<RelayUrl>)
        ensures
            lists_ascending(url_views(r@), self@),
    {
        proof {
            use_type_invariant(&self);
        }
        self.urls
    }
}

} // verus!
