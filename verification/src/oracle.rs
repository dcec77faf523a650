//! The routing oracle: for each participant and direction, the relays that
//! serve them best, ranked by score.

use vstd::prelude::*;
use crate::error::Error;
use crate::event::PublicKey;
use crate::order::lemma_strictly_sorted_unique;
use crate::url::lemma_url_lt_asymmetric;
use crate::url::lemma_url_lt_total;
use crate::url::lemma_url_lt_transitive;
use crate::url::url_lt;
use crate::url::RelayUrl;

verus! {

/// How a participant uses a relay.
#[derive(Clone, Copy, Debug, PartialEq, Eq, Structural)]
pub enum Direction {
    /// They read there: what is addressed to them is best sent there.
    Read,
    /// They write there: what they publish is best looked for there.
    Write,
}

/// The entries of a ranking as plain values: URL and score.
pub open spec fn entry_views(entries: Seq<(RelayUrl, u64)>) -> Seq<(Seq<char>, u64)> {
    entries.map_values(|entry: (RelayUrl, u64)| (entry.0@, entry.1))
}

/// `a` is ranked before `b`: it has the higher score, or the same score and
/// the URL that comes first.
pub open spec fn ranks_before(a: (Seq<char>, u64), b: (Seq<char>, u64)) -> bool {
    a.1 > b.1 || (a.1 == b.1 && url_lt(a.0, b.0))
}

/// The list is a ranking: every entry is ranked before those behind it, and
/// no URL has two entries.
pub open spec fn ranked(entries: Seq<(Seq<char>, u64)>) -> bool {
    &&& forall|i: int, j: int|
        0 <= i < j < entries.len() ==> ranks_before(#[trigger] entries[i], #[trigger] entries[j])
    &&& forall|i: int, j: int|
        0 <= i < j < entries.len() ==> (#[trigger] entries[i]).0 != (#[trigger] entries[j]).0
}

/// The entries after `url` was given the score `score`: the entry of `url`
/// is the new one, the others are as they were.
pub open spec fn with_score(entries: Seq<(Seq<char>, u64)>, url: Seq<char>, score: u64) -> Set<
    (Seq<char>, u64),
> {
    Set::new(|e: (Seq<char>, u64)| e == (url, score) || (e.0 != url && entries.contains(e)))
}

/// Rankings of the same entries are the same list: how the entries came to
/// be known does not show in their order.
pub proof fn lemma_ranking_unique(a: Seq<(Seq<char>, u64)>, b: Seq<(Seq<char>, u64)>)
    requires
        ranked(a),
        ranked(b),
        a.to_set() == b.to_set(),
    ensures
        a == b,
{
    let lt = |x: (Seq<char>, u64), y: (Seq<char>, u64)| ranks_before(x, y);
    assert forall|x: (Seq<char>, u64), y: (Seq<char>, u64)| #[trigger] lt(x, y) implies !lt(
        y,
        x,
    ) by {
        if x.1 == y.1 {
            lemma_url_lt_asymmetric(x.0, y.0);
        }
    }
    lemma_strictly_sorted_unique(a, b, lt);
}

/// The relays of one participant in one direction, best first.
pub struct Ranking {
    pubkey: PublicKey,
    direction: Direction,
    relays: Vec<(RelayUrl, u64)>,
}

impl Ranking {
    /// Whose relays these are.
    pub closed spec fn pubkey(&self) -> Seq<u8> {
        self.pubkey@
    }

    /// The direction in which the relays serve.
    pub closed spec fn direction(&self) -> Direction {
        self.direction
    }

    /// The relays with their scores, best first.
    pub closed spec fn relays(&self) -> Seq<(RelayUrl, u64)> {
        self.relays@
    }

    /// The relays are ranked.
    #[verifier::type_invariant]
    pub closed spec fn wf(&self) -> bool {
        ranked(entry_views(self.relays@))
    }

    /// A ranking without relays.
    pub fn new(pubkey: PublicKey, direction: Direction) -> (r: Ranking)
        ensures
            r.pubkey() == pubkey@,
            r.direction() == direction,
            r.relays() == Seq::<(RelayUrl, u64)>::empty(),
            r.wf(),
    {
        Ranking { pubkey, direction, relays: Vec::new() }
    }

    /// Whether the ranking is the one of `pubkey` in `direction`.
    pub fn is_of(&self, pubkey: &PublicKey, direction: Direction) -> (r: bool)
        ensures
            r == (self.pubkey() == pubkey@ && self.direction() == direction),
    {
        self.pubkey == *pubkey && self.direction == direction
    }

    /// The relays with their scores, best first.
    pub fn to_vec(&self) -> (r: Vec<(RelayUrl, u64)>)
        ensures
            r@ == self.relays(),
            ranked(entry_views(r@)),
    {
        proof {
            use_type_invariant(self);
        }
        let mut copy: Vec<(RelayUrl, u64)> = Vec::new();
        let mut i: usize = 0;
        while i < self.relays.len()
            invariant
                0 <= i <= self.relays@.len(),
                copy@ =~= self.relays@.take(i as int),
            decreases self.relays@.len() - i,
        {
            copy.push((self.relays[i].0.clone(), self.relays[i].1));
            i = i + 1;
        }
        proof {
            self.relays@.lemma_take_len();
        }
        copy
    }

    /// Gives `url` the score `score`, and the place in the ranking that goes
    /// with it.
    pub fn set_score(&mut self, url: &RelayUrl, score: u64)
        ensures
            final(self).pubkey() == old(self).pubkey(),
            final(self).direction() == old(self).direction(),
            final(self).wf(),
            entry_views(final(self).relays()).to_set() == with_score(
                entry_views(old(self).relays()),
                url@,
                score,
            ),
    {
        proof {
            use_type_invariant(&*self);
        }
        let ghost before = entry_views(self.relays@);
        let mut relays: Vec<(RelayUrl, u64)> = Vec::new();
        core::mem::swap(&mut self.relays, &mut relays);
        // Take the entry that the URL has out.
        let mut i: usize = 0;
        while i < relays.len() && relays[i].0 != *url
            invariant
                0 <= i <= relays@.len(),
                forall|k: int| 0 <= k < i ==> (#[trigger] relays@[k]).0@ != url@,
            decreases relays@.len() - i,
        {
            i = i + 1;
        }
        if i < relays.len() {
            let _ = relays.remove(i);
        }
        let ghost others = entry_views(relays@);
        proof {
            if i < before.len() {
                assert(others =~= before.remove(i as int));
                assert forall|a: int, b: int| 0 <= a < b < others.len() implies ranks_before(
                    #[trigger] others[a],
                    #[trigger] others[b],
                ) && others[a].0 != others[b].0 by {
                    let a0 = if a < i { a } else { a + 1 };
                    let b0 = if b < i { b } else { b + 1 };
                    assert(ranks_before(before[a0], before[b0]));
                    assert(before[a0].0 != before[b0].0);
                }
                assert forall|k: int| 0 <= k < others.len() implies (#[trigger] others[k]).0
                    != url@ by {
                    let k0 = if k < i { k } else { k + 1 };
                    assert(before[k0].0 != before[i as int].0);
                }
                assert forall|e: (Seq<char>, u64)| others.contains(e) <==> (e.0 != url@
                    && before.contains(e)) by {
                    if others.contains(e) {
                        let k = choose|k: int| 0 <= k < others.len() && others[k] == e;
                        let k0 = if k < i { k } else { k + 1 };
                        assert(before[k0] == e);
                    }
                    if e.0 != url@ && before.contains(e) {
                        let k = choose|k: int| 0 <= k < before.len() && before[k] == e;
                        let k1 = if k < i { k } else { k - 1 };
                        assert(others[k1] == e);
                    }
                }
            } else {
                assert(others =~= before);
                assert forall|k: int| 0 <= k < others.len() implies (#[trigger] others[k]).0
                    != url@ by {
                    assert(relays@[k].0@ != url@);
                }
                assert forall|e: (Seq<char>, u64)| others.contains(e) <==> (e.0 != url@
                    && before.contains(e)) by {
                    if others.contains(e) {
                        let k = choose|k: int| 0 <= k < others.len() && others[k] == e;
                        assert(others[k].0 != url@);
                    }
                }
            }
        }
        // Find the place that the score gives it.
        let mut p: usize = 0;
        while p < relays.len() && (relays[p].1 > score || (relays[p].1 == score
            && relays[p].0.precedes(url)))
            invariant
                0 <= p <= relays@.len(),
                others == entry_views(relays@),
                forall|k: int| 0 <= k < p ==> ranks_before(#[trigger] others[k], (url@, score)),
            decreases relays@.len() - p,
        {
            assert(others[p as int] == (relays@[p as int].0@, relays@[p as int].1));
            p = p + 1;
        }
        proof {
            if p < others.len() {
                assert(others[p as int] == (relays@[p as int].0@, relays@[p as int].1));
                lemma_url_lt_total(others[p as int].0, url@);
                assert(ranks_before((url@, score), others[p as int]));
            }
        }
        relays.insert(p, (url.clone(), score));
        proof {
            let after = entry_views(relays@);
            let new = (url@, score);
            assert(after =~= others.insert(p as int, new));
            assert forall|a: int, b: int| 0 <= a < b < after.len() implies ranks_before(
                #[trigger] after[a],
                #[trigger] after[b],
            ) && after[a].0 != after[b].0 by {
                if b < p {
                    assert(ranks_before(others[a], others[b]));
                    assert(others[a].0 != others[b].0);
                } else if b == p {
                    assert(ranks_before(others[a], new));
                    assert(others[a].0 != url@);
                } else if a < p {
                    assert(ranks_before(others[a], others[b - 1]));
                    assert(others[a].0 != others[b - 1].0);
                } else if a == p {
                    assert(others[b - 1].0 != url@);
                    if b - 1 > p {
                        assert(ranks_before(others[p as int], others[b - 1]));
                        lemma_ranks_before_transitive(new, others[p as int], others[b - 1]);
                    }
                } else {
                    assert(ranks_before(others[a - 1], others[b - 1]));
                    assert(others[a - 1].0 != others[b - 1].0);
                }
            }
            assert forall|e: (Seq<char>, u64)| after.to_set().contains(e) <==> with_score(
                before,
                url@,
                score,
            ).contains(e) by {
                if after.contains(e) {
                    let k = choose|k: int| 0 <= k < after.len() && after[k] == e;
                    if k < p {
                        assert(others[k] == e);
                        assert(others.contains(e));
                    } else if k > p {
                        assert(others[k - 1] == e);
                        assert(others.contains(e));
                    }
                }
                if e == new {
                    assert(after[p as int] == e);
                    assert(after.contains(e));
                } else if e.0 != url@ && before.contains(e) {
                    assert(others.contains(e));
                    let k = choose|k: int| 0 <= k < others.len() && others[k] == e;
                    if k < p {
                        assert(after[k] == e);
                    } else {
                        assert(after[k + 1] == e);
                    }
                    assert(after.contains(e));
                }
            }
            assert(after.to_set() =~= with_score(before, url@, score));
        }
        core::mem::swap(&mut self.relays, &mut relays);
    }
}

/// Being ranked before is transitive.
pub proof fn lemma_ranks_before_transitive(
    a: (Seq<char>, u64),
    b: (Seq<char>, u64),
    c: (Seq<char>, u64),
)
    requires
        ranks_before(a, b),
        ranks_before(b, c),
    ensures
        ranks_before(a, c),
{
    if a.1 == b.1 && b.1 == c.1 {
        lemma_url_lt_transitive(a.0, b.0, c.0);
    }
}

/// The ranking at `i` is the one of `pubkey` in `direction`.
pub open spec fn is_ranking_of(
    rankings: Seq<Ranking>,
    pubkey: Seq<u8>,
    direction: Direction,
    i: int,
) -> bool {
    0 <= i < rankings.len() && rankings[i].pubkey() == pubkey && rankings[i].direction()
        == direction
}

/// No participant has two rankings in one direction.
pub open spec fn distinct_rankings(rankings: Seq<Ranking>) -> bool {
    forall|i: int, j: int|
        0 <= i < j < rankings.len() ==> !((#[trigger] rankings[i]).pubkey() == (
        #[trigger] rankings[j]).pubkey() && rankings[i].direction() == rankings[j].direction())
}

/// Every ranking is in order.
pub open spec fn all_ranked(rankings: Seq<Ranking>) -> bool {
    forall|i: int| 0 <= i < rankings.len() ==> (#[trigger] rankings[i]).wf()
}

/// The relays of `pubkey` in `direction`, best first: those of the ranking
/// that they have, and none where they have no ranking.
pub open spec fn best_of(rankings: Seq<Ranking>, pubkey: Seq<u8>, direction: Direction) -> Seq<
    (RelayUrl, u64),
> {
    if exists|i: int| is_ranking_of(rankings, pubkey, direction, i) {
        rankings[choose|i: int| is_ranking_of(rankings, pubkey, direction, i)].relays()
    } else {
        Seq::empty()
    }
}

/// The rankings of the participants that are known, and whether the store
/// behind them can be read.
pub struct RoutingOracle {
    rankings: Vec<Ranking>,
    fault: Option<Error>,
}

impl RoutingOracle {
    /// The rankings, one for each participant and direction that has any.
    pub closed spec fn rankings(&self) -> Seq<Ranking> {
        self.rankings@
    }

    /// The error that every access fails with, while there is one.
    pub closed spec fn fault(&self) -> Option<Error> {
        self.fault
    }

    /// The relays of `pubkey` in `direction`, best first.
    pub open spec fn best(&self, pubkey: Seq<u8>, direction: Direction) -> Seq<(RelayUrl, u64)> {
        best_of(self.rankings(), pubkey, direction)
    }

    /// Each participant has one ranking at most in each direction, and every
    /// ranking is in order.
    #[verifier::type_invariant]
    pub closed spec fn wf(&self) -> bool {
        distinct_rankings(self.rankings@) && all_ranked(self.rankings@)
    }

    /// What the oracle hands out is ranked: best first, and no relay twice.
    pub proof fn lemma_best_ranked(&self, pubkey: Seq<u8>, direction: Direction)
        requires
            self.wf(),
        ensures
            ranked(entry_views(self.best(pubkey, direction))),
    {
        if exists|i: int| is_ranking_of(self.rankings(), pubkey, direction, i) {
            let i = choose|i: int| is_ranking_of(self.rankings(), pubkey, direction, i);
            assert(self.rankings()[i].wf());
        }
    }

    /// An oracle that knows of nobody, in working order.
    pub fn new() -> (r: RoutingOracle)
        ensures
            r.rankings() == Seq::<Ranking>::empty(),
            r.fault() is None,
            r.wf(),
    {
        RoutingOracle { rankings: Vec::new(), fault: None }
    }

    /// From now on every access fails with `error`.
    pub fn fail_with(&mut self, error: Error)
        ensures
            final(self).fault() == Some(error),
            final(self).rankings() == old(self).rankings(),
    {
        proof {
            use_type_invariant(&*self);
        }
        self.fault = Some(error);
    }

    /// From now on accesses succeed again.
    pub fn recover(&mut self)
        ensures
            final(self).fault() is None,
            final(self).rankings() == old(self).rankings(),
    {
        proof {
            use_type_invariant(&*self);
        }
        self.fault = None;
    }

    /// The index of the ranking of `pubkey` in `direction`, or the number of
    /// rankings where they have none.
    fn find(&self, pubkey: &PublicKey, direction: Direction) -> (i: usize)
        ensures
            0 <= i <= self.rankings@.len(),
            i < self.rankings@.len() ==> is_ranking_of(self.rankings@, pubkey@, direction, i as int),
            forall|k: int| 0 <= k < i ==> !is_ranking_of(self.rankings@, pubkey@, direction, k),
    {
        let mut i: usize = 0;
        while i < self.rankings.len() && !self.rankings[i].is_of(pubkey, direction)
            invariant
                0 <= i <= self.rankings@.len(),
                forall|k: int| 0 <= k < i ==> !is_ranking_of(self.rankings@, pubkey@, direction, k),
            decreases self.rankings@.len() - i,
        {
            i = i + 1;
        }
        i
    }

    /// The relays of `pubkey` in `direction` with their scores, best first.
    pub fn get_best_relays(&self, pubkey: PublicKey, direction: Direction) -> (r: Result<
        Vec<(RelayUrl, u64)>,
        Error,
    >)
        ensures
            match self.fault() {
                Some(e) => r == Err::<Vec<(RelayUrl, u64)>, Error>(e),
                None => r matches Ok(found) && found@ == self.best(pubkey@, direction) && ranked(
                    entry_views(found@),
                ),
            },
    {
        proof {
            use_type_invariant(self);
        }
        if let Some(e) = self.fault {
            return Err(e);
        }
        let i = self.find(&pubkey, direction);
        if i < self.rankings.len() {
            proof {
                let c = choose|k: int| is_ranking_of(self.rankings@, pubkey@, direction, k);
                assert(c == i);
            }
            Ok(self.rankings[i].to_vec())
        } else {
            let found: Vec<(RelayUrl, u64)> = Vec::new();
            assert(entry_views(found@) =~= Seq::<(Seq<char>, u64)>::empty());
            Ok(found)
        }
    }

    /// Gives the relay `url` the score `score` among the relays of `pubkey`
    /// in `direction`. Their other relays keep their scores, and nobody else's
    /// ranking changes.
    pub fn set_score(
        &mut self,
        pubkey: PublicKey,
        direction: Direction,
        url: &RelayUrl,
        score: u64,
    ) -> (r: Result<(), Error>)
        ensures
            final(self).fault() == old(self).fault(),
            final(self).wf(),
            match old(self).fault() {
                Some(e) => r == Err::<(), Error>(e) && final(self).rankings() == old(
                    self,
                ).rankings(),
                None => {
                    &&& r is Ok
                    &&& ranked(entry_views(final(self).best(pubkey@, direction)))
                    &&& entry_views(final(self).best(pubkey@, direction)).to_set() == with_score(
                        entry_views(old(self).best(pubkey@, direction)),
                        url@,
                        score,
                    )
                    &&& forall|p: Seq<u8>, d: Direction|
                        p != pubkey@ || d != direction ==> #[trigger] final(self).best(p, d) == old(
                            self,
                        ).best(p, d)
                },
            },
    {
        proof {
            use_type_invariant(&*self);
        }
        if let Some(e) = self.fault {
            return Err(e);
        }
        let i = self.find(&pubkey, direction);
        let ghost before = self.rankings@;
        let mut rankings: Vec<Ranking> = Vec::new();
        core::mem::swap(&mut self.rankings, &mut rankings);
        let mut ranking: Ranking = if i < rankings.len() {
            rankings.remove(i)
        } else {
            Ranking::new(pubkey, direction)
        };
        let ghost old_ranking = ranking;
        ranking.set_score(url, score);
        let ghost new_ranking = ranking;
        rankings.insert(i, ranking);
        proof {
            let after = rankings@;
            assert(best_of(before, pubkey@, direction) == old_ranking.relays()) by {
                if i < before.len() {
                    let c = choose|k: int| is_ranking_of(before, pubkey@, direction, k);
                    assert(c == i);
                }
            }
            if i < before.len() {
                assert(after =~= before.update(i as int, new_ranking));
            } else {
                assert(after =~= before.push(new_ranking));
            }
            assert(is_ranking_of(after, pubkey@, direction, i as int));
            assert forall|a: int, b: int| 0 <= a < b < after.len() implies !((
            #[trigger] after[a]).pubkey() == (#[trigger] after[b]).pubkey() && after[a].direction()
                == after[b].direction()) by {
                if b < before.len() {
                    assert(!(before[a].pubkey() == before[b].pubkey() && before[a].direction()
                        == before[b].direction()));
                } else {
                    assert(!is_ranking_of(before, pubkey@, direction, a));
                }
            }
            assert forall|k: int| 0 <= k < after.len() implies (#[trigger] after[k]).wf() by {
                if k != i {
                    assert(before[k].wf());
                }
            }
            assert(best_of(after, pubkey@, direction) == new_ranking.relays()) by {
                let c = choose|k: int| is_ranking_of(after, pubkey@, direction, k);
                assert(c == i);
            }
            assert forall|p: Seq<u8>, d: Direction| p != pubkey@ || d != direction implies best_of(
                after,
                p,
                d,
            ) == best_of(before, p, d) by {
                if exists|k: int| is_ranking_of(before, p, d, k) {
                    let k = choose|k: int| is_ranking_of(before, p, d, k);
                    assert(k != i);
                    assert(is_ranking_of(after, p, d, k));
                    let c = choose|c: int| is_ranking_of(after, p, d, c);
                    assert(c == k);
                } else if exists|k: int| is_ranking_of(after, p, d, k) {
                    let k = choose|k: int| is_ranking_of(after, p, d, k);
                    assert(k != i);
                    assert(is_ranking_of(before, p, d, k));
                }
            }
        }
        core::mem::swap(&mut self.rankings, &mut rankings);
        Ok(())
    }
}

} // verus!
