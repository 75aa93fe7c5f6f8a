//! The empirical first-order Markov chain: for each observed (previous
//! token, current token) pair, how often it occurred across the corpus.

use vstd::prelude::*;
use crate::markov::TokenType;

verus! {

/// How many occurrences a sequence of (source, destination, count) entries
/// records for the pair `(s, d)`: the sum of the counts of every matching
/// entry.
pub open spec fn pair_total(e: Seq<(TokenType, TokenType, u64)>, s: TokenType, d: TokenType) -> int
    decreases e.len(),
{
    if e.len() == 0 {
        0
    } else {
        pair_total(e.drop_last(), s, d)
            + if e.last().0 == s && e.last().1 == d { e.last().2 as int } else { 0 }
    }
}

/// The total outgoing count of source `s`: the sum of the counts of every
/// entry whose source is `s`.
pub open spec fn source_total(e: Seq<(TokenType, TokenType, u64)>, s: TokenType) -> int
    decreases e.len(),
{
    if e.len() == 0 {
        0
    } else {
        source_total(e.drop_last(), s) + if e.last().0 == s { e.last().2 as int } else { 0 }
    }
}

/// Whether some entry leaves source `t`: the token has a state of its own.
pub open spec fn is_source(e: Seq<(TokenType, TokenType, u64)>, t: TokenType) -> bool {
    exists|i: int| 0 <= i < e.len() && (#[trigger] e[i]).0 == t
}

/// How many entries leave source `t`: with distinct keys, the state's
/// out-degree.
pub open spec fn source_degree(e: Seq<(TokenType, TokenType, u64)>, t: TokenType) -> int
    decreases e.len(),
{
    if e.len() == 0 {
        0
    } else {
        source_degree(e.drop_last(), t) + if e.last().0 == t {
            1int
        } else {
            0int
        }
    }
}

/// A source degree is never negative.
pub proof fn lemma_source_degree_nonneg(e: Seq<(TokenType, TokenType, u64)>, t: TokenType)
    ensures
        source_degree(e, t) >= 0,
    decreases e.len(),
{
    if e.len() > 0 {
        lemma_source_degree_nonneg(e.drop_last(), t);
    }
}

/// A token with an entry has positive degree.
pub proof fn lemma_source_degree_pos(e: Seq<(TokenType, TokenType, u64)>, t: TokenType)
    requires
        is_source(e, t),
    ensures
        source_degree(e, t) >= 1,
    decreases e.len(),
{
    lemma_source_degree_nonneg(e.drop_last(), t);
    if e.last().0 == t {
    } else {
        assert forall|i: int| 0 <= i < e.drop_last().len() && e[i].0 == t implies (#[trigger] e.drop_last()[i]).0 == t by {}
        let i = choose|i: int| 0 <= i < e.len() && (#[trigger] e[i]).0 == t;
        assert(e.drop_last()[i] == e[i]);
        lemma_source_degree_pos(e.drop_last(), t);
    }
}

/// The table can be compiled: every transition target has a state of its
/// own, and the `Start` state exists.
pub open spec fn compilable(e: Seq<(TokenType, TokenType, u64)>) -> bool {
    &&& forall|i: int| 0 <= i < e.len() ==> is_source(e, (#[trigger] e[i]).1)
    &&& is_source(e, TokenType::Start)
}

/// Mapping from source token to destination token to an occurrence count,
/// held as a flat list of (source, destination, count) entries with distinct
/// (source, destination) keys and positive counts.
pub struct TransitionTable {
    entries: Vec<(TokenType, TokenType, u64)>,
}

impl View for TransitionTable {
    type V = Seq<(TokenType, TokenType, u64)>;

    closed spec fn view(&self) -> Seq<(TokenType, TokenType, u64)> {
        self.entries@
    }
}

impl TransitionTable {
    /// Every (source, destination) key appears at most once, and every
    /// recorded count is positive.
    pub open spec fn wf(&self) -> bool {
        &&& forall|i: int, j: int|
            0 <= i < j < self@.len() ==> !(self@[i].0 == self@[j].0 && self@[i].1 == self@[j].1)
        &&& forall|i: int| 0 <= i < self@.len() ==> self@[i].2 >= 1
    }

    /// An empty table: no pair has been observed.
    pub fn new() -> (r: TransitionTable)
        ensures
            r.wf(),
            r@ =~= Seq::<(TokenType, TokenType, u64)>::empty(),
    {
        TransitionTable { entries: Vec::new() }
    }

    /// Record one more occurrence of the pair `(s, d)`. The pair's count
    /// grows by one (it saturates at `u64::MAX`); every other pair keeps its
    /// count.
    pub fn increment(&mut self, s: TokenType, d: TokenType)
        requires
            old(self).wf(),
        ensures
            final(self).wf(),
            pair_total(final(self)@, s, d) == if pair_total(old(self)@, s, d) < u64::MAX as int {
                pair_total(old(self)@, s, d) + 1
            } else {
                pair_total(old(self)@, s, d)
            },
            forall|s2: TokenType, d2: TokenType|
                !(s2 == s && d2 == d) ==> pair_total(final(self)@, s2, d2) == pair_total(
                    old(self)@,
                    s2,
                    d2,
                ),
            forall|s2: TokenType, d2: TokenType|
                pair_total(old(self)@, s2, d2) > 0 ==> pair_total(final(self)@, s2, d2) > 0,
            pair_total(final(self)@, s, d) > 0,
    {
        let ghost pre = self.entries@;
        let n = self.entries.len();
        let mut i: usize = 0;
        while i < n
            invariant
                old(self).wf(),
                pre == old(self)@,
                n == self.entries@.len(),
                i <= n,
                self.entries@ == pre,
                forall|k: int| 0 <= k < i ==> !(pre[k].0 == s && pre[k].1 == d),
            decreases n - i,
        {
            let (es, ed, ec) = self.entries[i];
            if es == s && ed == d {
                let bumped = if ec < u64::MAX {
                    ec + 1
                } else {
                    ec
                };
                self.entries.set(i, (s, d, bumped));
                proof {
                    lemma_pair_total_update(pre, i as int, (s, d, bumped));
                    lemma_pair_total_unique(pre, i as int, s, d);
                    assert(self.entries@ == pre.update(i as int, (s, d, bumped)));
                    assert forall|k: int, l: int| 0 <= k < l < self@.len() implies !(self@[k].0
                        == self@[l].0 && self@[k].1 == self@[l].1) by {
                        assert(self@[k].0 == pre[k].0 && self@[k].1 == pre[k].1);
                        assert(self@[l].0 == pre[l].0 && self@[l].1 == pre[l].1);
                    }
                }
                return;
            }
            i = i + 1;
        }
        self.entries.push((s, d, 1));
        proof {
            lemma_pair_total_absent(pre, s, d);
            let post = self.entries@;
            assert(post == pre.push((s, d, 1)));
            assert(post.drop_last() =~= pre);
            assert(post.last() == (s, d, 1u64));
            assert forall|s2: TokenType, d2: TokenType| !(s2 == s && d2 == d) implies pair_total(
                post,
                s2,
                d2,
            ) == pair_total(pre, s2, d2) by {
                assert(pair_total(post, s2, d2) == pair_total(post.drop_last(), s2, d2));
            }
            assert(pair_total(post, s, d) == pair_total(pre, s, d) + 1);
        }
    }

    /// The entries as a vector of (source, destination, count) triples, for
    /// callers that read the finished table.
    pub fn entries(&self) -> (r: &Vec<(TokenType, TokenType, u64)>)
        ensures
            r@ == self@,
    {
        &self.entries
    }
}

/// Replacing the entry at `i` by one with the same key changes only that
/// key's total, by the difference of the counts.
proof fn lemma_pair_total_update(e: Seq<(TokenType, TokenType, u64)>, i: int, v: (TokenType, TokenType, u64))
    requires
        0 <= i < e.len(),
        v.0 == e[i].0,
        v.1 == e[i].1,
    ensures
        pair_total(e.update(i, v), v.0, v.1) == pair_total(e, v.0, v.1) - e[i].2 + v.2,
        forall|s2: TokenType, d2: TokenType|
            !(s2 == v.0 && d2 == v.1) ==> pair_total(e.update(i, v), s2, d2) == pair_total(e, s2, d2),
    decreases e.len(),
{
    let u = e.update(i, v);
    if i == e.len() - 1 {
        assert(u.drop_last() =~= e.drop_last());
        assert(u.last() == v);
        assert forall|s2: TokenType, d2: TokenType| !(s2 == v.0 && d2 == v.1) implies pair_total(
            u,
            s2,
            d2,
        ) == pair_total(e, s2, d2) by {
            assert(pair_total(u, s2, d2) == pair_total(u.drop_last(), s2, d2));
            assert(pair_total(e, s2, d2) == pair_total(e.drop_last(), s2, d2));
        }
    } else {
        assert(u.drop_last() =~= e.drop_last().update(i, v));
        assert(u.last() == e.last());
        lemma_pair_total_update(e.drop_last(), i, v);
        assert forall|s2: TokenType, d2: TokenType| !(s2 == v.0 && d2 == v.1) implies pair_total(
            u,
            s2,
            d2,
        ) == pair_total(e, s2, d2) by {
            assert(pair_total(u, s2, d2) == pair_total(u.drop_last(), s2, d2) + if u.last().0 == s2
                && u.last().1 == d2 {
                u.last().2 as int
            } else {
                0
            });
            assert(pair_total(u.drop_last(), s2, d2) == pair_total(e.drop_last(), s2, d2));
        }
    }
}

/// With distinct keys, the total of the key at `i` is exactly the count
/// stored at `i`.
proof fn lemma_pair_total_unique(e: Seq<(TokenType, TokenType, u64)>, i: int, s: TokenType, d: TokenType)
    requires
        0 <= i < e.len(),
        e[i].0 == s,
        e[i].1 == d,
        forall|k: int, l: int| 0 <= k < l < e.len() ==> !(e[k].0 == e[l].0 && e[k].1 == e[l].1),
    ensures
        pair_total(e, s, d) == e[i].2 as int,
    decreases e.len(),
{
    if i == e.len() - 1 {
        lemma_pair_total_absent(e.drop_last(), s, d);
    } else {
        lemma_pair_total_unique(e.drop_last(), i, s, d);
    }
}

/// Every pair total is a sum of counts: it is never negative.
pub proof fn lemma_pair_total_nonneg(e: Seq<(TokenType, TokenType, u64)>, s: TokenType, d: TokenType)
    ensures
        pair_total(e, s, d) >= 0,
    decreases e.len(),
{
    if e.len() > 0 {
        lemma_pair_total_nonneg(e.drop_last(), s, d);
    }
}

/// In a well-formed table every pair total fits in a count: each key has at
/// most one entry.
pub proof fn lemma_wf_total_bounded(t: &TransitionTable)
    requires
        t.wf(),
    ensures
        forall|s: TokenType, d: TokenType| 0 <= #[trigger] pair_total(t@, s, d) <= u64::MAX as int,
{
    assert forall|s: TokenType, d: TokenType| 0 <= #[trigger] pair_total(t@, s, d) <= u64::MAX as int by {
        lemma_pair_total_nonneg(t@, s, d);
        if exists|k: int| 0 <= k < t@.len() && t@[k].0 == s && t@[k].1 == d {
            let k = choose|k: int| 0 <= k < t@.len() && t@[k].0 == s && t@[k].1 == d;
            lemma_pair_total_unique(t@, k, s, d);
        } else {
            lemma_pair_total_absent(t@, s, d);
        }
    }
}

/// A key matched by no entry has total zero.
proof fn lemma_pair_total_absent(e: Seq<(TokenType, TokenType, u64)>, s: TokenType, d: TokenType)
    requires
        forall|k: int| 0 <= k < e.len() ==> !(e[k].0 == s && e[k].1 == d),
    ensures
        pair_total(e, s, d) == 0,
    decreases e.len(),
{
    if e.len() > 0 {
        lemma_pair_total_absent(e.drop_last(), s, d);
    }
}

} // verus!
