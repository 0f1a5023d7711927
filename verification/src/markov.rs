//! The weighted Markov text model: a token graph learned incrementally
//! from sentences and sampled to generate pseudo-random text. The empty
//! token is the reserved sentinel for sequence start and end.

use vstd::prelude::*;
use vstd::string::{StrSliceExecFns, StringExecFns};
use crate::assoc::{
    assoc_map, distinct_keys, lemma_assoc_contains, lemma_assoc_index, lemma_assoc_push,
    lemma_assoc_update, lemma_assoc_len,
};
use crate::text::{
    is_space, chars_of, split_spaces, keep_nonempty, chars_to_string, split_by, seg_views,
    str_views,
};
use crate::rng::random_below;

verus! {

/// A weight counter would have left the 64-bit range; the model is not
/// changed past that point.
#[derive(Debug, PartialEq, Eq, Structural, Clone, Copy)]
pub struct WeightOverflow;

/// The mathematical value of one node's edge list: targets with weights,
/// in insertion order.
pub open spec fn edges_view(es: Seq<(String, u64)>) -> Seq<(Seq<char>, u64)> {
    es.map_values(|p: (String, u64)| (p.0@, p.1))
}

/// The mathematical value of the whole chain.
pub open spec fn chain_entries(c: Seq<(String, Vec<(String, u64)>)>) -> Seq<
    (Seq<char>, Seq<(Seq<char>, u64)>),
> {
    c.map_values(|p: (String, Vec<(String, u64)>)| (p.0@, edges_view(p.1@)))
}

/// The total outgoing weight of one node.
pub open spec fn sum_weights(ev: Seq<(Seq<char>, u64)>) -> int
    decreases ev.len(),
{
    if ev.len() == 0 {
        0
    } else {
        sum_weights(ev.drop_last()) + ev.last().1
    }
}

/// A well-formed edge list: at least one edge, no repeated target, every
/// weight positive, and a total weight that fits the counter type.
pub open spec fn edges_wf(ev: Seq<(Seq<char>, u64)>) -> bool {
    &&& ev.len() >= 1
    &&& forall|x: int, y: int| 0 <= x < y < ev.len() ==> (#[trigger] ev[x]).0 != (#[trigger] ev[y]).0
    &&& forall|x: int| 0 <= x < ev.len() ==> (#[trigger] ev[x]).1 >= 1
    &&& sum_weights(ev) <= u64::MAX
}

pub proof fn lemma_sum_nonneg(ev: Seq<(Seq<char>, u64)>)
    ensures
        sum_weights(ev) >= 0,
    decreases ev.len(),
{
    if ev.len() > 0 {
        lemma_sum_nonneg(ev.drop_last());
    }
}

pub proof fn lemma_sum_singleton(p: (Seq<char>, u64))
    ensures
        sum_weights(seq![p]) == p.1,
{
    reveal_with_fuel(sum_weights, 2);
    assert(seq![p].drop_last() =~= Seq::<(Seq<char>, u64)>::empty());
}

pub proof fn lemma_sum_parts(ev: Seq<(Seq<char>, u64)>, i: int)
    requires
        0 <= i <= ev.len(),
    ensures
        sum_weights(ev) == sum_weights(ev.take(i)) + sum_weights(ev.skip(i)),
    decreases ev.len(),
{
    if i == ev.len() {
        assert(ev.take(i) =~= ev);
        assert(ev.skip(i) =~= Seq::<(Seq<char>, u64)>::empty());
    } else {
        lemma_sum_parts(ev.drop_last(), i);
        assert(ev.take(i) =~= ev.drop_last().take(i));
        assert(ev.skip(i).drop_last() =~= ev.drop_last().skip(i));
        assert(ev.skip(i).len() > 0);
        assert(ev.skip(i).last() == ev.last());
    }
}

pub proof fn lemma_sum_update(ev: Seq<(Seq<char>, u64)>, j: int, v: (Seq<char>, u64))
    requires
        0 <= j < ev.len(),
    ensures
        sum_weights(ev.update(j, v)) == sum_weights(ev) - ev[j].1 + v.1,
    decreases ev.len(),
{
    if j == ev.len() - 1 {
        assert(ev.update(j, v).drop_last() =~= ev.drop_last());
        assert(ev.update(j, v).last() == v);
    } else {
        lemma_sum_update(ev.drop_last(), j, v);
        assert(ev.update(j, v).drop_last() =~= ev.drop_last().update(j, v));
        assert(ev.update(j, v).last() == ev.last());
    }
}

pub proof fn lemma_weight_le_sum(ev: Seq<(Seq<char>, u64)>, j: int)
    requires
        0 <= j < ev.len(),
    ensures
        ev[j].1 <= sum_weights(ev),
{
    lemma_sum_parts(ev, j);
    lemma_sum_parts(ev.skip(j), 1);
    assert(ev.skip(j).take(1) =~= seq![ev[j]]);
    lemma_sum_singleton(ev[j]);
    lemma_sum_nonneg(ev.take(j));
    lemma_sum_nonneg(ev.skip(j).skip(1));
}

/// One learned adjacency: the edge `to` of `es` gains one weight, created
/// with weight one if absent.
pub open spec fn bump_edge(es: Seq<(Seq<char>, u64)>, to: Seq<char>) -> Seq<(Seq<char>, u64)> {
    if exists|j: int| 0 <= j < es.len() && (#[trigger] es[j]).0 == to {
        let j = choose|j: int| 0 <= j < es.len() && (#[trigger] es[j]).0 == to;
        es.update(j, (to, (es[j].1 + 1) as u64))
    } else {
        es.push((to, 1u64))
    }
}

/// Learning one adjacent pair: the node is created with the single edge
/// when absent; otherwise the edge to `next` is bumped, unless the node's
/// total weight has no room left, which changes nothing and fails.
pub open spec fn learn_pair(
    m: Map<Seq<char>, Seq<(Seq<char>, u64)>>,
    prev: Seq<char>,
    next: Seq<char>,
) -> (Map<Seq<char>, Seq<(Seq<char>, u64)>>, bool) {
    if !m.contains_key(prev) {
        (m.insert(prev, seq![(next, 1u64)]), true)
    } else if sum_weights(m[prev]) >= u64::MAX {
        (m, false)
    } else {
        (m.insert(prev, bump_edge(m[prev], next)), true)
    }
}

/// Learning every adjacent pair of a token sequence, left to right,
/// stopping at the first pair whose counter has no room.
pub open spec fn learn_pairs(m: Map<Seq<char>, Seq<(Seq<char>, u64)>>, toks: Seq<Seq<char>>) -> (
    Map<Seq<char>, Seq<(Seq<char>, u64)>>,
    bool,
)
    decreases toks.len(),
{
    if toks.len() < 2 {
        (m, true)
    } else {
        let (m1, ok) = learn_pair(m, toks[0], toks[1]);
        if ok {
            learn_pairs(m1, toks.skip(1))
        } else {
            (m1, false)
        }
    }
}

/// The tokens a message teaches: its whitespace-separated words, with the
/// empty sentinel token at both ends.
pub open spec fn sentence_tokens(s: Seq<char>) -> Seq<Seq<char>> {
    seq![Seq::<char>::empty()] + split_by(s, |c: char| is_space(c)).filter(
        |w: Seq<char>| w.len() > 0,
    ) + seq![Seq::<char>::empty()]
}

/// There is an edge from `from` to `to`.
pub open spec fn has_edge(
    m: Map<Seq<char>, Seq<(Seq<char>, u64)>>,
    from: Seq<char>,
    to: Seq<char>,
) -> bool {
    m.contains_key(from) && exists|j: int| 0 <= j < m[from].len() && (#[trigger] m[from][j]).0 == to
}

/// `toks` are the non-sentinel stops of a walk from the sentinel back to
/// the sentinel along existing edges.
pub open spec fn is_sentence(m: Map<Seq<char>, Seq<(Seq<char>, u64)>>, toks: Seq<Seq<char>>) -> bool {
    &&& forall|i: int| 0 <= i < toks.len() ==> (#[trigger] toks[i]) != Seq::<char>::empty()
    &&& if toks.len() == 0 {
        has_edge(m, Seq::<char>::empty(), Seq::<char>::empty())
    } else {
        &&& has_edge(m, Seq::<char>::empty(), toks[0])
        &&& forall|i: int| 0 <= i < toks.len() - 1 ==> has_edge(m, #[trigger] toks[i], toks[i + 1])
        &&& has_edge(m, toks.last(), Seq::<char>::empty())
    }
}

/// The words of a sentence joined by single spaces.
pub open spec fn join_words(toks: Seq<Seq<char>>) -> Seq<char>
    decreases toks.len(),
{
    if toks.len() == 0 {
        Seq::empty()
    } else if toks.len() == 1 {
        toks[0]
    } else {
        join_words(toks.drop_last()) + seq![' '] + toks.last()
    }
}

/// The per-chat learned token graph: a mapping from token to its outgoing
/// edges, each an ordered list of `(next token, positive weight)` pairs.
pub struct Markov {
    chain: Vec<(String, Vec<(String, u64)>)>,
}

impl View for Markov {
    type V = Map<Seq<char>, Seq<(Seq<char>, u64)>>;

    closed spec fn view(&self) -> Map<Seq<char>, Seq<(Seq<char>, u64)>> {
        assoc_map(chain_entries(self.chain@))
    }
}

impl Markov {
    /// Distinct nodes, and every node's edge list well formed.
    pub closed spec fn wf(&self) -> bool {
        let c = self.chain@;
        &&& forall|i: int, j: int|
            0 <= i < j < c.len() ==> (#[trigger] c[i]).0@ != (#[trigger] c[j]).0@
        &&& forall|i: int| 0 <= i < c.len() ==> edges_wf(edges_view((#[trigger] c[i]).1@))
    }

    proof fn lemma_chain_distinct(&self)
        requires
            self.wf(),
        ensures
            distinct_keys(chain_entries(self.chain@)),
    {
        assert forall|i: int, j: int|
            0 <= i < j < chain_entries(self.chain@).len() implies (#[trigger] chain_entries(
            self.chain@,
        )[i]).0 != (#[trigger] chain_entries(self.chain@)[j]).0 by {
            assert((self.chain@[i]).0@ != (self.chain@[j]).0@);
        }
    }

    /// Every stored node has at least one edge and only positive weights.
    pub proof fn lemma_weights_positive(&self)
        requires
            self.wf(),
        ensures
            forall|k: Seq<char>| self@.contains_key(k) ==> (#[trigger] self@[k]).len() >= 1,
            forall|k: Seq<char>, j: int|
                self@.contains_key(k) && 0 <= j < self@[k].len() ==> (#[trigger] self@[k][j]).1
                    >= 1,
    {
        let entries = chain_entries(self.chain@);
        self.lemma_chain_distinct();
        assert forall|k: Seq<char>| self@.contains_key(k) implies (#[trigger] self@[k]).len() >= 1
            && (forall|j: int| 0 <= j < self@[k].len() ==> (#[trigger] self@[k][j]).1 >= 1) by {
            lemma_assoc_contains(entries, k);
            let i = choose|i: int| 0 <= i < entries.len() && (#[trigger] entries[i]).0 == k;
            lemma_assoc_index(entries, i);
            assert(edges_wf(edges_view((self.chain@[i]).1@)));
        }
        assert forall|k: Seq<char>, j: int|
            self@.contains_key(k) && 0 <= j < self@[k].len() implies (#[trigger] self@[k][j]).1
            >= 1 by {
            assert(self@.contains_key(k) ==> (#[trigger] self@[k]).len() >= 1);
        }
    }

    /// An empty model.
    pub fn new() -> (m: Markov)
        ensures
            m@ == Map::<Seq<char>, Seq<(Seq<char>, u64)>>::empty(),
            m.wf(),
    {
        let m = Markov { chain: Vec::new() };
        proof {
            assert(chain_entries(m.chain@) =~= Seq::<(Seq<char>, Seq<(Seq<char>, u64)>)>::empty());
        }
        m
    }

    /// The index of `key`'s node, if stored.
    fn find_node(&self, key: &String) -> (r: Option<usize>)
        ensures
            match r {
                Some(i) => 0 <= i < self.chain@.len() && (self.chain@[i as int]).0@ == key@,
                None => forall|i: int|
                    0 <= i < self.chain@.len() ==> (#[trigger] self.chain@[i]).0@ != key@,
            },
    {
        let mut i: usize = 0;
        while i < self.chain.len()
            invariant
                i <= self.chain@.len(),
                forall|j: int| 0 <= j < i ==> (#[trigger] self.chain@[j]).0@ != key@,
            decreases self.chain@.len() - i,
        {
            if self.chain[i].0.eq(key) {
                return Some(i);
            }
            i += 1;
        }
        None
    }

    /// The index of the edge toward `key` at node `i`, if present.
    fn find_edge(&self, i: usize, key: &String) -> (r: Option<usize>)
        requires
            i < self.chain@.len(),
        ensures
            match r {
                Some(j) => 0 <= j < (self.chain@[i as int]).1@.len() && ((
                self.chain@[i as int]).1@[j as int]).0@ == key@,
                None => forall|j: int|
                    0 <= j < (self.chain@[i as int]).1@.len() ==> (#[trigger] (
                    self.chain@[i as int]).1@[j]).0@ != key@,
            },
    {
        let es = &self.chain[i].1;
        let mut j: usize = 0;
        while j < es.len()
            invariant
                j <= es@.len(),
                es@ == (self.chain@[i as int]).1@,
                forall|x: int| 0 <= x < j ==> (#[trigger] es@[x]).0@ != key@,
            decreases es@.len() - j,
        {
            if es[j].0.eq(key) {
                return Some(j);
            }
            j += 1;
        }
        None
    }

    /// The total outgoing weight at node `i`.
    fn sum_edges(&self, i: usize) -> (total: u64)
        requires
            self.wf(),
            i < self.chain@.len(),
        ensures
            total == sum_weights(edges_view((self.chain@[i as int]).1@)),
    {
        let ghost ev = edges_view((self.chain@[i as int]).1@);
        let es = &self.chain[i].1;
        let mut acc: u64 = 0;
        let mut k: usize = 0;
        proof {
            assert(ev.take(0) =~= Seq::<(Seq<char>, u64)>::empty());
        }
        while k < es.len()
            invariant
                self.wf(),
                i < self.chain@.len(),
                es@ == (self.chain@[i as int]).1@,
                ev == edges_view(es@),
                k <= es@.len(),
                acc == sum_weights(ev.take(k as int)),
            decreases es@.len() - k,
        {
            proof {
                assert(edges_wf(ev));
                lemma_sum_parts(ev, k + 1 as int);
                lemma_sum_nonneg(ev.skip(k + 1 as int));
                assert(ev.take(k + 1 as int).drop_last() =~= ev.take(k as int));
                assert(ev.take(k + 1 as int).last() == ev[k as int]);
                assert(ev[k as int].1 == es@[k as int].1);
            }
            acc = acc + es[k].1;
            k += 1;
        }
        proof {
            assert(ev.take(es@.len() as int) =~= ev);
        }
        acc
    }

    /// The index of the edge a draw of `r` selects: the one whose weight
    /// window `[sum before it, sum including it)` contains `r`. The draw
    /// is a parameter, so the weighting can be tested deterministically.
    pub fn pick_edge(es: &Vec<(String, u64)>, r: u64) -> (i: usize)
        requires
            r < sum_weights(edges_view(es@)),
        ensures
            i < es@.len(),
            sum_weights(edges_view(es@).take(i as int)) <= r < sum_weights(
                edges_view(es@).take(i as int),
            ) + es@[i as int].1,
    {
        let ghost ev = edges_view(es@);
        let n = es.len();
        let mut id: u64 = r;
        let mut k: usize = 0;
        proof {
            assert(ev.take(0) =~= Seq::<(Seq<char>, u64)>::empty());
            assert(ev.skip(0) =~= ev);
            lemma_sum_nonneg(ev);
            if ev.len() == 0 {
                assert(false);
            }
        }
        loop
            invariant
                ev == edges_view(es@),
                n == ev.len(),
                k < ev.len(),
                id == r - sum_weights(ev.take(k as int)),
                id < sum_weights(ev.skip(k as int)),
                sum_weights(ev.take(k as int)) <= r,
            decreases ev.len() - k,
        {
            proof {
                lemma_sum_parts(ev.skip(k as int), 1);
                assert(ev.skip(k as int).take(1) =~= seq![ev[k as int]]);
                lemma_sum_singleton(ev[k as int]);
                assert(ev.skip(k as int).skip(1) =~= ev.skip(k + 1 as int));
                assert(ev.take(k + 1 as int).drop_last() =~= ev.take(k as int));
                assert(ev.take(k + 1 as int).last() == ev[k as int]);
                assert(ev[k as int].1 == es@[k as int].1);
            }
            if id < es[k].1 {
                return k;
            }
            proof {
                lemma_sum_nonneg(ev.skip(k + 1 as int));
                if k + 1 == ev.len() {
                    assert(ev.skip(k + 1 as int) =~= Seq::<(Seq<char>, u64)>::empty());
                    assert(false);
                }
            }
            id = id - es[k].1;
            k += 1;
        }
    }

    /// A random outgoing edge of `from`, each with probability proportional
    /// to its weight; absent exactly when the node is unknown.
    fn random_edge(&self, from: &String) -> (r: Option<String>)
        requires
            self.wf(),
        ensures
            r is Some <==> self@.contains_key(from@),
            r matches Some(t) ==> has_edge(self@, from@, t@),
    {
        let ghost entries = chain_entries(self.chain@);
        proof {
            self.lemma_chain_distinct();
            lemma_assoc_contains(entries, from@);
        }
        match self.find_node(from) {
            None => {
                proof {
                    if self@.contains_key(from@) {
                        let i = choose|i: int|
                            0 <= i < entries.len() && (#[trigger] entries[i]).0 == from@;
                        assert((self.chain@[i]).0@ == from@);
                    }
                }
                None
            },
            Some(i) => {
                proof {
                    assert(entries[i as int].0 == from@);
                    lemma_assoc_index(entries, i as int);
                    assert(self@[from@] == edges_view((self.chain@[i as int]).1@));
                    assert(edges_wf(edges_view((self.chain@[i as int]).1@)));
                }
                let ghost ev = edges_view((self.chain@[i as int]).1@);
                let total = self.sum_edges(i);
                proof {
                    lemma_weight_le_sum(ev, 0);
                    assert(ev[0].1 >= 1);
                }
                let rnd = random_below(total);
                let es = &self.chain[i].1;
                let j = Self::pick_edge(es, rnd);
                proof {
                    assert(ev[j as int].0 == es@[j as int].0@);
                }
                Some(es[j].0.clone())
            },
        }
    }

    /// Learns a message: its whitespace-separated words are bracketed with
    /// the sentinel and every adjacent pair bumps one edge, left to right.
    /// Fails, changing nothing further, at the first counter with no room.
    pub fn add_sequence(&mut self, message: String) -> (r: Result<(), WeightOverflow>)
        requires
            old(self).wf(),
        ensures
            final(self).wf(),
            ({
                let (m2, ok) = learn_pairs(old(self)@, sentence_tokens(message@));
                final(self)@ == m2 && (r is Ok <==> ok)
            }),
    {
        let chars = chars_of(message.as_str());
        let segs = split_spaces(&chars);
        let words = keep_nonempty(segs);
        let mut tokens: Vec<String> = Vec::new();
        tokens.push(String::new());
        let mut i: usize = 0;
        while i < words.len()
            invariant
                i <= words@.len(),
                tokens@.len() == i + 1,
                tokens@[0]@ == Seq::<char>::empty(),
                forall|j: int| 0 <= j < i ==> tokens@[j + 1]@ == seg_views(words@)[j],
            decreases words@.len() - i,
        {
            tokens.push(chars_to_string(&words[i]));
            i += 1;
        }
        tokens.push(String::new());
        let ghost full = str_views(tokens@);
        proof {
            assert(full =~= sentence_tokens(message@));
        }
        let ghost m0 = self@;
        let n = tokens.len();
        let mut k: usize = 0;
        proof {
            assert(full.skip(0) =~= full);
        }
        while k + 1 < n
            invariant
                self.wf(),
                n == tokens@.len(),
                k < tokens@.len(),
                full == str_views(tokens@),
                m0 == old(self)@,
                full == sentence_tokens(message@),
                learn_pairs(m0, full) == learn_pairs(self@, full.skip(k as int)),
            decreases tokens@.len() - k,
        {
            proof {
                assert(full.skip(k as int)[0] == tokens@[k as int]@);
                assert(full.skip(k as int)[1] == tokens@[k + 1 as int]@);
                assert(full.skip(k as int).skip(1) =~= full.skip(k + 1 as int));
                assert(full.skip(k as int).len() >= 2);
            }
            let ghost m_pre = self@;
            let r = self.add_pair_at(k, &tokens);
            if r.is_err() {
                proof {
                    let (m1, ok) = learn_pair(m_pre, tokens@[k as int]@, tokens@[k + 1 as int]@);
                    assert(!ok && self@ == m1);
                    assert(learn_pairs(m_pre, full.skip(k as int)) == (self@, false));
                }
                return Err(WeightOverflow);
            }
            proof {
                let (m1, ok) = learn_pair(m_pre, tokens@[k as int]@, tokens@[k + 1 as int]@);
                assert(ok && self@ == m1);
                assert(learn_pairs(m_pre, full.skip(k as int)) == learn_pairs(
                    self@,
                    full.skip(k + 1 as int),
                ));
            }
            k += 1;
        }
        proof {
            assert(full.skip(k as int).len() < 2);
        }
        Ok(())
    }

    /// Learns the adjacent pair `tokens[k] -> tokens[k + 1]`.
    fn add_pair_at(&mut self, k: usize, tokens: &Vec<String>) -> (r: Result<(), WeightOverflow>)
        requires
            old(self).wf(),
            k + 1 < tokens@.len(),
        ensures
            final(self).wf(),
            ({
                let (m1, ok) = learn_pair(old(self)@, tokens@[k as int]@, tokens@[k + 1 as int]@);
                final(self)@ == m1 && (r is Ok <==> ok)
            }),
    {
        let n = tokens.len();
        assert(k + 1 < n);
        let prev = &tokens[k];
        let next = &tokens[k + 1];
        let ghost entries = chain_entries(self.chain@);
        proof {
            self.lemma_chain_distinct();
            lemma_assoc_contains(entries, prev@);
        }
        match self.find_node(prev) {
            None => {
                proof {
                    if self@.contains_key(prev@) {
                        let i = choose|i: int|
                            0 <= i < entries.len() && (#[trigger] entries[i]).0 == prev@;
                        assert((self.chain@[i]).0@ == prev@);
                    }
                }
                let mut es: Vec<(String, u64)> = Vec::new();
                es.push((next.clone(), 1u64));
                let ghost ev = edges_view(es@);
                self.chain.push((prev.clone(), es));
                proof {
                    assert(chain_entries(self.chain@) =~= entries.push((prev@, ev)));
                    lemma_assoc_push(entries, prev@, ev);
                    assert(ev =~= seq![(next@, 1u64)]);
                    lemma_sum_singleton((next@, 1u64));
                    assert(edges_wf(ev));
                    assert forall|x: int, y: int|
                        0 <= x < y < self.chain@.len() implies (#[trigger] self.chain@[x]).0@ != (
                    #[trigger] self.chain@[y]).0@ by {
                        if y == self.chain@.len() - 1 {
                            assert((old(self).chain@[x]).0@ != prev@);
                        }
                    }
                }
                Ok(())
            },
            Some(i) => {
                proof {
                    assert(entries[i as int].0 == prev@);
                    lemma_assoc_index(entries, i as int);
                    assert(self@[prev@] == edges_view((self.chain@[i as int]).1@));
                    assert(edges_wf(edges_view((self.chain@[i as int]).1@)));
                }
                let ghost ev = edges_view((self.chain@[i as int]).1@);
                let total = self.sum_edges(i);
                if total == u64::MAX {
                    return Err(WeightOverflow);
                }
                // Rebuild the node's edge list with the bumped edge, then
                // replace the entry wholesale.
                let mut es2: Vec<(String, u64)> = Vec::new();
                let node_len = self.chain[i].1.len();
                let mut x: usize = 0;
                while x < node_len
                    invariant
                        x <= node_len,
                        i < self.chain@.len(),
                        node_len == (self.chain@[i as int]).1@.len(),
                        es2@ == (self.chain@[i as int]).1@.take(x as int),
                        self == old(self),
                    decreases node_len - x,
                {
                    let p = (self.chain[i].1[x].0.clone(), self.chain[i].1[x].1);
                    es2.push(p);
                    proof {
                        assert(es2@ =~= (self.chain@[i as int]).1@.take(x + 1 as int));
                    }
                    x += 1;
                }
                proof {
                    assert(es2@ =~= (self.chain@[i as int]).1@);
                }
                let j = self.find_edge(i, next);
                match j {
                    Some(j) => {
                        proof {
                            assert(ev[j as int].0 == next@);
                            assert(exists|y: int|
                                0 <= y < ev.len() && (#[trigger] ev[y]).0 == next@);
                            let y = choose|y: int|
                                0 <= y < ev.len() && (#[trigger] ev[y]).0 == next@;
                            if y != j {
                                assert((ev[y]).0 != (ev[j as int]).0);
                            }
                            assert(y == j);
                            lemma_weight_le_sum(ev, j as int);
                        }
                        let w = es2[j].1;
                        es2.set(j, (next.clone(), w + 1));
                        proof {
                            assert(edges_view(es2@) =~= ev.update(j as int, (next@, (w + 1) as u64)));
                            assert(bump_edge(ev, next@) == ev.update(j as int, (next@, (w + 1) as u64)));
                        }
                    },
                    None => {
                        proof {
                            if exists|y: int| 0 <= y < ev.len() && (#[trigger] ev[y]).0 == next@ {
                                let y = choose|y: int|
                                    0 <= y < ev.len() && (#[trigger] ev[y]).0 == next@;
                                assert(((self.chain@[i as int]).1@[y]).0@ == next@);
                            }
                        }
                        es2.push((next.clone(), 1u64));
                        proof {
                            assert(edges_view(es2@) =~= ev.push((next@, 1u64)));
                            assert(bump_edge(ev, next@) == ev.push((next@, 1u64)));
                        }
                    },
                }
                let ghost ev2 = edges_view(es2@);
                proof {
                    assert(ev2 == bump_edge(ev, next@));
                    // The bumped list is still well formed.
                    match j {
                        Some(j) => {
                            lemma_sum_update(ev, j as int, (next@, (ev[j as int].1 + 1) as u64));
                            assert forall|a: int, b: int|
                                0 <= a < b < ev2.len() implies (#[trigger] ev2[a]).0 != (
                            #[trigger] ev2[b]).0 by {
                                assert(ev2[a].0 == ev[a].0 && ev2[b].0 == ev[b].0);
                            }
                            assert(edges_wf(ev2));
                        },
                        None => {
                            assert(sum_weights(ev2) == sum_weights(ev) + 1) by {
                                assert(ev2.drop_last() =~= ev);
                            }
                            assert forall|a: int, b: int|
                                0 <= a < b < ev2.len() implies (#[trigger] ev2[a]).0 != (
                            #[trigger] ev2[b]).0 by {
                                if b == ev2.len() - 1 {
                                    assert(ev2[a].0 == ev[a].0 && ev2[b].0 == next@);
                                } else {
                                    assert(ev2[a].0 == ev[a].0 && ev2[b].0 == ev[b].0);
                                }
                            }
                            assert(edges_wf(ev2));
                        },
                    }
                }
                let ghost old_chain = self.chain@;
                self.chain.set(i, (prev.clone(), es2));
                proof {
                    assert(chain_entries(self.chain@) =~= chain_entries(old_chain).update(
                        i as int,
                        (prev@, ev2),
                    ));
                    assert(entries[i as int].0 == prev@);
                    lemma_assoc_update(entries, i as int, ev2);
                    assert(self@ == old(self)@.insert(prev@, bump_edge(old(self)@[prev@], next@)));
                    assert forall|a: int, b: int|
                        0 <= a < b < self.chain@.len() implies (#[trigger] self.chain@[a]).0@ != (
                    #[trigger] self.chain@[b]).0@ by {
                        assert((old_chain[a]).0@ != (old_chain[b]).0@);
                        if a == i as int {
                            assert((self.chain@[a]).0@ == prev@);
                        }
                    }
                    assert forall|a: int|
                        0 <= a < self.chain@.len() implies edges_wf(
                        edges_view((#[trigger] self.chain@[a]).1@),
                    ) by {
                        if a != i as int {
                            assert(edges_wf(edges_view((old_chain[a]).1@)));
                        }
                    }
                }
                Ok(())
            },
        }
    }

    /// Generates one sentence: starting at the sentinel, repeatedly samples
    /// an outgoing edge until the sentinel is reached again, and joins the
    /// visited tokens with single spaces. An untrained model yields
    /// nothing; anything yielded is a walk the model admits.
    pub fn get_random(&self) -> (r: Option<String>)
        requires
            self.wf(),
        ensures
            !self@.contains_key(Seq::<char>::empty()) ==> r is None,
            r matches Some(s) ==> exists|toks: Seq<Seq<char>>|
                is_sentence(self@, toks) && s@ == join_words(toks),
    {
        let empty_key = String::new();
        let first = match self.random_edge(&empty_key) {
            None => {
                return None;
            },
            Some(x) => x,
        };
        if first.as_str().is_empty() {
            let out = String::new();
            proof {
                assert(first@ =~= Seq::<char>::empty());
                let toks = Seq::<Seq<char>>::empty();
                assert(is_sentence(self@, toks));
                assert(out@ == join_words(toks));
            }
            return Some(out);
        }
        let mut msg = first.clone();
        let mut last = first;
        let ghost mut toks: Seq<Seq<char>> = seq![last@];
        let mut fuel: u64 = 0xffff_ffff;
        proof {
            assert(join_words(toks) == toks[0]);
        }
        while fuel > 0
            invariant
                self.wf(),
                toks.len() >= 1,
                toks.last() == last@,
                last@ != Seq::<char>::empty(),
                forall|i: int| 0 <= i < toks.len() ==> (#[trigger] toks[i]) != Seq::<char>::empty(),
                has_edge(self@, Seq::<char>::empty(), toks[0]),
                forall|i: int|
                    0 <= i < toks.len() - 1 ==> has_edge(self@, #[trigger] toks[i], toks[i + 1]),
                msg@ == join_words(toks),
            decreases fuel,
        {
            match self.random_edge(&last) {
                None => {
                    return None;
                },
                Some(t) => {
                    if t.as_str().is_empty() {
                        proof {
                            assert(t@ =~= Seq::<char>::empty());
                            assert(has_edge(self@, toks.last(), Seq::<char>::empty()));
                            assert(is_sentence(self@, toks));
                        }
                        return Some(msg);
                    }
                    proof {
                        reveal_strlit(" ");
                        assert(" "@ =~= seq![' ']);
                    }
                    msg.append(" ");
                    msg.append(t.as_str());
                    proof {
                        let toks2 = toks.push(t@);
                        assert(toks2.drop_last() =~= toks);
                        assert(toks2.last() == t@);
                        assert(join_words(toks2) == join_words(toks) + seq![' '] + t@);
                        assert forall|i: int|
                            0 <= i < toks2.len() - 1 implies has_edge(
                            self@,
                            #[trigger] toks2[i],
                            toks2[i + 1],
                        ) by {
                            if i < toks.len() - 1 {
                                assert(toks2[i] == toks[i] && toks2[i + 1] == toks[i + 1]);
                            } else {
                                assert(toks2[i] == toks.last() && toks2[i + 1] == t@);
                            }
                        }
                        toks = toks2;
                    }
                    last = t;
                },
            }
            fuel -= 1;
        }
        None
    }

    /// A copy of the outgoing edges of `from`, in insertion order; empty
    /// when the node is unknown.
    pub fn outgoing(&self, from: &String) -> (r: Vec<(String, u64)>)
        requires
            self.wf(),
        ensures
            self@.contains_key(from@) ==> edges_view(r@) == self@[from@],
            !self@.contains_key(from@) ==> r@.len() == 0,
    {
        let ghost entries = chain_entries(self.chain@);
        proof {
            self.lemma_chain_distinct();
            lemma_assoc_contains(entries, from@);
        }
        match self.find_node(from) {
            None => {
                proof {
                    if self@.contains_key(from@) {
                        let i = choose|i: int|
                            0 <= i < entries.len() && (#[trigger] entries[i]).0 == from@;
                        assert((self.chain@[i]).0@ == from@);
                    }
                }
                Vec::new()
            },
            Some(i) => {
                proof {
                    assert(entries[i as int].0 == from@);
                    lemma_assoc_index(entries, i as int);
                }
                let node_len = self.chain[i].1.len();
                let mut r: Vec<(String, u64)> = Vec::new();
                let mut x: usize = 0;
                while x < node_len
                    invariant
                        x <= node_len,
                        i < self.chain@.len(),
                        node_len == (self.chain@[i as int]).1@.len(),
                        r@ == (self.chain@[i as int]).1@.take(x as int),
                    decreases node_len - x,
                {
                    let p = (self.chain[i].1[x].0.clone(), self.chain[i].1[x].1);
                    r.push(p);
                    proof {
                        assert(r@ =~= (self.chain@[i as int]).1@.take(x + 1 as int));
                    }
                    x += 1;
                }
                proof {
                    assert(r@ =~= (self.chain@[i as int]).1@);
                }
                r
            },
        }
    }

    /// How many nodes the model stores.
    pub fn node_count(&self) -> (n: usize)
        requires
            self.wf(),
        ensures
            self@.dom().finite(),
            n == self@.dom().len(),
    {
        proof {
            self.lemma_chain_distinct();
            lemma_assoc_len(chain_entries(self.chain@));
        }
        self.chain.len()
    }
}

} // verus!
