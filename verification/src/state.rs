//! One chat's state: its trigger rules, its stored thoughts, and its
//! Markov model.

use vstd::prelude::*;
use crate::expr::{Expression, SpecExpression, spec_eval, word_set};
use crate::markov::Markov;
use crate::text::str_views;
use crate::rng::shuffle_vec;

verus! {

/// The mathematical value of one chat's state.
pub struct TrapperView {
    pub commands: Seq<SpecExpression>,
    pub thoughts: Seq<Seq<char>>,
    pub markov: Map<Seq<char>, Seq<(Seq<char>, u64)>>,
}

/// The views of a list of trigger rules.
pub open spec fn cmd_views(cs: Seq<Expression>) -> Seq<SpecExpression> {
    cs.map_values(|e: Expression| e@)
}

/// One chat's trigger rules, thoughts, and Markov model.
pub struct Trapper {
    pub commands: Vec<Expression>,
    pub thoughts: Vec<String>,
    pub markov: Markov,
}

impl View for Trapper {
    type V = TrapperView;

    open spec fn view(&self) -> TrapperView {
        TrapperView {
            commands: cmd_views(self.commands@),
            thoughts: str_views(self.thoughts@),
            markov: self.markov@,
        }
    }
}

/// The view of a freshly created chat state.
pub open spec fn empty_trapper_view() -> TrapperView {
    TrapperView {
        commands: Seq::empty(),
        thoughts: Seq::empty(),
        markov: Map::empty(),
    }
}

impl Trapper {
    /// The state's Markov model is well formed.
    pub open spec fn wf(&self) -> bool {
        self.markov.wf()
    }

    /// An empty chat state.
    pub fn new() -> (t: Trapper)
        ensures
            t@ == empty_trapper_view(),
            t.wf(),
    {
        let t = Trapper { commands: Vec::new(), thoughts: Vec::new(), markov: Markov::new() };
        proof {
            assert(cmd_views(t.commands@) =~= Seq::<SpecExpression>::empty());
            assert(str_views(t.thoughts@) =~= Seq::<Seq<char>>::empty());
        }
        t
    }

    /// Puts the trigger rules in a random order; the rules themselves are
    /// kept, multiplicity included.
    pub fn shuffle_commands(&mut self)
        ensures
            final(self).commands@.to_multiset() == old(self).commands@.to_multiset(),
            final(self).thoughts == old(self).thoughts,
            final(self).markov == old(self).markov,
    {
        shuffle_vec(&mut self.commands);
    }

    /// Puts the thoughts in a random order; the thoughts themselves are
    /// kept, multiplicity included.
    pub fn shuffle_thoughts(&mut self)
        ensures
            final(self).thoughts@.to_multiset() == old(self).thoughts@.to_multiset(),
            final(self).commands == old(self).commands,
            final(self).markov == old(self).markov,
    {
        shuffle_vec(&mut self.thoughts);
    }

    /// Matches the present words against this chat's rules in a freshly
    /// randomized order and returns the first matching rule's response;
    /// nothing exactly when no rule matches.
    pub fn match_trigger(&mut self, words: &Vec<String>) -> (r: Option<String>)
        requires
            old(self).wf(),
        ensures
            final(self).wf(),
            final(self).thoughts == old(self).thoughts,
            final(self).markov == old(self).markov,
            final(self).commands@.to_multiset() == old(self).commands@.to_multiset(),
            r matches Some(resp) ==> exists|i: int|
                0 <= i < old(self).commands@.len() && spec_eval(
                    (#[trigger] old(self).commands@[i])@.tree,
                    word_set(words@),
                ) && resp@ == old(self).commands@[i]@.response,
            r is None ==> forall|i: int|
                0 <= i < old(self).commands@.len() ==> !spec_eval(
                    (#[trigger] old(self).commands@[i])@.tree,
                    word_set(words@),
                ),
    {
        broadcast use vstd::seq_lib::group_to_multiset_ensures;

        self.shuffle_commands();
        let ghost shuffled = self.commands@;
        let mut i: usize = 0;
        while i < self.commands.len()
            invariant
                self.wf(),
                self.commands@ == shuffled,
                self.thoughts == old(self).thoughts,
                self.markov == old(self).markov,
                shuffled.to_multiset() == old(self).commands@.to_multiset(),
                forall|j: int|
                    0 <= j < i ==> !spec_eval(
                        (#[trigger] shuffled[j])@.tree,
                        word_set(words@),
                    ),
                i <= shuffled.len(),
            decreases shuffled.len() - i,
        {
            if self.commands[i].eval(words) {
                let resp = self.commands[i].response.clone();
                proof {
                    broadcast use vstd::seq_lib::group_to_multiset_ensures;

                    let e = shuffled[i as int];
                    assert(shuffled.contains(e));
                    assert(shuffled.to_multiset().count(e) > 0);
                    assert(old(self).commands@.to_multiset().count(e) > 0);
                    assert(old(self).commands@.contains(e));
                    let x = choose|x: int|
                        0 <= x < old(self).commands@.len() && old(self).commands@[x] == e;
                    assert(spec_eval((old(self).commands@[x])@.tree, word_set(words@)));
                }
                return Some(resp);
            }
            i += 1;
        }
        proof {
            broadcast use vstd::seq_lib::group_to_multiset_ensures;

            assert forall|x: int| 0 <= x < old(self).commands@.len() implies !spec_eval(
                (#[trigger] old(self).commands@[x])@.tree,
                word_set(words@),
            ) by {
                let e = old(self).commands@[x];
                assert(old(self).commands@.contains(e));
                assert(old(self).commands@.to_multiset().count(e) > 0);
                assert(shuffled.to_multiset().count(e) > 0);
                assert(shuffled.contains(e));
                let j = choose|j: int| 0 <= j < shuffled.len() && shuffled[j] == e;
                assert(!spec_eval((shuffled[j])@.tree, word_set(words@)));
            }
        }
        None
    }

    /// Hands out one stored thought, chosen at random, removing it;
    /// nothing exactly when no thought is stored.
    pub fn pop_thought(&mut self) -> (r: Option<String>)
        ensures
            final(self).commands == old(self).commands,
            final(self).markov == old(self).markov,
            r is None <==> old(self).thoughts@.len() == 0,
            r is None ==> final(self).thoughts@ == old(self).thoughts@,
            r matches Some(t) ==> old(self).thoughts@.to_multiset().contains(t)
                && final(self).thoughts@.to_multiset() == old(
                self,
            ).thoughts@.to_multiset().remove(t),
    {
        broadcast use vstd::seq_lib::group_to_multiset_ensures;

        self.shuffle_thoughts();
        let ghost shuffled = self.thoughts@;
        let r = self.thoughts.pop();
        proof {
            assert(shuffled.to_multiset().len() == shuffled.len());
            assert(old(self).thoughts@.to_multiset().len() == old(self).thoughts@.len());
            if shuffled.len() == 0 {
                assert(self.thoughts@ =~= old(self).thoughts@);
            }
            if shuffled.len() > 0 {
                let t = shuffled.last();
                assert(shuffled =~= shuffled.drop_last().push(t));
                assert(shuffled.drop_last().push(t).to_multiset() =~= shuffled.drop_last()
                    .to_multiset().insert(t));
                assert(shuffled.contains(t));
                assert(shuffled.drop_last().to_multiset() =~= shuffled.to_multiset().remove(t));
            }
        }
        r
    }
}

} // verus!
