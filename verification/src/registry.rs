//! The per-chat state registry: every operation touches exactly one
//! chat's state, which is created empty on first touch. Taking an entry
//! out, mutating it, and putting it back is the registry's only idiom, so
//! each contract says precisely which chat changed and how.

use vstd::prelude::*;
use crate::assoc::{
    assoc_map, distinct_keys, lemma_assoc_contains, lemma_assoc_index, lemma_assoc_push,
    lemma_assoc_remove,
};
use crate::expr::{Expression, SpecExpression, ParseError, spec_from_str, spec_eval, word_set};
use crate::markov::{WeightOverflow, learn_pairs, sentence_tokens, is_sentence, join_words};
use crate::state::{Trapper, TrapperView, empty_trapper_view, cmd_views};
use crate::text::str_views;

verus! {

/// The mathematical value of the registry's entry list.
pub open spec fn reg_entries(es: Seq<(i64, Trapper)>) -> Seq<(int, TrapperView)> {
    es.map_values(|p: (i64, Trapper)| (p.0 as int, p.1@))
}

/// The state of chat `k`, counting an untouched chat as empty.
pub open spec fn chat_state(m: Map<int, TrapperView>, k: int) -> TrapperView {
    if m.contains_key(k) {
        m[k]
    } else {
        empty_trapper_view()
    }
}

/// Every rule stored in `t` belongs to chat `k`.
pub open spec fn chat_consistent(k: int, t: TrapperView) -> bool {
    forall|c: int| 0 <= c < t.commands.len() ==> (#[trigger] t.commands[c]).group_id == k
}

/// Mapping a sequence keeps multiset equality.
proof fn lemma_map_multiset<A, B>(a: Seq<A>, b: Seq<A>, f: spec_fn(A) -> B)
    requires
        a.to_multiset() == b.to_multiset(),
    ensures
        a.map_values(f).to_multiset() == b.map_values(f).to_multiset(),
    decreases a.len(),
{
    broadcast use vstd::seq_lib::group_to_multiset_ensures;
    broadcast use vstd::multiset::group_multiset_axioms;

    if a.len() == 0 {
        assert(a.to_multiset().len() == 0);
        assert(b.to_multiset().len() == 0);
        assert(b.len() == 0);
        assert(a.map_values(f) =~= Seq::<B>::empty());
        assert(b.map_values(f) =~= Seq::<B>::empty());
    } else {
        let x = a.last();
        assert(a.contains(x));
        assert(a.to_multiset().count(x) > 0);
        assert(b.to_multiset().count(x) > 0);
        assert(b.contains(x));
        let j = choose|j: int| 0 <= j < b.len() && b[j] == x;
        let a1 = a.drop_last();
        let b1 = b.remove(j);
        assert(a.remove(a.len() - 1) =~= a1);
        assert(a1.to_multiset() =~= a.to_multiset().remove(x));
        assert(b1.to_multiset() =~= b.to_multiset().remove(x));
        lemma_map_multiset(a1, b1, f);
        assert(a.map_values(f) =~= a1.map_values(f).push(f(x)));
        assert(a.map_values(f).to_multiset() =~= a1.map_values(f).to_multiset().insert(f(x)));
        assert(b.map_values(f).remove(j) =~= b1.map_values(f));
        assert(b.map_values(f)[j] == f(x));
        assert(b.map_values(f).remove(j).to_multiset() =~= b.map_values(f).to_multiset().remove(
            f(x),
        ));
        assert(b.map_values(f).contains(f(x)));
        assert(b.map_values(f).to_multiset().count(f(x)) > 0);
        assert(b.map_values(f).to_multiset() =~= b1.map_values(f).to_multiset().insert(f(x)));
    }
}

/// The concurrent map from chat id to that chat's state.
pub struct StateRegistry {
    entries: Vec<(i64, Trapper)>,
}

impl View for StateRegistry {
    type V = Map<int, TrapperView>;

    closed spec fn view(&self) -> Map<int, TrapperView> {
        assoc_map(reg_entries(self.entries@))
    }
}

impl StateRegistry {
    /// One entry per chat, each well formed, each holding only its own
    /// chat's rules.
    pub closed spec fn wf(&self) -> bool {
        let es = self.entries@;
        &&& forall|i: int, j: int|
            0 <= i < j < es.len() ==> (#[trigger] es[i]).0 != (#[trigger] es[j]).0
        &&& forall|i: int| 0 <= i < es.len() ==> (#[trigger] es[i]).1.wf()
        &&& forall|i: int|
            0 <= i < es.len() ==> chat_consistent((#[trigger] es[i]).0 as int, es[i].1@)
    }

    proof fn lemma_entries_distinct(&self)
        requires
            self.wf(),
        ensures
            distinct_keys(reg_entries(self.entries@)),
    {
        let es = reg_entries(self.entries@);
        assert forall|i: int, j: int| 0 <= i < j < es.len() implies (#[trigger] es[i]).0 != (
        #[trigger] es[j]).0 by {
            assert((self.entries@[i]).0 != (self.entries@[j]).0);
        }
    }

    /// Every stored chat's rules carry its own id.
    pub proof fn lemma_groups_consistent(&self)
        requires
            self.wf(),
        ensures
            forall|k: int| self@.contains_key(k) ==> chat_consistent(k, #[trigger] self@[k]),
    {
        let es = reg_entries(self.entries@);
        self.lemma_entries_distinct();
        assert forall|k: int| self@.contains_key(k) implies chat_consistent(
            k,
            #[trigger] self@[k],
        ) by {
            lemma_assoc_contains(es, k);
            let i = choose|i: int| 0 <= i < es.len() && (#[trigger] es[i]).0 == k;
            lemma_assoc_index(es, i);
            assert(chat_consistent((self.entries@[i]).0 as int, (self.entries@[i]).1@));
        }
    }

    /// An empty registry.
    pub fn new() -> (r: StateRegistry)
        ensures
            r@ == Map::<int, TrapperView>::empty(),
            r.wf(),
    {
        let r = StateRegistry { entries: Vec::new() };
        proof {
            assert(reg_entries(r.entries@) =~= Seq::<(int, TrapperView)>::empty());
        }
        r
    }

    /// The index of the chat's entry, if stored.
    fn find_chat(&self, chat_id: i64) -> (r: Option<usize>)
        ensures
            match r {
                Some(i) => 0 <= i < self.entries@.len() && (self.entries@[i as int]).0 == chat_id,
                None => forall|i: int|
                    0 <= i < self.entries@.len() ==> (#[trigger] self.entries@[i]).0 != chat_id,
            },
    {
        let mut i: usize = 0;
        while i < self.entries.len()
            invariant
                i <= self.entries@.len(),
                forall|j: int| 0 <= j < i ==> (#[trigger] self.entries@[j]).0 != chat_id,
            decreases self.entries@.len() - i,
        {
            if self.entries[i].0 == chat_id {
                return Some(i);
            }
            i += 1;
        }
        None
    }

    /// Takes chat `chat_id`'s state out of the registry, creating an empty
    /// state on first touch.
    fn take_chat(&mut self, chat_id: i64) -> (t: Trapper)
        requires
            old(self).wf(),
        ensures
            final(self).wf(),
            t.wf(),
            t@ == chat_state(old(self)@, chat_id as int),
            chat_consistent(chat_id as int, t@),
            final(self)@ == old(self)@.remove(chat_id as int),
            !final(self)@.contains_key(chat_id as int),
    {
        let ghost es = reg_entries(self.entries@);
        proof {
            self.lemma_entries_distinct();
            lemma_assoc_contains(es, chat_id as int);
        }
        match self.find_chat(chat_id) {
            None => {
                proof {
                    if self@.contains_key(chat_id as int) {
                        let i = choose|i: int|
                            0 <= i < es.len() && (#[trigger] es[i]).0 == chat_id as int;
                        assert((self.entries@[i]).0 == chat_id);
                    }
                    assert(self@.remove(chat_id as int) =~= self@);
                    assert(!self@.contains_key(chat_id as int));
                }
                Trapper::new()
            },
            Some(i) => {
                proof {
                    assert(es[i as int].0 == chat_id as int);
                    lemma_assoc_index(es, i as int);
                    lemma_assoc_remove(es, i as int);
                }
                let ghost old_entries = self.entries@;
                let (_key, t) = self.entries.remove(i);
                proof {
                    assert(reg_entries(self.entries@) =~= es.remove(i as int));
                    assert(t == (old_entries[i as int]).1);
                    assert(t@ == chat_state(old(self)@, chat_id as int));
                    assert(t.wf() && chat_consistent(chat_id as int, t@));
                    assert forall|x: int|
                        0 <= x < self.entries@.len() implies ((#[trigger] self.entries@[x]).1.wf()
                        && chat_consistent((self.entries@[x]).0 as int, (self.entries@[x]).1@)) by {
                        if x < i {
                            assert(self.entries@[x] == old_entries[x]);
                        } else {
                            assert(self.entries@[x] == old_entries[x + 1]);
                        }
                    }
                    assert forall|x: int, y: int|
                        0 <= x < y < self.entries@.len() implies (#[trigger] self.entries@[x]).0
                        != (#[trigger] self.entries@[y]).0 by {
                        let x0: int = if x < i { x } else { x + 1 };
                        let y0: int = if y < i { y } else { y + 1 };
                        assert(self.entries@[x] == old_entries[x0]);
                        assert(self.entries@[y] == old_entries[y0]);
                        assert((old_entries[x0]).0 != (old_entries[y0]).0);
                    }
                }
                t
            },
        }
    }

    /// Puts a chat's state into the registry; the chat must be absent.
    fn put_chat(&mut self, chat_id: i64, t: Trapper)
        requires
            old(self).wf(),
            !old(self)@.contains_key(chat_id as int),
            t.wf(),
            chat_consistent(chat_id as int, t@),
        ensures
            final(self).wf(),
            final(self)@ == old(self)@.insert(chat_id as int, t@),
    {
        let ghost es = reg_entries(self.entries@);
        let ghost tv = t@;
        proof {
            self.lemma_entries_distinct();
            lemma_assoc_contains(es, chat_id as int);
        }
        let ghost old_entries = self.entries@;
        self.entries.push((chat_id, t));
        proof {
            assert(reg_entries(self.entries@) =~= es.push((chat_id as int, tv)));
            lemma_assoc_push(es, chat_id as int, tv);
            assert forall|x: int, y: int|
                0 <= x < y < self.entries@.len() implies (#[trigger] self.entries@[x]).0 != (
            #[trigger] self.entries@[y]).0 by {
                if y == self.entries@.len() - 1 {
                    assert(self.entries@[x] == old_entries[x]);
                    assert(es[x].0 == (old_entries[x]).0 as int);
                    assert((old_entries[x]).0 != chat_id);
                } else {
                    assert(self.entries@[x] == old_entries[x]);
                    assert(self.entries@[y] == old_entries[y]);
                }
            }
            assert forall|x: int|
                0 <= x < self.entries@.len() implies ((#[trigger] self.entries@[x]).1.wf()
                && chat_consistent((self.entries@[x]).0 as int, (self.entries@[x]).1@)) by {
                if x < self.entries@.len() - 1 {
                    assert(self.entries@[x] == old_entries[x]);
                }
            }
        }
    }

    /// Adds one trigger rule to the chat its `group_id` names: that chat's
    /// rule list grows by exactly this rule, at the end, and no other
    /// chat's state changes.
    pub fn add_expression(&mut self, expr: Expression)
        requires
            old(self).wf(),
        ensures
            final(self).wf(),
            final(self)@ == old(self)@.insert(
                expr.group_id as int,
                (TrapperView {
                    commands: chat_state(old(self)@, expr.group_id as int).commands.push(expr@),
                    thoughts: chat_state(old(self)@, expr.group_id as int).thoughts,
                    markov: chat_state(old(self)@, expr.group_id as int).markov,
                }),
            ),
    {
        let g = expr.group_id;
        let ghost ev = expr@;
        let mut t = self.take_chat(g);
        let ghost tv = t@;
        t.commands.push(expr);
        proof {
            assert(cmd_views(t.commands@) =~= tv.commands.push(ev));
            assert forall|c: int| 0 <= c < t@.commands.len() implies (
            #[trigger] t@.commands[c]).group_id == g as int by {
                if c < tv.commands.len() {
                    assert(t@.commands[c] == tv.commands[c]);
                }
            }
        }
        self.put_chat(g, t);
        proof {
            assert(old(self)@.remove(g as int).insert(g as int, t@) =~= old(self)@.insert(
                g as int,
                t@,
            ));
        }
    }

    /// Stores one thought for the chat: its thought list grows by exactly
    /// this text, at the end, and no other chat's state changes.
    pub fn add_thought(&mut self, chat_id: i64, text: String)
        requires
            old(self).wf(),
        ensures
            final(self).wf(),
            final(self)@ == old(self)@.insert(
                chat_id as int,
                (TrapperView {
                    commands: chat_state(old(self)@, chat_id as int).commands,
                    thoughts: chat_state(old(self)@, chat_id as int).thoughts.push(text@),
                    markov: chat_state(old(self)@, chat_id as int).markov,
                }),
            ),
    {
        let ghost txt = text@;
        let mut t = self.take_chat(chat_id);
        let ghost tv = t@;
        t.thoughts.push(text);
        proof {
            assert(str_views(t.thoughts@) =~= tv.thoughts.push(txt));
        }
        self.put_chat(chat_id, t);
        proof {
            assert(old(self)@.remove(chat_id as int).insert(chat_id as int, t@) =~= old(self)@.insert(chat_id as int, t@));
        }
    }

    /// Teaches the chat's Markov model one message, exactly as
    /// `learn_pairs` describes; nothing else changes.
    pub fn learn(&mut self, chat_id: i64, message: String) -> (r: Result<(), WeightOverflow>)
        requires
            old(self).wf(),
        ensures
            final(self).wf(),
            ({
                let cs = chat_state(old(self)@, chat_id as int);
                let (m2, ok) = learn_pairs(cs.markov, sentence_tokens(message@));
                final(self)@ == old(self)@.insert(
                    chat_id as int,
                    (TrapperView { commands: cs.commands, thoughts: cs.thoughts, markov: m2 }),
                ) && (r is Ok <==> ok)
            }),
    {
        let mut t = self.take_chat(chat_id);
        let r = t.markov.add_sequence(message);
        self.put_chat(chat_id, t);
        proof {
            assert(old(self)@.remove(chat_id as int).insert(chat_id as int, t@) =~= old(self)@.insert(chat_id as int, t@));
        }
        r
    }

    /// Matches the present words against the chat's rules, in a freshly
    /// randomized order, and returns the first matching rule's response;
    /// nothing exactly when no rule of that chat matches. Only the touched
    /// chat's rule order changes; every other chat is untouched.
    pub fn match_trigger(&mut self, chat_id: i64, words: &Vec<String>) -> (r: Option<String>)
        requires
            old(self).wf(),
        ensures
            final(self).wf(),
            ({
                let cs = chat_state(old(self)@, chat_id as int);
                &&& final(self)@.contains_key(chat_id as int)
                &&& forall|k: int|
                    k != chat_id as int ==> (final(self)@.contains_key(k) <==> old(self)@.contains_key(k))
                &&& forall|k: int|
                    k != chat_id as int && old(self)@.contains_key(k) ==> final(self)@[k] == old(self)@[k]
                &&& final(self)@[chat_id as int].thoughts == cs.thoughts
                &&& final(self)@[chat_id as int].markov == cs.markov
                &&& final(self)@[chat_id as int].commands.to_multiset() == cs.commands.to_multiset()
                &&& (r matches Some(resp) ==> exists|i: int|
                    0 <= i < cs.commands.len() && spec_eval(
                        (#[trigger] cs.commands[i]).tree,
                        word_set(words@),
                    ) && resp@ == cs.commands[i].response)
                &&& (r is None ==> forall|i: int|
                    0 <= i < cs.commands.len() ==> !spec_eval(
                        (#[trigger] cs.commands[i]).tree,
                        word_set(words@),
                    ))
            }),
    {
        broadcast use vstd::seq_lib::group_to_multiset_ensures;

        let mut t = self.take_chat(chat_id);
        let ghost pre = t;
        let r = t.match_trigger(words);
        proof {
            lemma_map_multiset(t.commands@, pre.commands@, |e: Expression| e@);
            match &r {
                Some(resp) => {
                    let i = choose|i: int|
                        0 <= i < pre.commands@.len() && spec_eval(
                            (#[trigger] pre.commands@[i])@.tree,
                            word_set(words@),
                        ) && (*resp)@ == pre.commands@[i]@.response;
                    assert(pre@.commands[i] == pre.commands@[i]@);
                    assert(spec_eval(pre@.commands[i].tree, word_set(words@)));
                },
                None => {
                    assert forall|i: int| 0 <= i < pre@.commands.len() implies !spec_eval(
                        (#[trigger] pre@.commands[i]).tree,
                        word_set(words@),
                    ) by {
                        assert(pre@.commands[i] == (#[trigger] pre.commands@[i])@);
                        assert(!spec_eval((pre.commands@[i])@.tree, word_set(words@)));
                    }
                },
            }
            assert forall|c: int| 0 <= c < t@.commands.len() implies (
            #[trigger] t@.commands[c]).group_id == chat_id as int by {
                let e = t.commands@[c];
                assert(t.commands@.contains(e));
                assert(t.commands@.to_multiset().count(e) > 0);
                assert(pre.commands@.to_multiset().count(e) > 0);
                assert(pre.commands@.contains(e));
                let x = choose|x: int| 0 <= x < pre.commands@.len() && pre.commands@[x] == e;
                assert(pre@.commands[x] == e@);
            }
        }
        self.put_chat(chat_id, t);
        r
    }

    /// Hands out one of the chat's thoughts, chosen at random, removing
    /// it; nothing exactly when the chat has no thought stored. Every
    /// other chat is untouched.
    pub fn pop_thought(&mut self, chat_id: i64) -> (r: Option<String>)
        requires
            old(self).wf(),
        ensures
            final(self).wf(),
            ({
                let cs = chat_state(old(self)@, chat_id as int);
                &&& final(self)@.contains_key(chat_id as int)
                &&& forall|k: int|
                    k != chat_id as int ==> (final(self)@.contains_key(k) <==> old(self)@.contains_key(k))
                &&& forall|k: int|
                    k != chat_id as int && old(self)@.contains_key(k) ==> final(self)@[k] == old(self)@[k]
                &&& final(self)@[chat_id as int].commands == cs.commands
                &&& final(self)@[chat_id as int].markov == cs.markov
                &&& (r is None <==> cs.thoughts.len() == 0)
                &&& (r is None ==> final(self)@[chat_id as int].thoughts == cs.thoughts)
                &&& (r matches Some(th) ==> cs.thoughts.to_multiset().contains(th@) && final(self)@[chat_id as int].thoughts.to_multiset() == cs.thoughts.to_multiset().remove(th@))
            }),
    {
        broadcast use vstd::seq_lib::group_to_multiset_ensures;
        broadcast use vstd::multiset::group_multiset_axioms;

        let mut t = self.take_chat(chat_id);
        let ghost pre = t;
        let r = t.pop_thought();
        proof {
            match &r {
                None => {},
                Some(th) => {
                    // The popped thought is one of the stored ones, and the
                    // views lose exactly one copy of it.
                    assert(pre.thoughts@.to_multiset().contains(*th));
                    assert(pre.thoughts@.to_multiset() =~= t.thoughts@.to_multiset().insert(*th));
                    assert(pre.thoughts@.to_multiset() =~= t.thoughts@.push(*th).to_multiset());
                    lemma_map_multiset(
                        pre.thoughts@,
                        t.thoughts@.push(*th),
                        |s: String| s@,
                    );
                    assert(str_views(t.thoughts@.push(*th)) =~= str_views(t.thoughts@).push(
                        (*th)@,
                    ));
                    assert(str_views(t.thoughts@).push((*th)@).to_multiset() =~= str_views(
                        t.thoughts@,
                    ).to_multiset().insert((*th)@));
                    assert(pre@.thoughts.to_multiset() =~= str_views(
                        t.thoughts@,
                    ).to_multiset().insert((*th)@));
                    assert(pre.thoughts@.contains(*th));
                    let x = choose|x: int| 0 <= x < pre.thoughts@.len() && pre.thoughts@[x] == *th;
                    assert(pre@.thoughts[x] == (*th)@);
                    assert(pre@.thoughts.contains((*th)@));
                    assert(pre@.thoughts.to_multiset().count((*th)@) > 0);
                    assert(str_views(t.thoughts@).to_multiset() =~= pre@.thoughts.to_multiset()
                        .remove((*th)@));
                },
            }
        }
        self.put_chat(chat_id, t);
        r
    }

    /// Generates one sentence from the chat's Markov model; an untouched
    /// or untrained chat yields nothing, and anything yielded is a walk
    /// that chat's model admits.
    pub fn generate(&self, chat_id: i64) -> (r: Option<String>)
        requires
            self.wf(),
        ensures
            ({
                let mk = chat_state(self@, chat_id as int).markov;
                &&& (!mk.contains_key(Seq::<char>::empty()) ==> r is None)
                &&& (r matches Some(s) ==> exists|toks: Seq<Seq<char>>|
                    is_sentence(mk, toks) && s@ == join_words(toks))
            }),
    {
        let ghost es = reg_entries(self.entries@);
        proof {
            self.lemma_entries_distinct();
            lemma_assoc_contains(es, chat_id as int);
        }
        match self.find_chat(chat_id) {
            None => {
                proof {
                    if self@.contains_key(chat_id as int) {
                        let i = choose|i: int|
                            0 <= i < es.len() && (#[trigger] es[i]).0 == chat_id as int;
                        assert((self.entries@[i]).0 == chat_id);
                    }
                }
                None
            },
            Some(i) => {
                proof {
                    assert(es[i as int].0 == chat_id as int);
                    lemma_assoc_index(es, i as int);
                    assert((self.entries@[i as int]).1.wf());
                }
                self.entries[i].1.markov.get_random()
            },
        }
    }

    /// Reads a wire command and, when it parses, adds the rule to the chat
    /// it names, exactly as `add_expression` does; a rejected command is
    /// returned as its typed error and changes nothing.
    pub fn add_command(&mut self, command: &str) -> (r: Result<(), ParseError>)
        requires
            old(self).wf(),
        ensures
            final(self).wf(),
            match spec_from_str(command@) {
                Ok(se) => r is Ok && final(self)@ == old(self)@.insert(
                    se.group_id,
                    (TrapperView {
                        commands: chat_state(old(self)@, se.group_id).commands.push(se),
                        thoughts: chat_state(old(self)@, se.group_id).thoughts,
                        markov: chat_state(old(self)@, se.group_id).markov,
                    }),
                ),
                Err(e) => r == Err::<(), ParseError>(e) && final(self)@ == old(self)@,
            },
    {
        match Expression::from_str(command) {
            Ok(e) => {
                self.add_expression(e);
                Ok(())
            },
            Err(e) => Err(e),
        }
    }
}


/// The mathematical value of a thought record list.
pub open spec fn pair_views(ps: Seq<(String, i64)>) -> Seq<(Seq<char>, int)> {
    ps.map_values(|p: (String, i64)| (p.0@, p.1 as int))
}

/// The test for a rule belonging to chat `k`.
pub open spec fn for_group(k: int) -> spec_fn(SpecExpression) -> bool {
    |e: SpecExpression| e.group_id == k
}

/// The test for a thought record belonging to chat `k`.
pub open spec fn for_chat(k: int) -> spec_fn((Seq<char>, int)) -> bool {
    |p: (Seq<char>, int)| p.1 == k
}

/// The texts of a list of thought records.
pub open spec fn record_texts(ps: Seq<(Seq<char>, int)>) -> Seq<Seq<char>> {
    ps.map_values(|p: (Seq<char>, int)| p.0)
}

/// Nothing satisfying the test means an empty filter.
proof fn lemma_filter_empty<A>(s: Seq<A>, pred: spec_fn(A) -> bool)
    requires
        forall|i: int| 0 <= i < s.len() ==> !pred(#[trigger] s[i]),
    ensures
        s.filter(pred) =~= Seq::<A>::empty(),
    decreases s.len(),
{
    reveal(Seq::filter);
    if s.len() > 0 {
        assert forall|i: int| 0 <= i < s.drop_last().len() implies !pred(
            #[trigger] s.drop_last()[i],
        ) by {
            assert(s.drop_last()[i] == s[i]);
        }
        lemma_filter_empty(s.drop_last(), pred);
    }
}

/// A filtered sequence's elements come from the sequence that was filtered.
proof fn lemma_filter_member<A>(s: Seq<A>, pred: spec_fn(A) -> bool, i: int)
    requires
        0 <= i < s.filter(pred).len(),
    ensures
        s.contains(s.filter(pred)[i]),
    decreases s.len(),
{
    reveal(Seq::filter);
    if s.len() > 0 {
        let f = s.filter(pred);
        let f1 = s.drop_last().filter(pred);
        if pred(s.last()) && i == f.len() - 1 {
            assert(f[i] == s.last());
            assert(s[s.len() - 1] == s.last());
        } else {
            assert(i < f1.len());
            assert(f[i] == f1[i]);
            lemma_filter_member(s.drop_last(), pred, i);
            let j = choose|j: int| 0 <= j < s.drop_last().len() && s.drop_last()[j] == f1[i];
            assert(s[j] == f1[i]);
        }
    }
}

/// Appending one rule extends exactly its own chat's filtered records.
proof fn lemma_filter_push_group(s: Seq<SpecExpression>, ev: SpecExpression, k: int)
    ensures
        ev.group_id == k ==> s.push(ev).filter(for_group(k)) == s.filter(for_group(k)).push(ev),
        ev.group_id != k ==> s.push(ev).filter(for_group(k)) == s.filter(for_group(k)),
{
    reveal_with_fuel(Seq::filter, 3);
    assert(s.push(ev).drop_last() =~= s);
    assert(s.push(ev).last() == ev);
    if ev.group_id == k {
        assert(s.push(ev).filter(for_group(k)) =~= s.filter(for_group(k)).push(ev));
    } else {
        assert(s.push(ev).filter(for_group(k)) =~= s.filter(for_group(k)));
    }
}

/// Appending one thought record extends exactly its own chat's filtered
/// records.
proof fn lemma_filter_push_chat(s: Seq<(Seq<char>, int)>, pv: (Seq<char>, int), k: int)
    ensures
        pv.1 == k ==> s.push(pv).filter(for_chat(k)) == s.filter(for_chat(k)).push(pv),
        pv.1 != k ==> s.push(pv).filter(for_chat(k)) == s.filter(for_chat(k)),
{
    reveal_with_fuel(Seq::filter, 3);
    assert(s.push(pv).drop_last() =~= s);
    assert(s.push(pv).last() == pv);
    if pv.1 == k {
        assert(s.push(pv).filter(for_chat(k)) =~= s.filter(for_chat(k)).push(pv));
    } else {
        assert(s.push(pv).filter(for_chat(k)) =~= s.filter(for_chat(k)));
    }
}

/// Prepending one rule extends exactly its own chat's filtered records.
proof fn lemma_filter_cons_group(ev: SpecExpression, rest: Seq<SpecExpression>, k: int)
    ensures
        ev.group_id == k ==> (seq![ev] + rest).filter(for_group(k)) == seq![ev] + rest.filter(
            for_group(k),
        ),
        ev.group_id != k ==> (seq![ev] + rest).filter(for_group(k)) == rest.filter(for_group(k)),
{
    reveal_with_fuel(Seq::filter, 3);
    Seq::filter_distributes_over_add(seq![ev], rest, for_group(k));
    assert(seq![ev].drop_last() =~= Seq::<SpecExpression>::empty());
    if ev.group_id == k {
        assert(seq![ev].filter(for_group(k)) =~= seq![ev]);
    } else {
        assert(seq![ev].filter(for_group(k)) =~= Seq::<SpecExpression>::empty());
        assert(Seq::<SpecExpression>::empty() + rest.filter(for_group(k)) =~= rest.filter(
            for_group(k),
        ));
    }
}

/// Prepending one thought record extends exactly its own chat's filtered
/// records.
proof fn lemma_filter_cons_chat(pv: (Seq<char>, int), rest: Seq<(Seq<char>, int)>, k: int)
    ensures
        pv.1 == k ==> (seq![pv] + rest).filter(for_chat(k)) == seq![pv] + rest.filter(for_chat(k)),
        pv.1 != k ==> (seq![pv] + rest).filter(for_chat(k)) == rest.filter(for_chat(k)),
{
    reveal_with_fuel(Seq::filter, 3);
    Seq::filter_distributes_over_add(seq![pv], rest, for_chat(k));
    assert(seq![pv].drop_last() =~= Seq::<(Seq<char>, int)>::empty());
    if pv.1 == k {
        assert(seq![pv].filter(for_chat(k)) =~= seq![pv]);
    } else {
        assert(seq![pv].filter(for_chat(k)) =~= Seq::<(Seq<char>, int)>::empty());
        assert(Seq::<(Seq<char>, int)>::empty() + rest.filter(for_chat(k)) =~= rest.filter(
            for_chat(k),
        ));
    }
}

/// What a flattened snapshot holds of the registry it came from: every
/// record names a stored chat, and per stored chat the records naming it
/// are exactly that chat's rules and thoughts, multiplicity included.
pub open spec fn flatten_post(
    before: Map<int, TrapperView>,
    cmds: Seq<SpecExpression>,
    ths: Seq<(Seq<char>, int)>,
) -> bool {
    &&& forall|c: int| 0 <= c < cmds.len() ==> before.contains_key((#[trigger] cmds[c]).group_id)
    &&& forall|c: int| 0 <= c < ths.len() ==> before.contains_key((#[trigger] ths[c]).1)
    &&& forall|k: int|
        #[trigger] before.contains_key(k) ==> cmds.filter(for_group(k)).to_multiset()
            == before[k].commands.to_multiset()
    &&& forall|k: int|
        #[trigger] before.contains_key(k) ==> record_texts(ths.filter(for_chat(k))).to_multiset()
            == before[k].thoughts.to_multiset()
}

/// What a rebuilt registry holds of its records: a chat exists exactly
/// when some record names it; its rules and thoughts are exactly the
/// records naming it, multiplicity included; its Markov model is empty.
pub open spec fn rebuild_post(
    cmds: Seq<SpecExpression>,
    ths: Seq<(Seq<char>, int)>,
    after: Map<int, TrapperView>,
) -> bool {
    &&& forall|k: int|
        #[trigger] after.contains_key(k) <==> ((exists|c: int|
            0 <= c < cmds.len() && (#[trigger] cmds[c]).group_id == k) || (exists|c: int|
            0 <= c < ths.len() && (#[trigger] ths[c]).1 == k))
    &&& forall|k: int|
        #[trigger] after.contains_key(k) ==> after[k].commands.to_multiset() == cmds.filter(
            for_group(k),
        ).to_multiset()
    &&& forall|k: int|
        #[trigger] after.contains_key(k) ==> after[k].thoughts.to_multiset() == record_texts(
            ths.filter(for_chat(k)),
        ).to_multiset()
    &&& forall|k: int|
        #[trigger] after.contains_key(k) ==> after[k].markov == Map::<
            Seq<char>,
            Seq<(Seq<char>, u64)>,
        >::empty()
}

impl StateRegistry {
    /// Flattens the registry for persistence: all rules in one list, all
    /// thoughts in another, each thought paired with its chat id. The
    /// registry is consumed, as at shutdown.
    #[verifier::loop_isolation(false)]
    pub fn flatten(self) -> (r: (Vec<Expression>, Vec<(String, i64)>))
        requires
            self.wf(),
        ensures
            flatten_post(self@, cmd_views(r.0@), pair_views(r.1@)),
    {
        broadcast use vstd::seq_lib::group_to_multiset_ensures;
        broadcast use vstd::multiset::group_multiset_axioms;

        let ghost before = self@;
        let mut reg = self;
        let mut out_c: Vec<Expression> = Vec::new();
        let mut out_t: Vec<(String, i64)> = Vec::new();
        proof {
            assert(cmd_views(out_c@) =~= Seq::<SpecExpression>::empty());
            assert(pair_views(out_t@) =~= Seq::<(Seq<char>, int)>::empty());
            assert forall|k: int| #[trigger]
                before.contains_key(k) implies cmd_views(out_c@).filter(for_group(k)).len()
                == 0 by {
                reveal(Seq::filter);
            }
            assert forall|k: int| #[trigger]
                before.contains_key(k) implies pair_views(out_t@).filter(for_chat(k)).len()
                == 0 by {
                reveal(Seq::filter);
            }
        }
        while reg.entries.len() > 0
            invariant
                reg.wf(),
                forall|k: int|
                    #[trigger] reg@.contains_key(k) ==> before.contains_key(k) && before[k]
                        == reg@[k],
                forall|c: int|
                    0 <= c < cmd_views(out_c@).len() ==> before.contains_key(
                        (#[trigger] cmd_views(out_c@)[c]).group_id,
                    ) && !reg@.contains_key(cmd_views(out_c@)[c].group_id),
                forall|c: int|
                    0 <= c < pair_views(out_t@).len() ==> before.contains_key(
                        (#[trigger] pair_views(out_t@)[c]).1,
                    ) && !reg@.contains_key(pair_views(out_t@)[c].1),
                forall|k: int|
                    #[trigger] before.contains_key(k) && !reg@.contains_key(k) ==> cmd_views(
                        out_c@,
                    ).filter(for_group(k)).to_multiset() == before[k].commands.to_multiset(),
                forall|k: int|
                    #[trigger] before.contains_key(k) && !reg@.contains_key(k) ==> record_texts(
                        pair_views(out_t@).filter(for_chat(k)),
                    ).to_multiset() == before[k].thoughts.to_multiset(),
                forall|k: int|
                    #[trigger] reg@.contains_key(k) ==> cmd_views(out_c@).filter(
                        for_group(k),
                    ).len() == 0,
                forall|k: int|
                    #[trigger] reg@.contains_key(k) ==> pair_views(out_t@).filter(
                        for_chat(k),
                    ).len() == 0,
            decreases reg.entries@.len(),
        {
            let ghost es = reg_entries(reg.entries@);
            let ghost pre_reg = reg@;
            let ghost pre_entries = reg.entries@;
            proof {
                reg.lemma_entries_distinct();
                lemma_assoc_index(es, es.len() - 1);
                lemma_assoc_remove(es, es.len() - 1);
                assert(es.remove(es.len() - 1) =~= es.drop_last());
                assert(es[es.len() - 1] == ((pre_entries[pre_entries.len() - 1]).0 as int, (
                pre_entries[pre_entries.len() - 1]).1@));
            }
            let popped = match reg.entries.pop() {
                Some(p) => p,
                None => vstd::pervasive::unreached(),
            };
            let (chat, mut t) = popped;
            let ghost k0 = chat as int;
            proof {
                assert(popped == pre_entries[pre_entries.len() - 1]);
                assert(es[es.len() - 1] == (k0, t@));
                assert(reg_entries(reg.entries@) =~= es.drop_last());
                assert(reg@ == pre_reg.remove(k0));
                assert(pre_reg.contains_key(k0) && pre_reg[k0] == t@);
                assert(before.contains_key(k0));
                assert(before[k0] == t@);
                assert forall|x: int, y: int|
                    0 <= x < y < reg.entries@.len() implies (#[trigger] reg.entries@[x]).0 != (
                #[trigger] reg.entries@[y]).0 by {}
                assert((pre_entries[pre_entries.len() - 1]).1.wf());
                assert(chat_consistent(k0, t@));
                assert forall|c: int|
                    0 <= c < t.commands@.len() implies ((#[trigger] t.commands@[c])@).group_id
                        == k0 by {
                    assert(t@.commands[c] == (t.commands@[c])@);
                }
            }
            let ghost tv = t@;
            proof {
                assert(pre_reg.contains_key(k0));
                assert(cmd_views(out_c@).filter(for_group(k0)) =~= Seq::<SpecExpression>::empty());
                assert(cmd_views(out_c@).filter(for_group(k0)).to_multiset() =~= Seq::<
                    SpecExpression,
                >::empty().to_multiset());
                assert(Seq::<SpecExpression>::empty().to_multiset().len() == 0);
                assert(cmd_views(t.commands@) == tv.commands);
                assert(tv.commands == before[k0].commands);
                assert(Seq::<SpecExpression>::empty().to_multiset().add(
                    before[k0].commands.to_multiset(),
                ) =~= before[k0].commands.to_multiset());
                assert(pair_views(out_t@).filter(for_chat(k0)) =~= Seq::<(Seq<char>, int)>::empty());
                assert(record_texts(pair_views(out_t@).filter(for_chat(k0))) =~= Seq::<
                    Seq<char>,
                >::empty());
                assert(str_views(t.thoughts@) == before[k0].thoughts);
                assert(Seq::<Seq<char>>::empty().to_multiset().add(
                    before[k0].thoughts.to_multiset(),
                ) =~= before[k0].thoughts.to_multiset());
            }
            while t.commands.len() > 0
                invariant
                    str_views(t.thoughts@) == before[k0].thoughts,
                    forall|c: int|
                        0 <= c < t.commands@.len() ==> ((#[trigger] t.commands@[c])@).group_id
                            == k0,
                    before[k0].commands.to_multiset() == cmd_views(out_c@).filter(
                        for_group(k0),
                    ).to_multiset().add(cmd_views(t.commands@).to_multiset()),
                    forall|c: int|
                        0 <= c < cmd_views(out_c@).len() ==> before.contains_key(
                            (#[trigger] cmd_views(out_c@)[c]).group_id,
                        ) && !reg@.contains_key(cmd_views(out_c@)[c].group_id),
                    forall|k: int|
                        #[trigger] before.contains_key(k) && !reg@.contains_key(k) && k != k0
                            ==> cmd_views(out_c@).filter(for_group(k)).to_multiset()
                            == before[k].commands.to_multiset(),
                    forall|k: int|
                        #[trigger] reg@.contains_key(k) ==> cmd_views(out_c@).filter(
                            for_group(k),
                        ).len() == 0,
                decreases t.commands@.len(),
            {
                let ghost oc = cmd_views(out_c@);
                let ghost pre_cmds = cmd_views(t.commands@);
                let e = match t.commands.pop() {
                    Some(e) => e,
                    None => vstd::pervasive::unreached(),
                };
                let ghost ev = e@;
                proof {
                    assert(pre_cmds =~= cmd_views(t.commands@).push(ev));
                    assert(pre_cmds.to_multiset() =~= cmd_views(t.commands@).to_multiset().insert(
                        ev,
                    ));
                    assert(ev.group_id == k0);
                }
                out_c.push(e);
                proof {
                    assert(cmd_views(out_c@) =~= oc.push(ev));
                    lemma_filter_push_group(oc, ev, k0);
                    assert(oc.push(ev).filter(for_group(k0)).to_multiset() =~= oc.filter(
                        for_group(k0),
                    ).to_multiset().insert(ev));
                    assert(before[k0].commands.to_multiset() =~= cmd_views(out_c@).filter(
                        for_group(k0),
                    ).to_multiset().add(cmd_views(t.commands@).to_multiset()));
                    assert forall|k: int|
                        #[trigger] before.contains_key(k) && !reg@.contains_key(k) && k != k0
                        implies cmd_views(out_c@).filter(for_group(k)).to_multiset()
                        == before[k].commands.to_multiset() by {
                        lemma_filter_push_group(oc, ev, k);
                    }
                    assert forall|k: int| #[trigger]
                        reg@.contains_key(k) implies cmd_views(out_c@).filter(for_group(k)).len()
                        == 0 by {
                        lemma_filter_push_group(oc, ev, k);
                    }
                }
            }
            proof {
                assert(cmd_views(t.commands@).to_multiset().len() == 0);
                assert(before[k0].commands.to_multiset() =~= cmd_views(out_c@).filter(
                    for_group(k0),
                ).to_multiset());
            }
            while t.thoughts.len() > 0
                invariant
                    before[k0].thoughts.to_multiset() == record_texts(
                        pair_views(out_t@).filter(for_chat(k0)),
                    ).to_multiset().add(str_views(t.thoughts@).to_multiset()),
                    forall|c: int|
                        0 <= c < pair_views(out_t@).len() ==> before.contains_key(
                            (#[trigger] pair_views(out_t@)[c]).1,
                        ) && !reg@.contains_key(pair_views(out_t@)[c].1),
                    forall|k: int|
                        #[trigger] before.contains_key(k) && !reg@.contains_key(k) && k != k0
                            ==> record_texts(pair_views(out_t@).filter(for_chat(k))).to_multiset()
                            == before[k].thoughts.to_multiset(),
                    forall|k: int|
                        #[trigger] reg@.contains_key(k) ==> pair_views(out_t@).filter(
                            for_chat(k),
                        ).len() == 0,
                decreases t.thoughts@.len(),
            {
                let ghost ot = pair_views(out_t@);
                let ghost pre_ths = str_views(t.thoughts@);
                let th = match t.thoughts.pop() {
                    Some(th) => th,
                    None => vstd::pervasive::unreached(),
                };
                let ghost thv = th@;
                proof {
                    assert(pre_ths =~= str_views(t.thoughts@).push(thv));
                    assert(pre_ths.to_multiset() =~= str_views(t.thoughts@).to_multiset().insert(
                        thv,
                    ));
                }
                out_t.push((th, chat));
                proof {
                    let pv = (thv, k0);
                    assert(pair_views(out_t@) =~= ot.push(pv));
                    lemma_filter_push_chat(ot, pv, k0);
                    assert(record_texts(ot.filter(for_chat(k0)).push(pv)) =~= record_texts(
                        ot.filter(for_chat(k0)),
                    ).push(thv));
                    assert(record_texts(pair_views(out_t@).filter(for_chat(k0))).to_multiset() =~=
                        record_texts(ot.filter(for_chat(k0))).to_multiset().insert(thv));
                    assert(before[k0].thoughts.to_multiset() =~= record_texts(
                        pair_views(out_t@).filter(for_chat(k0)),
                    ).to_multiset().add(str_views(t.thoughts@).to_multiset()));
                    assert forall|k: int|
                        #[trigger] before.contains_key(k) && !reg@.contains_key(k) && k != k0
                        implies record_texts(
                        pair_views(out_t@).filter(for_chat(k)),
                    ).to_multiset() == before[k].thoughts.to_multiset() by {
                        lemma_filter_push_chat(ot, pv, k);
                    }
                    assert forall|k: int| #[trigger]
                        reg@.contains_key(k) implies pair_views(out_t@).filter(for_chat(k)).len()
                        == 0 by {
                        lemma_filter_push_chat(ot, pv, k);
                    }
                }
            }
            proof {
                assert(str_views(t.thoughts@).to_multiset().len() == 0);
                assert(before[k0].thoughts.to_multiset() =~= record_texts(
                    pair_views(out_t@).filter(for_chat(k0)),
                ).to_multiset());
            }
        }
        proof {
            assert forall|k: int| #[trigger] before.contains_key(k) implies !reg@.contains_key(
                k,
            ) by {
                if reg@.contains_key(k) {
                    lemma_assoc_contains(reg_entries(reg.entries@), k);
                }
            }
        }
        (out_c, out_t)
    }

    /// Regroups flattened records into per-chat state, keyed by the
    /// embedded chat id: rules first, then thoughts. Every chat starts
    /// from the empty state, so the Markov models come back empty.
    #[verifier::loop_isolation(false)]
    pub fn rebuild(cmds: Vec<Expression>, ths: Vec<(String, i64)>) -> (reg: StateRegistry)
        ensures
            reg.wf(),
            rebuild_post(cmd_views(cmds@), pair_views(ths@), reg@),
    {
        broadcast use vstd::seq_lib::group_to_multiset_ensures;
        broadcast use vstd::multiset::group_multiset_axioms;

        let ghost all_c = cmd_views(cmds@);
        let ghost all_t = pair_views(ths@);
        let mut cmds = cmds;
        let mut ths = ths;
        let mut reg = StateRegistry::new();
        while cmds.len() > 0
            invariant
                reg.wf(),
                cmds@.len() <= all_c.len(),
                cmd_views(cmds@) == all_c.take(cmds@.len() as int),
                forall|k: int|
                    #[trigger] reg@.contains_key(k) <==> exists|c: int|
                        cmds@.len() <= c < all_c.len() && (#[trigger] all_c[c]).group_id == k,
                forall|k: int|
                    #[trigger] reg@.contains_key(k) ==> reg@[k].commands.to_multiset() == all_c
                        .skip(cmds@.len() as int).filter(for_group(k)).to_multiset(),
                forall|k: int|
                    #[trigger] reg@.contains_key(k) ==> reg@[k].thoughts.len() == 0
                        && reg@[k].markov == Map::<Seq<char>, Seq<(Seq<char>, u64)>>::empty(),
            decreases cmds@.len(),
        {
            let ghost pre_len = cmds@.len() as int;
            let ghost pre_reg = reg@;
            let ghost pre_cmds_v = cmds@;
            let e = match cmds.pop() {
                Some(e) => e,
                None => vstd::pervasive::unreached(),
            };
            let ghost ev = e@;
            let ghost i = pre_len - 1;
            let ghost g = ev.group_id;
            proof {
                assert(e == pre_cmds_v[i]);
                assert(cmd_views(pre_cmds_v)[i] == (pre_cmds_v[i])@);
                assert(cmd_views(pre_cmds_v) == all_c.take(pre_len));
                assert(all_c.take(pre_len)[i] == all_c[i]);
                assert(all_c[i] == ev);
                assert(cmds@ =~= pre_cmds_v.take(i));
                assert forall|c: int| 0 <= c < i implies #[trigger] cmd_views(cmds@)[c] == all_c
                    .take(i)[c] by {
                    assert(cmd_views(cmds@)[c] == (cmds@[c])@);
                    assert(cmds@[c] == pre_cmds_v[c]);
                    assert(cmd_views(pre_cmds_v)[c] == (pre_cmds_v[c])@);
                    assert(all_c.take(pre_len)[c] == all_c[c]);
                }
                assert(cmd_views(cmds@) =~= all_c.take(i));
                assert(all_c.skip(i) =~= seq![ev] + all_c.skip(i + 1));
            }
            reg.add_expression(e);
            proof {
                lemma_filter_cons_group(ev, all_c.skip(i + 1), g);
                if !pre_reg.contains_key(g) {
                    assert forall|c: int|
                        i + 1 <= c < all_c.len() implies (#[trigger] all_c[c]).group_id != g by {}
                    assert forall|c: int|
                        0 <= c < all_c.skip(i + 1).len() implies !for_group(g)(
                        #[trigger] all_c.skip(i + 1)[c],
                    ) by {
                        assert(all_c.skip(i + 1)[c] == all_c[i + 1 + c]);
                    }
                    lemma_filter_empty(all_c.skip(i + 1), for_group(g));
                    assert(chat_state(pre_reg, g).commands =~= Seq::<SpecExpression>::empty());
                }
                assert((seq![ev] + all_c.skip(i + 1).filter(for_group(g))).to_multiset() =~= all_c
                    .skip(i + 1).filter(for_group(g)).to_multiset().insert(ev)) by {
                    vstd::seq_lib::lemma_multiset_commutative(
                        seq![ev],
                        all_c.skip(i + 1).filter(for_group(g)),
                    );
                    assert(seq![ev] =~= Seq::<SpecExpression>::empty().push(ev));
                    assert(Seq::<SpecExpression>::empty().push(ev).to_multiset() =~= Seq::<
                        SpecExpression,
                    >::empty().to_multiset().insert(ev));
                }
                assert(reg@[g].commands.to_multiset() =~= chat_state(
                    pre_reg,
                    g,
                ).commands.to_multiset().insert(ev));
                assert forall|k: int| #![trigger reg@.contains_key(k)]
                    k != g implies ((exists|c: int|
                        i <= c < all_c.len() && (#[trigger] all_c[c]).group_id == k) <==> (exists|
                        c: int,
                    |
                        i + 1 <= c < all_c.len() && (#[trigger] all_c[c]).group_id == k)) by {
                    if exists|c: int| i <= c < all_c.len() && (#[trigger] all_c[c]).group_id == k {
                        let c = choose|c: int|
                            i <= c < all_c.len() && (#[trigger] all_c[c]).group_id == k;
                        assert(c != i);
                    }
                }
                assert forall|k: int|
                    #[trigger] reg@.contains_key(k) && k != g implies reg@[k].commands.to_multiset()
                        == all_c.skip(i).filter(for_group(k)).to_multiset() by {
                    lemma_filter_cons_group(ev, all_c.skip(i + 1), k);
                    assert(reg@[k] == pre_reg[k]);
                }
            }
        }
        proof {
            assert(cmds@.len() == 0);
            assert(all_c.skip(0) =~= all_c);
        }
        while ths.len() > 0
            invariant
                reg.wf(),
                ths@.len() <= all_t.len(),
                pair_views(ths@) == all_t.take(ths@.len() as int),
                forall|k: int|
                    #[trigger] reg@.contains_key(k) <==> ((exists|c: int|
                        0 <= c < all_c.len() && (#[trigger] all_c[c]).group_id == k) || (exists|
                        c: int,
                    |
                        ths@.len() <= c < all_t.len() && (#[trigger] all_t[c]).1 == k)),
                forall|k: int|
                    #[trigger] reg@.contains_key(k) ==> reg@[k].commands.to_multiset() == all_c
                        .filter(for_group(k)).to_multiset(),
                forall|k: int|
                    #[trigger] reg@.contains_key(k) ==> reg@[k].thoughts.to_multiset()
                        == record_texts(
                        all_t.skip(ths@.len() as int).filter(for_chat(k)),
                    ).to_multiset(),
                forall|k: int|
                    #[trigger] reg@.contains_key(k) ==> reg@[k].markov == Map::<
                        Seq<char>,
                        Seq<(Seq<char>, u64)>,
                    >::empty(),
            decreases ths@.len(),
        {
            let ghost pre_len = ths@.len() as int;
            let ghost pre_reg = reg@;
            let ghost pre_ths_v = ths@;
            let rec = match ths.pop() {
                Some(p) => p,
                None => vstd::pervasive::unreached(),
            };
            let (th, chat) = rec;
            let ghost thv = th@;
            let ghost i = pre_len - 1;
            let ghost g = chat as int;
            let ghost pv = (thv, g);
            proof {
                assert(rec == pre_ths_v[i]);
                assert(pair_views(pre_ths_v)[i] == ((pre_ths_v[i]).0@, (pre_ths_v[i]).1 as int));
                assert(pair_views(pre_ths_v) == all_t.take(pre_len));
                assert(all_t.take(pre_len)[i] == all_t[i]);
                assert(all_t[i] == pv);
                assert(ths@ =~= pre_ths_v.take(i));
                assert forall|c: int| 0 <= c < i implies #[trigger] pair_views(ths@)[c] == all_t
                    .take(i)[c] by {
                    assert(pair_views(ths@)[c] == ((ths@[c]).0@, (ths@[c]).1 as int));
                    assert(ths@[c] == pre_ths_v[c]);
                    assert(pair_views(pre_ths_v)[c] == ((pre_ths_v[c]).0@, (pre_ths_v[c]).1 as int));
                    assert(all_t.take(pre_len)[c] == all_t[c]);
                }
                assert(pair_views(ths@) =~= all_t.take(i));
                assert(all_t.skip(i) =~= seq![pv] + all_t.skip(i + 1));
            }
            reg.add_thought(chat, th);
            proof {
                lemma_filter_cons_chat(pv, all_t.skip(i + 1), g);
                assert(record_texts(seq![pv] + all_t.skip(i + 1).filter(for_chat(g))) =~= seq![thv]
                    + record_texts(all_t.skip(i + 1).filter(for_chat(g))));
                if !pre_reg.contains_key(g) {
                    assert forall|c: int|
                        0 <= c < all_c.len() implies (#[trigger] all_c[c]).group_id != g by {}
                    assert forall|c: int|
                        0 <= c < all_c.len() implies !for_group(g)(#[trigger] all_c[c]) by {}
                    lemma_filter_empty(all_c, for_group(g));
                    assert forall|c: int|
                        0 <= c < all_t.skip(i + 1).len() implies !for_chat(g)(
                        #[trigger] all_t.skip(i + 1)[c],
                    ) by {
                        assert(all_t.skip(i + 1)[c] == all_t[i + 1 + c]);
                    }
                    lemma_filter_empty(all_t.skip(i + 1), for_chat(g));
                    assert(record_texts(all_t.skip(i + 1).filter(for_chat(g))) =~= Seq::<
                        Seq<char>,
                    >::empty());
                    assert(chat_state(pre_reg, g).thoughts =~= Seq::<Seq<char>>::empty());
                    assert(chat_state(pre_reg, g).commands =~= Seq::<SpecExpression>::empty());
                }
                assert((seq![thv] + record_texts(all_t.skip(i + 1).filter(for_chat(g))))
                    .to_multiset() =~= record_texts(
                    all_t.skip(i + 1).filter(for_chat(g)),
                ).to_multiset().insert(thv)) by {
                    vstd::seq_lib::lemma_multiset_commutative(
                        seq![thv],
                        record_texts(all_t.skip(i + 1).filter(for_chat(g))),
                    );
                    assert(seq![thv] =~= Seq::<Seq<char>>::empty().push(thv));
                    assert(Seq::<Seq<char>>::empty().push(thv).to_multiset() =~= Seq::<
                        Seq<char>,
                    >::empty().to_multiset().insert(thv));
                }
                assert(reg@[g].thoughts.to_multiset() =~= chat_state(
                    pre_reg,
                    g,
                ).thoughts.to_multiset().insert(thv));
                assert forall|k: int| #![trigger reg@.contains_key(k)]
                    k != g implies ((exists|c: int|
                        i <= c < all_t.len() && (#[trigger] all_t[c]).1 == k) <==> (exists|c: int|
                        i + 1 <= c < all_t.len() && (#[trigger] all_t[c]).1 == k)) by {
                    if exists|c: int| i <= c < all_t.len() && (#[trigger] all_t[c]).1 == k {
                        let c = choose|c: int| i <= c < all_t.len() && (#[trigger] all_t[c]).1 == k;
                        assert(c != i);
                    }
                }
                assert forall|k: int|
                    #[trigger] reg@.contains_key(k) && k != g implies reg@[k].thoughts.to_multiset()
                        == record_texts(all_t.skip(i).filter(for_chat(k))).to_multiset() by {
                    lemma_filter_cons_chat(pv, all_t.skip(i + 1), k);
                    assert(reg@[k] == pre_reg[k]);
                }
            }
        }
        proof {
            assert(ths@.len() == 0);
            assert(all_t.skip(0) =~= all_t);
        }
        reg
    }
}

/// The snapshot round trip: flattening a registry whose every chat holds
/// at least one rule or thought, and regrouping the flattened records,
/// reproduces the same set of chat ids, each with the same rules and the
/// same thoughts, multiplicity included. The Markov models are not part
/// of a snapshot and come back empty.
pub proof fn lemma_snapshot_round_trip(
    before: Map<int, TrapperView>,
    cmds: Seq<SpecExpression>,
    ths: Seq<(Seq<char>, int)>,
    after: Map<int, TrapperView>,
)
    requires
        flatten_post(before, cmds, ths),
        rebuild_post(cmds, ths, after),
        forall|k: int|
            #[trigger] before.contains_key(k) ==> before[k].commands.len()
                + before[k].thoughts.len() > 0,
    ensures
        after.dom() =~= before.dom(),
        forall|k: int|
            #[trigger] before.contains_key(k) ==> after[k].commands.to_multiset()
                == before[k].commands.to_multiset(),
        forall|k: int|
            #[trigger] before.contains_key(k) ==> after[k].thoughts.to_multiset()
                == before[k].thoughts.to_multiset(),
{
    broadcast use vstd::seq_lib::group_to_multiset_ensures;

    assert forall|k: int| after.dom().contains(k) implies before.dom().contains(k) by {
        assert(after.contains_key(k));
        if exists|c: int| 0 <= c < cmds.len() && (#[trigger] cmds[c]).group_id == k {
            let c = choose|c: int| 0 <= c < cmds.len() && (#[trigger] cmds[c]).group_id == k;
            assert(before.contains_key(cmds[c].group_id));
        } else {
            let c = choose|c: int| 0 <= c < ths.len() && (#[trigger] ths[c]).1 == k;
            assert(before.contains_key(ths[c].1));
        }
    }
    assert forall|k: int| before.dom().contains(k) implies after.dom().contains(k) by {
        assert(before.contains_key(k));
        if before[k].commands.len() > 0 {
            let f = cmds.filter(for_group(k));
            assert(f.to_multiset() == before[k].commands.to_multiset());
            assert(f.to_multiset().len() == f.len());
            assert(before[k].commands.to_multiset().len() == before[k].commands.len());
            assert(f.len() > 0);
            cmds.filter_lemma(for_group(k));
            assert(for_group(k)(f[0]));
            lemma_filter_member(cmds, for_group(k), 0);
            assert(cmds.contains(f[0]));
            let c = choose|c: int| 0 <= c < cmds.len() && cmds[c] == f[0];
            assert((#[trigger] cmds[c]).group_id == k);
            assert(after.contains_key(k));
        } else {
            let f = ths.filter(for_chat(k));
            let fv = record_texts(f);
            assert(fv.to_multiset() == before[k].thoughts.to_multiset());
            assert(fv.to_multiset().len() == fv.len());
            assert(before[k].thoughts.to_multiset().len() == before[k].thoughts.len());
            assert(f.len() > 0);
            ths.filter_lemma(for_chat(k));
            assert(for_chat(k)(f[0]));
            lemma_filter_member(ths, for_chat(k), 0);
            assert(ths.contains(f[0]));
            let c = choose|c: int| 0 <= c < ths.len() && ths[c] == f[0];
            assert((#[trigger] ths[c]).1 == k);
            assert(after.contains_key(k));
        }
    }
    assert forall|k: int|
        #[trigger] before.contains_key(k) implies after[k].commands.to_multiset()
        == before[k].commands.to_multiset() && after[k].thoughts.to_multiset()
        == before[k].thoughts.to_multiset() by {
        assert(after.dom().contains(k));
        assert(after.contains_key(k));
    }
}

} // verus!
