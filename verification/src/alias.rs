//! The alias table: a bijection between a human-readable name and a chat
//! id. The table lives in a bimap; the contracts speak of its contents
//! through the name `alias_map_of`.

use vstd::prelude::*;
use crate::text::{NumError, chars_of, trim, parse_i64, spec_parse_i64, trim_spaces};

verus! {

// The bimap collection is outside code; declaring its type lets values of
// it stand in fields, and `alias_map_of` names what one holds.
#[verifier::external_type_specification]
#[verifier::external_body]
#[verifier::reject_recursive_types(L)]
#[verifier::reject_recursive_types(R)]
#[verifier::reject_recursive_types(LS)]
#[verifier::reject_recursive_types(RS)]
pub struct ExBiHashMap<L, R, LS, RS>(bimap::BiHashMap<L, R, LS, RS>);

/// What the bimap holds: the finite map from alias text to chat id.
pub uninterp spec fn alias_map_of(m: bimap::BiMap<String, i64>) -> Map<Seq<char>, int>;

/// Relies on `bimap::BiHashMap::new`: a fresh bimap holds nothing.
#[verifier::external_body]
fn bimap_new() -> (r: bimap::BiMap<String, i64>)
    ensures
        forall|a: Seq<char>| !alias_map_of(r).contains_key(a),
{
    bimap::BiMap::new()
}

/// Relies on `bimap::BiHashMap::get_by_left`: the right value stored
/// under the given left value, if any.
#[verifier::external_body]
fn bimap_get_by_left(m: &bimap::BiMap<String, i64>, alias: &String) -> (r: Option<i64>)
    ensures
        match r {
            Some(c) => alias_map_of(*m).contains_key(alias@) && alias_map_of(*m)[alias@]
                == c as int,
            None => !alias_map_of(*m).contains_key(alias@),
        },
{
    m.get_by_left(alias).copied()
}

/// Relies on `bimap::BiHashMap::get_by_right`: the left value stored
/// under the given right value, if any; a bimap stores at most one.
#[verifier::external_body]
fn bimap_get_by_right(m: &bimap::BiMap<String, i64>, chat_id: i64) -> (r: Option<String>)
    ensures
        match r {
            Some(a) => alias_map_of(*m).contains_key(a@) && alias_map_of(*m)[a@] == chat_id as int,
            None => forall|a: Seq<char>|
                alias_map_of(*m).contains_key(a) ==> #[trigger] alias_map_of(*m)[a]
                    != chat_id as int,
        },
{
    m.get_by_right(&chat_id).cloned()
}

/// Relies on `bimap::BiHashMap::insert_no_overwrite`: the pair goes in
/// exactly when neither side is present, and nothing changes otherwise.
#[verifier::external_body]
fn bimap_insert(m: &mut bimap::BiMap<String, i64>, alias: String, chat_id: i64) -> (r: bool)
    ensures
        r <==> (!alias_map_of(*old(m)).contains_key(alias@) && forall|a: Seq<char>|
            alias_map_of(*old(m)).contains_key(a) ==> #[trigger] alias_map_of(*old(m))[a]
                != chat_id as int),
        r ==> alias_map_of(*final(m)) == alias_map_of(*old(m)).insert(alias@, chat_id as int),
        !r ==> alias_map_of(*final(m)) == alias_map_of(*old(m)),
{
    m.insert_no_overwrite(alias, chat_id).is_ok()
}

/// Relies on `bimap::BiHashMap::iter`: every stored pair is yielded
/// exactly once, the left values distinct because they are keys.
#[verifier::external_body]
fn bimap_pairs(m: &bimap::BiMap<String, i64>) -> (r: Vec<(String, i64)>)
    ensures
        forall|i: int|
            0 <= i < r@.len() ==> alias_map_of(*m).contains_key((#[trigger] r@[i]).0@)
                && alias_map_of(*m)[r@[i].0@] == r@[i].1 as int,
        forall|a: Seq<char>|
            #[trigger] alias_map_of(*m).contains_key(a) ==> exists|i: int|
                0 <= i < r@.len() && (#[trigger] r@[i]).0@ == a,
        forall|i: int, j: int| 0 <= i < j < r@.len() ==> (#[trigger] r@[i]).0@ != (#[trigger] r@[j]).0@,
{
    m.iter().map(|(l, c)| (l.clone(), *c)).collect()
}

/// Why an alias could not be bound.
#[derive(Debug, PartialEq, Eq, Structural, Clone, Copy)]
pub enum AliasError {
    /// The alias already names a different chat.
    Collision,
    /// The chat already owns an alias.
    AlreadyAliased,
}

impl AliasError {
    /// The user-visible description of the failure.
    pub fn message(&self) -> (m: &'static str)
        ensures
            m@ == match self {
                AliasError::Collision => "Ce faci sacale, vrei sa furi clout?"@,
                AliasError::AlreadyAliased => "Ce faci ma, ai pus deja aliasul asta esti prajit?"@,
            },
    {
        match self {
            AliasError::Collision => "Ce faci sacale, vrei sa furi clout?",
            AliasError::AlreadyAliased => "Ce faci ma, ai pus deja aliasul asta esti prajit?",
        }
    }
}

/// No two aliases name the same chat.
pub open spec fn injective(m: Map<Seq<char>, int>) -> bool {
    forall|a: Seq<char>, b: Seq<char>|
        m.contains_key(a) && m.contains_key(b) && a != b ==> #[trigger] m[a] != #[trigger] m[b]
}

/// One saved record rebound: skipped when its alias is taken or its chat
/// already owns an alias, exactly as `set_alias` decides.
pub open spec fn rebind_one(m: Map<Seq<char>, int>, alias: Seq<char>, chat: int) -> Map<
    Seq<char>,
    int,
> {
    if m.contains_key(alias) || (exists|a: Seq<char>| m.contains_key(a) && #[trigger] m[a] == chat) {
        m
    } else {
        m.insert(alias, chat)
    }
}

/// Saved records rebound left to right.
pub open spec fn rebind_all(m: Map<Seq<char>, int>, ps: Seq<(Seq<char>, int)>) -> Map<
    Seq<char>,
    int,
>
    decreases ps.len(),
{
    if ps.len() == 0 {
        m
    } else {
        rebind_all(rebind_one(m, ps[0].0, ps[0].1), ps.skip(1))
    }
}

/// Rebinding processes an appended record last.
pub proof fn lemma_rebind_snoc(m: Map<Seq<char>, int>, ps: Seq<(Seq<char>, int)>, p: (Seq<char>, int))
    ensures
        rebind_all(m, ps.push(p)) == rebind_one(rebind_all(m, ps), p.0, p.1),
    decreases ps.len(),
{
    if ps.len() == 0 {
        assert(ps.push(p)[0] == p);
        assert(ps.push(p).skip(1) =~= Seq::<(Seq<char>, int)>::empty());
        assert(rebind_all(m, ps) == m);
        assert(rebind_all(rebind_one(m, p.0, p.1), ps.push(p).skip(1)) == rebind_one(m, p.0, p.1));
    } else {
        assert(ps.push(p)[0] == ps[0]);
        assert(ps.push(p).skip(1) =~= ps.skip(1).push(p));
        lemma_rebind_snoc(rebind_one(m, ps[0].0, ps[0].1), ps.skip(1), p);
    }
}

/// The bijective alias table.
pub struct AliasRegistry {
    map: bimap::BiMap<String, i64>,
}

impl View for AliasRegistry {
    type V = Map<Seq<char>, int>;

    closed spec fn view(&self) -> Map<Seq<char>, int> {
        alias_map_of(self.map)
    }
}

impl AliasRegistry {
    /// The bijection is kept: no chat is named by two aliases.
    pub open spec fn wf(&self) -> bool {
        injective(self@)
    }

    /// An empty table.
    pub fn new() -> (r: AliasRegistry)
        ensures
            r@ == Map::<Seq<char>, int>::empty(),
            r.wf(),
    {
        let r = AliasRegistry { map: bimap_new() };
        proof {
            assert(r@ =~= Map::<Seq<char>, int>::empty());
        }
        r
    }

    /// Binds `alias` to `chat_id`. The call fails with `Collision` when
    /// the alias already names a different chat, and with
    /// `AlreadyAliased` when the chat already owns an alias, this very
    /// one included; a failed call changes nothing.
    pub fn set_alias(&mut self, chat_id: i64, alias: String) -> (r: Result<(), AliasError>)
        requires
            old(self).wf(),
        ensures
            final(self).wf(),
            ({
                let m = old(self)@;
                if m.contains_key(alias@) && m[alias@] != chat_id as int {
                    r == Err::<(), AliasError>(AliasError::Collision) && final(self)@ == m
                } else if (m.contains_key(alias@) && m[alias@] == chat_id as int) || (exists|
                    a: Seq<char>,
                |
                    m.contains_key(a) && #[trigger] m[a] == chat_id as int) {
                    r == Err::<(), AliasError>(AliasError::AlreadyAliased) && final(self)@ == m
                } else {
                    r == Ok::<(), AliasError>(()) && final(self)@ == m.insert(
                        alias@,
                        chat_id as int,
                    )
                }
            }),
    {
        match bimap_get_by_left(&self.map, &alias) {
            Some(c) => {
                if c != chat_id {
                    Err(AliasError::Collision)
                } else {
                    Err(AliasError::AlreadyAliased)
                }
            },
            None => {
                match bimap_get_by_right(&self.map, chat_id) {
                    Some(_) => Err(AliasError::AlreadyAliased),
                    None => {
                        let ghost m = self@;
                        let ghost av = alias@;
                        let ok = bimap_insert(&mut self.map, alias, chat_id);
                        proof {
                            assert(ok);
                            assert(self@ == m.insert(av, chat_id as int));
                            assert forall|a: Seq<char>, b: Seq<char>|
                                self@.contains_key(a) && self@.contains_key(b) && a != b implies
                                #[trigger] self@[a] != #[trigger] self@[b] by {
                                if a == av {
                                    assert(m.contains_key(b) && m[b] != chat_id as int);
                                } else if b == av {
                                    assert(m.contains_key(a) && m[a] != chat_id as int);
                                } else {
                                    assert(m.contains_key(a) && m.contains_key(b));
                                }
                            }
                        }
                        Ok(())
                    },
                }
            },
        }
    }

    /// The chat an alias names, if any.
    pub fn lookup_by_alias(&self, alias: &String) -> (r: Option<i64>)
        ensures
            match r {
                Some(c) => self@.contains_key(alias@) && self@[alias@] == c as int,
                None => !self@.contains_key(alias@),
            },
    {
        bimap_get_by_left(&self.map, alias)
    }

    /// The alias a chat owns, if any.
    pub fn lookup_by_chat(&self, chat_id: i64) -> (r: Option<String>)
        ensures
            match r {
                Some(a) => self@.contains_key(a@) && self@[a@] == chat_id as int,
                None => forall|a: Seq<char>|
                    self@.contains_key(a) ==> #[trigger] self@[a] != chat_id as int,
            },
    {
        bimap_get_by_right(&self.map, chat_id)
    }

    /// All bindings, one record per pair, for persistence: each stored
    /// binding appears exactly once, and no two records share an alias or
    /// a chat.
    pub fn to_pairs(&self) -> (r: Vec<(String, i64)>)
        requires
            self.wf(),
        ensures
            forall|i: int|
                0 <= i < r@.len() ==> self@.contains_key((#[trigger] r@[i]).0@) && self@[r@[i].0@]
                    == r@[i].1 as int,
            forall|a: Seq<char>|
                #[trigger] self@.contains_key(a) ==> exists|i: int|
                    0 <= i < r@.len() && (#[trigger] r@[i]).0@ == a,
            forall|i: int, j: int|
                0 <= i < j < r@.len() ==> (#[trigger] r@[i]).0@ != (#[trigger] r@[j]).0@ && r@[i].1
                    != r@[j].1,
    {
        let r = bimap_pairs(&self.map);
        proof {
            assert forall|i: int, j: int|
                0 <= i < j < r@.len() implies (#[trigger] r@[i]).0@ != (#[trigger] r@[j]).0@ && r@[i].1
                != r@[j].1 by {
                assert(self@[r@[i].0@] != self@[r@[j].0@]);
            }
        }
        r
    }

    /// Rebinds saved records one at a time, left to right, skipping any
    /// record whose alias is taken or whose chat already owns an alias.
    pub fn from_pairs(pairs: Vec<(String, i64)>) -> (r: AliasRegistry)
        ensures
            r.wf(),
            r@ == rebind_all(
                Map::<Seq<char>, int>::empty(),
                pairs@.map_values(|p: (String, i64)| (p.0@, p.1 as int)),
            ),
    {
        let ghost all = pairs@.map_values(|p: (String, i64)| (p.0@, p.1 as int));
        let mut r = AliasRegistry::new();
        let mut i: usize = 0;
        proof {
            assert(all.take(0) =~= Seq::<(Seq<char>, int)>::empty());
        }
        while i < pairs.len()
            invariant
                i <= pairs@.len(),
                all == pairs@.map_values(|p: (String, i64)| (p.0@, p.1 as int)),
                r.wf(),
                r@ == rebind_all(Map::<Seq<char>, int>::empty(), all.take(i as int)),
            decreases pairs@.len() - i,
        {
            let alias = pairs[i].0.clone();
            let chat = pairs[i].1;
            let ghost pre = r@;
            let _outcome = r.set_alias(chat, alias);
            proof {
                assert(all[i as int] == ((pairs@[i as int]).0@, (pairs@[i as int]).1 as int));
                assert(r@ == rebind_one(pre, all[i as int].0, all[i as int].1));
                lemma_rebind_snoc(
                    Map::<Seq<char>, int>::empty(),
                    all.take(i as int),
                    all[i as int],
                );
                assert(all.take(i as int).push(all[i as int]) =~= all.take(i + 1 as int));
            }
            i += 1;
        }
        proof {
            assert(all.take(pairs@.len() as int) =~= all);
        }
        r
    }
}

/// The bindings round trip: the saved pairs of a bijective table rebind,
/// in any order they were saved in, to exactly the same table, because no
/// saved record collides with another.
pub proof fn lemma_alias_round_trip(before: Map<Seq<char>, int>, ps: Seq<(Seq<char>, int)>)
    requires
        injective(before),
        forall|i: int|
            0 <= i < ps.len() ==> before.contains_key((#[trigger] ps[i]).0) && before[ps[i].0]
                == ps[i].1,
        forall|a: Seq<char>|
            #[trigger] before.contains_key(a) ==> exists|i: int|
                0 <= i < ps.len() && (#[trigger] ps[i]).0 == a,
        forall|i: int, j: int| 0 <= i < j < ps.len() ==> (#[trigger] ps[i]).0 != (#[trigger] ps[j]).0,
    ensures
        rebind_all(Map::<Seq<char>, int>::empty(), ps) == before,
{
    lemma_rebind_builds(Map::<Seq<char>, int>::empty(), ps, before);
}

/// Generalized rebinding: records extending a partial copy of a bijective
/// table rebuild it entirely.
proof fn lemma_rebind_builds(
    m: Map<Seq<char>, int>,
    ps: Seq<(Seq<char>, int)>,
    before: Map<Seq<char>, int>,
)
    requires
        injective(before),
        forall|a: Seq<char>|
            #[trigger] m.contains_key(a) ==> before.contains_key(a) && m[a] == before[a],
        forall|i: int|
            0 <= i < ps.len() ==> before.contains_key((#[trigger] ps[i]).0) && before[ps[i].0]
                == ps[i].1,
        forall|i: int| 0 <= i < ps.len() ==> !m.contains_key((#[trigger] ps[i]).0),
        forall|i: int, j: int| 0 <= i < j < ps.len() ==> (#[trigger] ps[i]).0 != (#[trigger] ps[j]).0,
        forall|a: Seq<char>|
            #[trigger] before.contains_key(a) ==> m.contains_key(a) || exists|i: int|
                0 <= i < ps.len() && (#[trigger] ps[i]).0 == a,
    ensures
        rebind_all(m, ps) == before,
    decreases ps.len(),
{
    if ps.len() == 0 {
        assert forall|a: Seq<char>| #[trigger] before.contains_key(a) implies m.contains_key(a) by {}
        assert(m =~= before);
    } else {
        let p0 = ps[0];
        assert(!m.contains_key(p0.0));
        assert forall|a: Seq<char>| m.contains_key(a) implies #[trigger] m[a] != p0.1 by {
            assert(before.contains_key(a) && m[a] == before[a]);
            assert(before.contains_key(p0.0) && before[p0.0] == p0.1);
            assert(a != p0.0);
        }
        let m1 = rebind_one(m, p0.0, p0.1);
        assert(m1 == m.insert(p0.0, p0.1));
        let rest = ps.skip(1);
        assert forall|i: int| 0 <= i < rest.len() implies !m1.contains_key(
            (#[trigger] rest[i]).0,
        ) by {
            assert(rest[i] == ps[i + 1]);
            assert((ps[0]).0 != (ps[i + 1]).0);
        }
        assert forall|i: int|
            0 <= i < rest.len() implies before.contains_key((#[trigger] rest[i]).0) && before[(
            rest[i]).0] == rest[i].1 by {
            assert(rest[i] == ps[i + 1]);
        }
        assert forall|i: int, j: int|
            0 <= i < j < rest.len() implies (#[trigger] rest[i]).0 != (#[trigger] rest[j]).0 by {
            assert(rest[i] == ps[i + 1] && rest[j] == ps[j + 1]);
        }
        assert forall|a: Seq<char>|
            #[trigger] before.contains_key(a) implies m1.contains_key(a) || exists|i: int|
            0 <= i < rest.len() && (#[trigger] rest[i]).0 == a by {
            if !m1.contains_key(a) {
                assert(!m.contains_key(a));
                let i = choose|i: int| 0 <= i < ps.len() && (#[trigger] ps[i]).0 == a;
                assert(i != 0);
                assert(rest[i - 1] == ps[i]);
            }
        }
        lemma_rebind_builds(m1, rest, before);
    }
}

/// Resolves a generation or thought target that may be a bound alias or a
/// raw numeric chat id: the alias lookup is tried first, the numeric
/// reading second.
pub fn resolve_target(aliases: &AliasRegistry, token: &String) -> (r: Result<i64, NumError>)
    ensures
        aliases@.contains_key(token@) ==> (r matches Ok(c) && aliases@[token@] == c as int),
        !aliases@.contains_key(token@) ==> match r {
            Ok(c) => spec_parse_i64(trim_spaces(token@)) == Ok::<int, NumError>(c as int),
            Err(e) => spec_parse_i64(trim_spaces(token@)) == Err::<int, NumError>(e),
        },
{
    match aliases.lookup_by_alias(token) {
        Some(c) => Ok(c),
        None => {
            let chars = chars_of(token.as_str());
            let trimmed = trim(&chars);
            parse_i64(&trimmed)
        },
    }
}

} // verus!
