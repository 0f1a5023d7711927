//! The boolean trigger-expression language: grammar, parser, typed error
//! taxonomy, and evaluator.
//!
//! The grammar, after all whitespace has been stripped, is
//!
//! ```text
//! expr     := term (('&'|'|') term)*      left-associative, equal precedence
//! term     := variable | '(' expr ')'
//! variable := [A-Za-z0-9]+               folded to lower case
//! ```
//!
//! The specification-level parser (`spec_parse_*`) is the grammar read as a
//! recursive-descent parser; the executable parser is proved to return
//! exactly its result, errors included.

use vstd::prelude::*;
use crate::text::{
    is_alnum, alnum_char, NumError, split_by, seg_views, trim_spaces, strip_spaces, fold_chars,
    spec_parse_i64, chars_of, split_tilde, trim, parse_i64, remove_spaces, lower_all,
    chars_to_string, subvec,
};

verus! {

/// The mathematical form of an expression tree: variable names are
/// character sequences.
pub enum SpecExpr {
    Var(Seq<char>),
    And(Box<SpecExpr>, Box<SpecExpr>),
    Or(Box<SpecExpr>, Box<SpecExpr>),
}

/// Why a trigger command was rejected.
#[derive(Debug, PartialEq, Eq, Structural, Clone, Copy)]
pub enum ParseError {
    /// The wire format did not have exactly four `'~'`-separated fields.
    BadSeparators,
    /// Unbalanced parentheses, or text left over after a complete expression.
    BadParentheses,
    /// A character outside the grammar's alphabet where a term was expected.
    BadCharacters,
    /// Reserved for operators outside the grammar; unreachable today.
    BadOperator,
    /// A numeric field did not parse as a signed 64-bit integer.
    BadNumber(NumError),
}

impl ParseError {
    /// The user-visible description of the failure, surfaced verbatim as
    /// the reply.
    pub fn message(&self) -> (m: String)
        ensures
            m@ == match self {
                ParseError::BadSeparators => "N-ai pus '~' sau ai pus prea multi bombardiere"@,
                ParseError::BadParentheses => "Ai belit parantezele la expresie bombardiere"@,
                ParseError::BadCharacters => "Nush ce plm ai facut dar nu era corect"@,
                ParseError::BadOperator => "Wtf is this"@,
                ParseError::BadNumber(e) => match e {
                    NumError::Empty => "cannot parse integer from empty string"@,
                    NumError::InvalidDigit => "invalid digit found in string"@,
                    NumError::PosOverflow => "number too large to fit in target type"@,
                    NumError::NegOverflow => "number too small to fit in target type"@,
                },
            },
    {
        match self {
            ParseError::BadSeparators => String::from_str(
                "N-ai pus '~' sau ai pus prea multi bombardiere",
            ),
            ParseError::BadParentheses => String::from_str(
                "Ai belit parantezele la expresie bombardiere",
            ),
            ParseError::BadCharacters => String::from_str("Nush ce plm ai facut dar nu era corect"),
            ParseError::BadOperator => String::from_str("Wtf is this"),
            ParseError::BadNumber(e) => String::from_str(e.message()),
        }
    }
}

/// A trigger expression tree over word-presence variables.
#[derive(Debug, PartialEq, Eq)]
pub enum ExpressionTree {
    Variable(String),
    OrSign(Box<ExpressionTree>, Box<ExpressionTree>),
    AndSign(Box<ExpressionTree>, Box<ExpressionTree>),
}

/// The mathematical value of a tree.
pub open spec fn tree_view(t: ExpressionTree) -> SpecExpr
    decreases t,
{
    match t {
        ExpressionTree::Variable(w) => SpecExpr::Var(w@),
        ExpressionTree::OrSign(l, r) => SpecExpr::Or(
            Box::new(tree_view(*l)),
            Box::new(tree_view(*r)),
        ),
        ExpressionTree::AndSign(l, r) => SpecExpr::And(
            Box::new(tree_view(*l)),
            Box::new(tree_view(*r)),
        ),
    }
}

impl View for ExpressionTree {
    type V = SpecExpr;

    open spec fn view(&self) -> SpecExpr {
        tree_view(*self)
    }
}

/// The value of an expression under a set of present words: a variable
/// tests membership, `And` and `Or` are the boolean connectives.
pub open spec fn spec_eval(t: SpecExpr, words: Set<Seq<char>>) -> bool
    decreases t,
{
    match t {
        SpecExpr::Var(w) => words.contains(w),
        SpecExpr::Or(l, r) => spec_eval(*l, words) || spec_eval(*r, words),
        SpecExpr::And(l, r) => spec_eval(*l, words) && spec_eval(*r, words),
    }
}

/// The set of words a list of strings supplies.
pub open spec fn word_set(ws: Seq<String>) -> Set<Seq<char>> {
    Set::new(|w: Seq<char>| exists|i: int| 0 <= i < ws.len() && ws[i]@ == w)
}

/// Whether `w` occurs in `words`.
pub fn contains_word(words: &Vec<String>, w: &String) -> (r: bool)
    ensures
        r == word_set(words@).contains(w@),
{
    let mut i: usize = 0;
    while i < words.len()
        invariant
            i <= words@.len(),
            forall|j: int| 0 <= j < i ==> words@[j]@ != w@,
        decreases words@.len() - i,
    {
        if words[i].eq(w) {
            return true;
        }
        i += 1;
    }
    false
}

impl ExpressionTree {
    /// Evaluates the tree against the present words. The left operand is
    /// evaluated first and the right one is skipped when the result is
    /// already decided; the outcome equals full evaluation.
    pub fn eval(&self, words: &Vec<String>) -> (r: bool)
        ensures
            r == spec_eval(self@, word_set(words@)),
        decreases *self,
    {
        match self {
            ExpressionTree::Variable(w) => contains_word(words, w),
            ExpressionTree::OrSign(l, r) => {
                let res_left = l.eval(words);
                if res_left {
                    true
                } else {
                    r.eval(words)
                }
            },
            ExpressionTree::AndSign(l, r) => {
                let res_left = l.eval(words);
                if !res_left {
                    false
                } else {
                    r.eval(words)
                }
            },
        }
    }
}

/// The length of the leading alphanumeric run of `s`.
pub open spec fn alnum_run(s: Seq<char>) -> nat
    decreases s.len(),
{
    if s.len() > 0 && is_alnum(s[0]) {
        (1 + alnum_run(s.skip(1))) as nat
    } else {
        0
    }
}

pub proof fn lemma_alnum_run(s: Seq<char>)
    ensures
        alnum_run(s) <= s.len(),
    decreases s.len(),
{
    if s.len() > 0 && is_alnum(s[0]) {
        lemma_alnum_run(s.skip(1));
    }
}

/// `alnum_run` is the unique boundary with alphanumerics before it and a
/// non-alphanumeric (or the end) at it.
pub proof fn lemma_alnum_run_is(s: Seq<char>, n: int)
    requires
        0 <= n <= s.len(),
        forall|i: int| 0 <= i < n ==> is_alnum(#[trigger] s[i]),
        n == s.len() || !is_alnum(s[n]),
    ensures
        alnum_run(s) == n,
    decreases n,
{
    if n == 0 {
    } else {
        assert(is_alnum(s[0]));
        lemma_alnum_run_is(s.skip(1), n - 1);
    }
}

// The grammar, read as a recursive-descent parser over the remaining
// input. The `fuel` argument only justifies termination to Verus; it
// decreases at each '(' descent and at each operator step, so any fuel of
// at least the input length gives the same answer (`lemma_*_fuel` below),
// and the `spec_parse_*` functions fix that canonical fuel.

pub open spec fn fuel_parse_variable(s: Seq<char>, fuel: nat) -> Result<
    (SpecExpr, Seq<char>),
    ParseError,
>
    decreases fuel, 0int,
{
    if s.len() > 0 && s[0] == '(' {
        if fuel == 0 {
            Err(ParseError::BadOperator)
        } else {
            match fuel_parse_expr(s.skip(1), (fuel - 1) as nat) {
                Ok((e, rest)) => if rest.len() > 0 && rest[0] == ')' {
                    Ok((e, rest.skip(1)))
                } else {
                    Err(ParseError::BadParentheses)
                },
                Err(er) => Err(er),
            }
        }
    } else if s.len() > 0 && is_alnum(s[0]) {
        Ok((SpecExpr::Var(s.take(alnum_run(s) as int)), s.skip(alnum_run(s) as int)))
    } else {
        Err(ParseError::BadCharacters)
    }
}

pub open spec fn fuel_parse_ops(e: SpecExpr, s: Seq<char>, fuel: nat) -> Result<
    (SpecExpr, Seq<char>),
    ParseError,
>
    decreases fuel, 1int,
{
    if s.len() > 0 && (s[0] == '&' || s[0] == '|') {
        if fuel == 0 {
            Err(ParseError::BadOperator)
        } else {
            match fuel_parse_variable(s.skip(1), (fuel - 1) as nat) {
                Ok((e2, rest)) => {
                    let combined = if s[0] == '&' {
                        SpecExpr::And(Box::new(e), Box::new(e2))
                    } else {
                        SpecExpr::Or(Box::new(e), Box::new(e2))
                    };
                    fuel_parse_ops(combined, rest, (fuel - 1) as nat)
                },
                Err(er) => Err(er),
            }
        }
    } else {
        Ok((e, s))
    }
}

pub open spec fn fuel_parse_expr(s: Seq<char>, fuel: nat) -> Result<
    (SpecExpr, Seq<char>),
    ParseError,
>
    decreases fuel, 2int,
{
    match fuel_parse_variable(s, fuel) {
        Ok((e, rest)) => fuel_parse_ops(e, rest, fuel),
        Err(er) => Err(er),
    }
}

/// A term strictly consumes input.
pub proof fn lemma_variable_consumes(s: Seq<char>, fuel: nat)
    ensures
        fuel_parse_variable(s, fuel) matches Ok((e, r)) ==> r.len() < s.len(),
    decreases fuel, 0int,
{
    if s.len() > 0 && s[0] == '(' && fuel > 0 {
        lemma_expr_consumes(s.skip(1), (fuel - 1) as nat);
    } else if s.len() > 0 && is_alnum(s[0]) {
        lemma_alnum_run(s);
    }
}

/// An operator tail never grows the remaining input.
pub proof fn lemma_ops_consumes(e: SpecExpr, s: Seq<char>, fuel: nat)
    ensures
        fuel_parse_ops(e, s, fuel) matches Ok((e2, r)) ==> r.len() <= s.len(),
    decreases fuel, 1int,
{
    if s.len() > 0 && (s[0] == '&' || s[0] == '|') && fuel > 0 {
        lemma_variable_consumes(s.skip(1), (fuel - 1) as nat);
        match fuel_parse_variable(s.skip(1), (fuel - 1) as nat) {
            Ok((e2, rest)) => {
                let combined = if s[0] == '&' {
                    SpecExpr::And(Box::new(e), Box::new(e2))
                } else {
                    SpecExpr::Or(Box::new(e), Box::new(e2))
                };
                lemma_ops_consumes(combined, rest, (fuel - 1) as nat);
            },
            Err(_) => {},
        }
    }
}

/// An expression strictly consumes input.
pub proof fn lemma_expr_consumes(s: Seq<char>, fuel: nat)
    ensures
        fuel_parse_expr(s, fuel) matches Ok((e, r)) ==> r.len() < s.len(),
    decreases fuel, 2int,
{
    lemma_variable_consumes(s, fuel);
    match fuel_parse_variable(s, fuel) {
        Ok((e, rest)) => {
            lemma_ops_consumes(e, rest, fuel);
        },
        Err(_) => {},
    }
}

/// Any fuel of at least the input length parses a term identically.
pub proof fn lemma_variable_fuel(s: Seq<char>, f1: nat, f2: nat)
    requires
        f1 >= s.len(),
        f2 >= s.len(),
    ensures
        fuel_parse_variable(s, f1) == fuel_parse_variable(s, f2),
    decreases f1 + f2, 0int,
{
    if s.len() > 0 && s[0] == '(' {
        lemma_expr_fuel(s.skip(1), (f1 - 1) as nat, (f2 - 1) as nat);
    }
}

/// Any fuel of at least the input length parses an operator tail identically.
pub proof fn lemma_ops_fuel(e: SpecExpr, s: Seq<char>, f1: nat, f2: nat)
    requires
        f1 >= s.len(),
        f2 >= s.len(),
    ensures
        fuel_parse_ops(e, s, f1) == fuel_parse_ops(e, s, f2),
    decreases f1 + f2, 1int,
{
    if s.len() > 0 && (s[0] == '&' || s[0] == '|') {
        lemma_variable_fuel(s.skip(1), (f1 - 1) as nat, (f2 - 1) as nat);
        lemma_variable_consumes(s.skip(1), (f1 - 1) as nat);
        match fuel_parse_variable(s.skip(1), (f1 - 1) as nat) {
            Ok((e2, rest)) => {
                let combined = if s[0] == '&' {
                    SpecExpr::And(Box::new(e), Box::new(e2))
                } else {
                    SpecExpr::Or(Box::new(e), Box::new(e2))
                };
                lemma_ops_fuel(combined, rest, (f1 - 1) as nat, (f2 - 1) as nat);
            },
            Err(_) => {},
        }
    }
}

/// Any fuel of at least the input length parses an expression identically.
pub proof fn lemma_expr_fuel(s: Seq<char>, f1: nat, f2: nat)
    requires
        f1 >= s.len(),
        f2 >= s.len(),
    ensures
        fuel_parse_expr(s, f1) == fuel_parse_expr(s, f2),
    decreases f1 + f2, 2int,
{
    lemma_variable_fuel(s, f1, f2);
    lemma_variable_consumes(s, f1);
    match fuel_parse_variable(s, f1) {
        Ok((e, rest)) => {
            lemma_ops_fuel(e, rest, f1, f2);
        },
        Err(_) => {},
    }
}

/// Parses one term of the grammar: a variable, or a parenthesized
/// expression.
pub open spec fn spec_parse_variable(s: Seq<char>) -> Result<(SpecExpr, Seq<char>), ParseError> {
    fuel_parse_variable(s, s.len())
}

/// Folds `('&'|'|') term` steps onto `e`, left to right, both operators at
/// equal precedence.
pub open spec fn spec_parse_ops(e: SpecExpr, s: Seq<char>) -> Result<
    (SpecExpr, Seq<char>),
    ParseError,
> {
    fuel_parse_ops(e, s, s.len())
}

/// Parses one expression: a term followed by any number of operator-term
/// steps.
pub open spec fn spec_parse_expr(s: Seq<char>) -> Result<(SpecExpr, Seq<char>), ParseError> {
    fuel_parse_expr(s, s.len())
}

/// The meaning of a whole (whitespace-free) expression text: the input
/// matches the grammar exactly when this returns `Ok`, and then the tree is
/// the left-to-right fold the grammar prescribes.
pub open spec fn spec_parse(s: Seq<char>) -> Result<SpecExpr, ParseError> {
    match spec_parse_expr(s) {
        Ok((e, rest)) => if rest.len() == 0 {
            Ok(e)
        } else {
            Err(ParseError::BadParentheses)
        },
        Err(er) => Err(er),
    }
}

/// `spec_parse_variable` satisfies the natural one-step unfolding of the
/// grammar, with canonical fuel on both sides.
pub proof fn lemma_parse_variable_step(s: Seq<char>)
    ensures
        s.len() > 0 && s[0] == '(' ==> spec_parse_variable(s) == (match spec_parse_expr(s.skip(1)) {
            Ok((e, rest)) => if rest.len() > 0 && rest[0] == ')' {
                Ok((e, rest.skip(1)))
            } else {
                Err::<(SpecExpr, Seq<char>), ParseError>(ParseError::BadParentheses)
            },
            Err(er) => Err::<(SpecExpr, Seq<char>), ParseError>(er),
        }),
        !(s.len() > 0 && s[0] == '(') && s.len() > 0 && is_alnum(s[0])
            ==> spec_parse_variable(s) == Ok::<(SpecExpr, Seq<char>), ParseError>(
            (SpecExpr::Var(s.take(alnum_run(s) as int)), s.skip(alnum_run(s) as int)),
        ),
        !(s.len() > 0 && s[0] == '(') && !(s.len() > 0 && is_alnum(s[0]))
            ==> spec_parse_variable(s) == Err::<(SpecExpr, Seq<char>), ParseError>(
            ParseError::BadCharacters,
        ),
{
    if s.len() > 0 && s[0] == '(' {
        assert(s.skip(1).len() == s.len() - 1);
    }
}

/// `spec_parse_expr` satisfies the natural unfolding into a term and an
/// operator tail, with canonical fuel on both sides.
pub proof fn lemma_parse_expr_step(s: Seq<char>)
    ensures
        spec_parse_expr(s) == (match spec_parse_variable(s) {
            Ok((e, rest)) => spec_parse_ops(e, rest),
            Err(er) => Err::<(SpecExpr, Seq<char>), ParseError>(er),
        }),
{
    lemma_variable_consumes(s, s.len());
    match fuel_parse_variable(s, s.len()) {
        Ok((e, rest)) => {
            lemma_ops_fuel(e, rest, s.len(), rest.len());
        },
        Err(_) => {},
    }
}

/// `spec_parse_ops` satisfies the natural one-step unfolding, with
/// canonical fuel on both sides.
pub proof fn lemma_parse_ops_step(e: SpecExpr, s: Seq<char>)
    ensures
        s.len() > 0 && (s[0] == '&' || s[0] == '|') ==> spec_parse_ops(e, s) == (
        match spec_parse_variable(s.skip(1)) {
            Ok((e2, rest)) => spec_parse_ops(
                if s[0] == '&' {
                    SpecExpr::And(Box::new(e), Box::new(e2))
                } else {
                    SpecExpr::Or(Box::new(e), Box::new(e2))
                },
                rest,
            ),
            Err(er) => Err::<(SpecExpr, Seq<char>), ParseError>(er),
        }),
        !(s.len() > 0 && (s[0] == '&' || s[0] == '|')) ==> spec_parse_ops(e, s) == Ok::<
            (SpecExpr, Seq<char>),
            ParseError,
        >((e, s)),
{
    if s.len() > 0 && (s[0] == '&' || s[0] == '|') {
        assert(s.skip(1).len() == s.len() - 1);
        lemma_variable_consumes(s.skip(1), (s.len() - 1) as nat);
        match fuel_parse_variable(s.skip(1), (s.len() - 1) as nat) {
            Ok((e2, rest)) => {
                let combined = if s[0] == '&' {
                    SpecExpr::And(Box::new(e), Box::new(e2))
                } else {
                    SpecExpr::Or(Box::new(e), Box::new(e2))
                };
                lemma_ops_fuel(combined, rest, (s.len() - 1) as nat, rest.len());
            },
            Err(_) => {},
        }
    }
}

/// Parses one term starting at `pos`: exactly what `spec_parse_variable`
/// says of the remaining input, with the new position returned on success.
pub fn parse_variable(input: &Vec<char>, pos: usize) -> (r: Result<
    (ExpressionTree, usize),
    ParseError,
>)
    requires
        pos <= input@.len(),
    ensures
        match r {
            Ok((t, p2)) => pos < p2 <= input@.len() && spec_parse_variable(
                input@.skip(pos as int),
            ) == Ok::<(SpecExpr, Seq<char>), ParseError>((t@, input@.skip(p2 as int))),
            Err(e) => spec_parse_variable(input@.skip(pos as int)) == Err::<
                (SpecExpr, Seq<char>),
                ParseError,
            >(e),
        },
    decreases input@.len() - pos, 0int,
{
    let ghost s = input@.skip(pos as int);
    proof {
        lemma_parse_variable_step(s);
    }
    if pos < input.len() && input[pos] == '(' {
        proof {
            assert(s.skip(1) =~= input@.skip(pos + 1 as int));
        }
        match parse_expr(input, pos + 1) {
            Ok((e, p2)) => {
                proof {
                    if p2 < input@.len() {
                        assert(input@.skip(p2 as int)[0] == input@[p2 as int]);
                    }
                }
                if p2 < input.len() && input[p2] == ')' {
                    proof {
                        assert(input@.skip(p2 as int).skip(1) =~= input@.skip(p2 + 1 as int));
                    }
                    Ok((e, p2 + 1))
                } else {
                    Err(ParseError::BadParentheses)
                }
            },
            Err(er) => Err(er),
        }
    } else if pos < input.len() && alnum_char(input[pos]) {
        let mut j: usize = pos + 1;
        while j < input.len() && alnum_char(input[j])
            invariant
                pos < j <= input@.len(),
                forall|i: int| pos <= i < j ==> is_alnum(#[trigger] input@[i]),
            decreases input@.len() - j,
        {
            j += 1;
        }
        proof {
            assert forall|i: int| 0 <= i < j - pos implies is_alnum(#[trigger] s[i]) by {
                assert(s[i] == input@[pos + i]);
            }
            if j < input@.len() {
                assert(s[j - pos] == input@[j as int]);
            }
            lemma_alnum_run_is(s, j - pos);
        }
        let name = subvec(input, pos, j);
        let word = chars_to_string(&name);
        proof {
            assert(word@ =~= s.take(alnum_run(s) as int));
            assert(input@.skip(j as int) =~= s.skip(alnum_run(s) as int));
        }
        Ok((ExpressionTree::Variable(word), j))
    } else {
        Err(ParseError::BadCharacters)
    }
}

/// Parses one expression starting at `pos`: exactly what `spec_parse_expr`
/// says of the remaining input, with the new position returned on success.
pub fn parse_expr(input: &Vec<char>, pos: usize) -> (r: Result<
    (ExpressionTree, usize),
    ParseError,
>)
    requires
        pos <= input@.len(),
    ensures
        match r {
            Ok((t, p2)) => pos < p2 <= input@.len() && spec_parse_expr(input@.skip(pos as int))
                == Ok::<(SpecExpr, Seq<char>), ParseError>((t@, input@.skip(p2 as int))),
            Err(e) => spec_parse_expr(input@.skip(pos as int)) == Err::<
                (SpecExpr, Seq<char>),
                ParseError,
            >(e),
        },
    decreases input@.len() - pos, 1int,
{
    proof {
        lemma_parse_expr_step(input@.skip(pos as int));
    }
    let (mut tree, mut p) = match parse_variable(input, pos) {
        Ok(tp) => tp,
        Err(e) => {
            return Err(e);
        },
    };
    while p < input.len() && (input[p] == '&' || input[p] == '|')
        invariant
            pos < p <= input@.len(),
            spec_parse_expr(input@.skip(pos as int)) == spec_parse_ops(
                tree@,
                input@.skip(p as int),
            ),
        decreases input@.len() - p,
    {
        let ghost s = input@.skip(p as int);
        proof {
            assert(s[0] == input@[p as int]);
            lemma_parse_ops_step(tree@, s);
            assert(s.skip(1) =~= input@.skip(p + 1 as int));
        }
        let op = input[p];
        match parse_variable(input, p + 1) {
            Ok((t2, p2)) => {
                tree = if op == '&' {
                    ExpressionTree::AndSign(Box::new(tree), Box::new(t2))
                } else {
                    ExpressionTree::OrSign(Box::new(tree), Box::new(t2))
                };
                p = p2;
            },
            Err(e) => {
                return Err(e);
            },
        }
    }
    proof {
        let s = input@.skip(p as int);
        if s.len() > 0 {
            assert(s[0] == input@[p as int]);
        }
        lemma_parse_ops_step(tree@, s);
    }
    Ok((tree, p))
}

/// Parses a whole whitespace-free expression text: succeeds exactly when
/// the text matches the grammar, with nothing left over.
pub fn parse(tokens: &Vec<char>) -> (r: Result<ExpressionTree, ParseError>)
    ensures
        match r {
            Ok(t) => spec_parse(tokens@) == Ok::<SpecExpr, ParseError>(t@),
            Err(e) => spec_parse(tokens@) == Err::<SpecExpr, ParseError>(e),
        },
{
    proof {
        assert(tokens@.skip(0) =~= tokens@);
    }
    match parse_expr(tokens, 0) {
        Ok((t, p)) => {
            if p == tokens.len() {
                proof {
                    assert(tokens@.skip(p as int).len() == 0);
                }
                Ok(t)
            } else {
                Err(ParseError::BadParentheses)
            }
        },
        Err(e) => Err(e),
    }
}

/// One trigger rule: who added it, in which chat it lives, the parsed
/// condition, and the canned reply. Immutable once constructed.
#[derive(Debug, PartialEq, Eq)]
pub struct Expression {
    pub added_by: i64,
    pub expr: ExpressionTree,
    pub response: String,
    pub group_id: i64,
}

/// The mathematical value of an `Expression`.
pub struct SpecExpression {
    pub added_by: int,
    pub group_id: int,
    pub tree: SpecExpr,
    pub response: Seq<char>,
}

impl View for Expression {
    type V = SpecExpression;

    open spec fn view(&self) -> SpecExpression {
        SpecExpression {
            added_by: self.added_by as int,
            group_id: self.group_id as int,
            tree: self.expr@,
            response: self.response@,
        }
    }
}

/// The meaning of a wire command `addedBy~groupId~expression~response`:
/// exactly four fields, the first two trimmed and read as signed 64-bit
/// decimals, the third stripped of all whitespace, folded to lower case
/// and parsed against the grammar, the fourth kept verbatim. The first
/// failure, in that order, is the error.
pub open spec fn spec_from_str(s: Seq<char>) -> Result<SpecExpression, ParseError> {
    let fields = split_by(s, |c: char| c == '~');
    if fields.len() != 4 {
        Err(ParseError::BadSeparators)
    } else {
        match spec_parse_i64(trim_spaces(fields[0])) {
            Err(e) => Err(ParseError::BadNumber(e)),
            Ok(a) => match spec_parse_i64(trim_spaces(fields[1])) {
                Err(e) => Err(ParseError::BadNumber(e)),
                Ok(g) => match spec_parse(fold_chars(strip_spaces(fields[2]))) {
                    Err(e) => Err(e),
                    Ok(t) => Ok(
                        SpecExpression { added_by: a, group_id: g, tree: t, response: fields[3] },
                    ),
                },
            },
        }
    }
}

impl Expression {
    /// Evaluates this rule's condition against the present words.
    pub fn eval(&self, words: &Vec<String>) -> (r: bool)
        ensures
            r == spec_eval(self@.tree, word_set(words@)),
    {
        self.expr.eval(words)
    }

    /// Reads a trigger rule from its wire form, exactly as `spec_from_str`
    /// describes; no rule is built from a rejected command.
    pub fn from_str(s: &str) -> (r: Result<Expression, ParseError>)
        ensures
            match r {
                Ok(e) => spec_from_str(s@) == Ok::<SpecExpression, ParseError>(e@),
                Err(er) => spec_from_str(s@) == Err::<SpecExpression, ParseError>(er),
            },
    {
        let chars = chars_of(s);
        let fields = split_tilde(&chars);
        let ghost fviews = split_by(s@, |c: char| c == '~');
        proof {
            assert(fields@.len() == fviews.len());
            assert(forall|i: int| 0 <= i < fields@.len() ==> (#[trigger] fields@[i])@ == fviews[i]);
        }
        if fields.len() != 4 {
            return Err(ParseError::BadSeparators);
        }
        let t0 = trim(&fields[0]);
        let added_by = match parse_i64(&t0) {
            Ok(x) => x,
            Err(e) => {
                return Err(ParseError::BadNumber(e));
            },
        };
        let t1 = trim(&fields[1]);
        let group_id = match parse_i64(&t1) {
            Ok(x) => x,
            Err(e) => {
                return Err(ParseError::BadNumber(e));
            },
        };
        let stripped = remove_spaces(&fields[2]);
        let folded = lower_all(&stripped);
        let tree = match parse(&folded) {
            Ok(t) => t,
            Err(e) => {
                return Err(e);
            },
        };
        let response = chars_to_string(&fields[3]);
        Ok(Expression { added_by, expr: tree, response, group_id })
    }
}

/// The equal-precedence law: in `"a|b&c"` the `'&'` does not bind tighter
/// than the `'|'`; the text parses to the left-to-right fold
/// `And(Or(a, b), c)`, so under any set of present words the value is
/// `((a present or b present) and c present)`.
pub proof fn lemma_equal_precedence(words: Set<Seq<char>>)
    ensures
        ({
            let s = seq!['a', '|', 'b', '&', 'c'];
            let t = SpecExpr::And(
                Box::new(
                    SpecExpr::Or(
                        Box::new(SpecExpr::Var(seq!['a'])),
                        Box::new(SpecExpr::Var(seq!['b'])),
                    ),
                ),
                Box::new(SpecExpr::Var(seq!['c'])),
            );
            &&& spec_parse(s) == Ok::<SpecExpr, ParseError>(t)
            &&& spec_eval(t, words) == ((words.contains(seq!['a']) || words.contains(seq!['b']))
                && words.contains(seq!['c']))
        }),
{
    let s = seq!['a', '|', 'b', '&', 'c'];
    let ta = SpecExpr::Var(seq!['a']);
    let tb = SpecExpr::Var(seq!['b']);
    let tc = SpecExpr::Var(seq!['c']);
    let tab = SpecExpr::Or(Box::new(ta), Box::new(tb));
    let t = SpecExpr::And(Box::new(tab), Box::new(tc));
    let s1 = seq!['|', 'b', '&', 'c'];
    let s2 = seq!['b', '&', 'c'];
    let s3 = seq!['&', 'c'];
    let s4 = seq!['c'];
    let s5 = Seq::<char>::empty();
    lemma_parse_expr_step(s);
    lemma_parse_variable_step(s);
    lemma_alnum_run_is(s, 1);
    assert(s.take(1) =~= seq!['a']);
    assert(s.skip(1) =~= s1);
    assert(spec_parse_variable(s) == Ok::<(SpecExpr, Seq<char>), ParseError>((ta, s1)));
    lemma_parse_ops_step(ta, s1);
    assert(s1.skip(1) =~= s2);
    lemma_parse_variable_step(s2);
    lemma_alnum_run_is(s2, 1);
    assert(s2.take(1) =~= seq!['b']);
    assert(s2.skip(1) =~= s3);
    assert(spec_parse_variable(s2) == Ok::<(SpecExpr, Seq<char>), ParseError>((tb, s3)));
    assert(spec_parse_ops(ta, s1) == spec_parse_ops(tab, s3));
    lemma_parse_ops_step(tab, s3);
    assert(s3.skip(1) =~= s4);
    lemma_parse_variable_step(s4);
    lemma_alnum_run_is(s4, 1);
    assert(s4.take(1) =~= seq!['c']);
    assert(s4.skip(1) =~= s5);
    assert(spec_parse_variable(s4) == Ok::<(SpecExpr, Seq<char>), ParseError>((tc, s5)));
    assert(spec_parse_ops(tab, s3) == spec_parse_ops(t, s5));
    lemma_parse_ops_step(t, s5);
    assert(spec_parse_expr(s) == Ok::<(SpecExpr, Seq<char>), ParseError>((t, s5)));
    assert(spec_parse(s) == Ok::<SpecExpr, ParseError>(t));
    assert(spec_eval(ta, words) == words.contains(seq!['a']));
    assert(spec_eval(tb, words) == words.contains(seq!['b']));
    assert(spec_eval(tc, words) == words.contains(seq!['c']));
    assert(spec_eval(tab, words) == (words.contains(seq!['a']) || words.contains(seq!['b'])));
    assert(spec_eval(t, words) == (spec_eval(tab, words) && spec_eval(tc, words)));
}

} // verus!
