//! Character-level text utilities: collecting the characters of a string,
//! whitespace tests, lower-case folding of ASCII letters, trimming,
//! splitting, and decimal parsing of signed 64-bit integers.

use vstd::prelude::*;
use vstd::string::StrSliceExecFns;

verus! {

/// An ASCII whitespace character.
pub open spec fn is_space(c: char) -> bool {
    c == ' ' || c == '\t' || c == '\n' || c == '\x0c' || c == '\r'
}

/// An ASCII alphanumeric character.
pub open spec fn is_alnum(c: char) -> bool {
    ('0' <= c && c <= '9') || ('a' <= c && c <= 'z') || ('A' <= c && c <= 'Z')
}

/// Lower-case folding of a single character: ASCII capital letters are
/// mapped to the corresponding small letters, everything else is kept.
pub open spec fn fold_char(c: char) -> char {
    if 'A' <= c && c <= 'Z' {
        (c as u8 + 32) as char
    } else {
        c
    }
}

/// `s` folded to lower case character by character.
pub open spec fn fold_chars(s: Seq<char>) -> Seq<char> {
    s.map_values(|c: char| fold_char(c))
}

pub fn space_char(c: char) -> (r: bool)
    ensures
        r == is_space(c),
{
    c == ' ' || c == '\t' || c == '\n' || c == '\x0c' || c == '\r'
}

pub fn alnum_char(c: char) -> (r: bool)
    ensures
        r == is_alnum(c),
{
    ('0' <= c && c <= '9') || ('a' <= c && c <= 'z') || ('A' <= c && c <= 'Z')
}

pub fn lower_char(c: char) -> (r: char)
    ensures
        r == fold_char(c),
{
    if 'A' <= c && c <= 'Z' {
        (c as u8 + 32) as char
    } else {
        c
    }
}

/// The characters of a string slice, in order.
pub fn chars_of(s: &str) -> (v: Vec<char>)
    ensures
        v@ == s@,
{
    let n = s.unicode_len();
    let mut v: Vec<char> = Vec::new();
    let mut i: usize = 0;
    while i < n
        invariant
            n == s@.len(),
            i <= n,
            v@ == s@.subrange(0, i as int),
        decreases n - i,
    {
        v.push(s.get_char(i));
        i += 1;
        assert(v@ =~= s@.subrange(0, i as int));
    }
    assert(v@ =~= s@);
    v
}

/// Builds a `String` whose characters are exactly those of `v`.
/// Relies on `Iterator::collect` for `String`: the collected string holds
/// the iterated characters in order.
#[verifier::external_body]
pub fn chars_to_string(v: &Vec<char>) -> (s: String)
    ensures
        s@ == v@,
{
    v.iter().collect()
}

/// `v` folded to lower case character by character.
pub fn lower_all(v: &Vec<char>) -> (r: Vec<char>)
    ensures
        r@ == fold_chars(v@),
{
    let mut r: Vec<char> = Vec::new();
    let mut i: usize = 0;
    while i < v.len()
        invariant
            i <= v@.len(),
            r@ == v@.subrange(0, i as int).map_values(|c: char| fold_char(c)),
        decreases v@.len() - i,
    {
        r.push(lower_char(v[i]));
        i += 1;
        assert(r@ =~= v@.subrange(0, i as int).map_values(|c: char| fold_char(c)));
    }
    assert(v@.subrange(0, v@.len() as int) =~= v@);
    r
}

/// The present words of a message: the text folded to lower case and cut
/// at every character that is not ASCII alphanumeric, empty pieces
/// dropped.
pub open spec fn spec_match_words(s: Seq<char>) -> Seq<Seq<char>> {
    split_by(fold_chars(s), |c: char| !is_alnum(c)).filter(|w: Seq<char>| w.len() > 0)
}

/// Extracts the present words of a message for trigger matching.
pub fn match_words(text: &str) -> (r: Vec<String>)
    ensures
        str_views(r@) == spec_match_words(text@),
{
    let chars = chars_of(text);
    let lowered = lower_all(&chars);
    let segs = split_non_alnum(&lowered);
    let words = keep_nonempty(segs);
    let mut r: Vec<String> = Vec::new();
    let mut i: usize = 0;
    proof {
        assert(str_views(r@) =~= seg_views(words@).take(0));
    }
    while i < words.len()
        invariant
            i <= words@.len(),
            seg_views(words@) == spec_match_words(text@),
            str_views(r@) == seg_views(words@).take(i as int),
        decreases words@.len() - i,
    {
        let ghost old_r = r@;
        r.push(chars_to_string(&words[i]));
        proof {
            assert(seg_views(words@).len() == words@.len());
            assert(str_views(old_r).len() == old_r.len());
            assert(old_r.len() == i);
            assert(r@.len() == i + 1);
            assert forall|c: int|
                0 <= c < i implies #[trigger] str_views(r@)[c] == str_views(old_r)[c] by {
                assert(str_views(r@)[c] == (r@[c])@);
                assert(r@[c] == old_r[c]);
                assert(str_views(old_r)[c] == (old_r[c])@);
            }
            assert(str_views(r@) =~= seg_views(words@).take(i + 1 as int));
        }
        i += 1;
    }
    proof {
        assert(seg_views(words@).take(words@.len() as int) =~= seg_views(words@));
    }
    r
}

/// Why a decimal number failed to parse.
#[derive(Debug, PartialEq, Eq, Structural, Clone, Copy)]
pub enum NumError {
    /// The input was empty.
    Empty,
    /// A character that is not a decimal digit was found.
    InvalidDigit,
    /// The value exceeds the largest representable number.
    PosOverflow,
    /// The value is below the smallest representable number.
    NegOverflow,
}

impl NumError {
    /// The user-visible description of the failure.
    pub fn message(&self) -> (m: &'static str)
        ensures
            m@ == match self {
                NumError::Empty => "cannot parse integer from empty string"@,
                NumError::InvalidDigit => "invalid digit found in string"@,
                NumError::PosOverflow => "number too large to fit in target type"@,
                NumError::NegOverflow => "number too small to fit in target type"@,
            },
    {
        match self {
            NumError::Empty => "cannot parse integer from empty string",
            NumError::InvalidDigit => "invalid digit found in string",
            NumError::PosOverflow => "number too large to fit in target type",
            NumError::NegOverflow => "number too small to fit in target type",
        }
    }
}

/// A decimal digit.
pub open spec fn is_digit(c: char) -> bool {
    '0' <= c && c <= '9'
}

/// The value of a decimal digit.
pub open spec fn digit_val(c: char) -> int {
    c as int - '0' as int
}

/// Folds the digits of `s` into `acc` from the left, with the sign already
/// decided, stopping at the first non-digit or at the first step that
/// leaves the 64-bit signed range.
pub open spec fn spec_parse_digits(s: Seq<char>, acc: int, negative: bool) -> Result<int, NumError>
    decreases s.len(),
{
    if s.len() == 0 {
        Ok(acc)
    } else if !is_digit(s[0]) {
        Err(NumError::InvalidDigit)
    } else {
        let acc2 = if negative {
            acc * 10 - digit_val(s[0])
        } else {
            acc * 10 + digit_val(s[0])
        };
        if acc2 > i64::MAX {
            Err(NumError::PosOverflow)
        } else if acc2 < i64::MIN {
            Err(NumError::NegOverflow)
        } else {
            spec_parse_digits(s.skip(1), acc2, negative)
        }
    }
}

/// The meaning of a decimal string: an optional sign followed by at least
/// one digit, scanned left to right, with the first offending character or
/// the first out-of-range step reported as the error.
pub open spec fn spec_parse_i64(s: Seq<char>) -> Result<int, NumError> {
    if s.len() == 0 {
        Err(NumError::Empty)
    } else if s[0] == '-' {
        if s.len() == 1 {
            Err(NumError::InvalidDigit)
        } else {
            spec_parse_digits(s.skip(1), 0, true)
        }
    } else if s[0] == '+' {
        if s.len() == 1 {
            Err(NumError::InvalidDigit)
        } else {
            spec_parse_digits(s.skip(1), 0, false)
        }
    } else {
        spec_parse_digits(s, 0, false)
    }
}

/// Parses `v` as a signed 64-bit decimal number, exactly as
/// `spec_parse_i64` describes.
pub fn parse_i64(v: &Vec<char>) -> (r: Result<i64, NumError>)
    ensures
        match r {
            Ok(n) => spec_parse_i64(v@) == Ok::<int, NumError>(n as int),
            Err(e) => spec_parse_i64(v@) == Err::<int, NumError>(e),
        },
{
    if v.len() == 0 {
        return Err(NumError::Empty);
    }
    let first = v[0];
    let negative: bool = first == '-';
    let start: usize = if first == '-' || first == '+' {
        if v.len() == 1 {
            return Err(NumError::InvalidDigit);
        }
        1
    } else {
        0
    };
    assert(v@.skip(0) =~= v@);
    assert(spec_parse_i64(v@) == spec_parse_digits(v@.skip(start as int), 0, negative));
    let mut acc: i128 = 0;
    let mut i: usize = start;
    while i < v.len()
        invariant
            start <= i <= v@.len(),
            i64::MIN <= acc <= i64::MAX,
            spec_parse_i64(v@) == spec_parse_digits(v@.skip(i as int), acc as int, negative),
        decreases v@.len() - i,
    {
        let c = v[i];
        assert(v@.skip(i as int)[0] == c);
        if !('0' <= c && c <= '9') {
            return Err(NumError::InvalidDigit);
        }
        let d = (c as u32 - 48) as i128;
        assert(d == digit_val(c));
        let acc2: i128 = if negative {
            acc * 10 - d
        } else {
            acc * 10 + d
        };
        if acc2 > i64::MAX as i128 {
            return Err(NumError::PosOverflow);
        }
        if acc2 < i64::MIN as i128 {
            return Err(NumError::NegOverflow);
        }
        acc = acc2;
        i += 1;
        assert(v@.skip(i - 1 as int).skip(1) =~= v@.skip(i as int));
    }
    assert(v@.skip(i as int).len() == 0);
    Ok(acc as i64)
}

/// `s` with leading ASCII whitespace removed.
pub open spec fn trim_left(s: Seq<char>) -> Seq<char>
    decreases s.len(),
{
    if s.len() > 0 && is_space(s[0]) {
        trim_left(s.skip(1))
    } else {
        s
    }
}

/// `s` with trailing ASCII whitespace removed.
pub open spec fn trim_right(s: Seq<char>) -> Seq<char>
    decreases s.len(),
{
    if s.len() > 0 && is_space(s.last()) {
        trim_right(s.drop_last())
    } else {
        s
    }
}

/// `s` with ASCII whitespace removed from both ends.
pub open spec fn trim_spaces(s: Seq<char>) -> Seq<char> {
    trim_right(trim_left(s))
}

/// A copy of `v[from..to]`.
pub fn subvec(v: &Vec<char>, from: usize, to: usize) -> (r: Vec<char>)
    requires
        from <= to <= v@.len(),
    ensures
        r@ == v@.subrange(from as int, to as int),
{
    let mut r: Vec<char> = Vec::new();
    let mut i: usize = from;
    while i < to
        invariant
            from <= i <= to <= v@.len(),
            r@ == v@.subrange(from as int, i as int),
        decreases to - i,
    {
        r.push(v[i]);
        i += 1;
        assert(r@ =~= v@.subrange(from as int, i as int));
    }
    r
}

/// A copy of `v` with ASCII whitespace removed from both ends.
pub fn trim(v: &Vec<char>) -> (r: Vec<char>)
    ensures
        r@ == trim_spaces(v@),
{
    let mut a: usize = 0;
    assert(v@.skip(0) =~= v@);
    while a < v.len() && space_char(v[a])
        invariant
            a <= v@.len(),
            trim_left(v@) == trim_left(v@.skip(a as int)),
        decreases v@.len() - a,
    {
        assert(v@.skip(a as int).skip(1) =~= v@.skip(a + 1 as int));
        a += 1;
    }
    assert(trim_left(v@) == v@.subrange(a as int, v@.len() as int)) by {
        assert(v@.skip(a as int) =~= v@.subrange(a as int, v@.len() as int));
    }
    let mut b: usize = v.len();
    while b > a && space_char(v[b - 1])
        invariant
            a <= b <= v@.len(),
            trim_right(v@.subrange(a as int, v@.len() as int)) == trim_right(
                v@.subrange(a as int, b as int),
            ),
        decreases b,
    {
        assert(v@.subrange(a as int, b as int).drop_last() =~= v@.subrange(a as int, b - 1 as int));
        b -= 1;
    }
    assert(trim_spaces(v@) == v@.subrange(a as int, b as int));
    subvec(v, a, b)
}

/// `s` with every ASCII whitespace character removed.
pub open spec fn strip_spaces(s: Seq<char>) -> Seq<char> {
    s.filter(|c: char| !is_space(c))
}

/// A copy of `v` with every ASCII whitespace character removed.
pub fn remove_spaces(v: &Vec<char>) -> (r: Vec<char>)
    ensures
        r@ == strip_spaces(v@),
{
    let ghost pred = |c: char| !is_space(c);
    let mut r: Vec<char> = Vec::new();
    let mut i: usize = 0;
    proof {
        reveal(Seq::filter);
        assert(r@ =~= v@.subrange(0, 0).filter(pred));
    }
    while i < v.len()
        invariant
            i <= v@.len(),
            r@ == v@.subrange(0, i as int).filter(|c: char| !is_space(c)),
        decreases v@.len() - i,
    {
        proof {
            reveal(Seq::filter);
            assert(v@.subrange(0, i + 1 as int).drop_last() =~= v@.subrange(0, i as int));
            assert(v@.subrange(0, i + 1 as int).last() == v@[i as int]);
        }
        let c = v[i];
        if !space_char(c) {
            r.push(c);
        }
        i += 1;
    }
    proof {
        assert(v@.subrange(0, v@.len() as int) =~= v@);
    }
    r
}

/// The segments of `s` between the characters selected by `f`. A selected
/// character at either end, or two adjacent ones, yield an empty segment,
/// so there is always exactly one segment more than separators.
pub open spec fn split_by(s: Seq<char>, f: spec_fn(char) -> bool) -> Seq<Seq<char>>
    decreases s.len(),
{
    if s.len() == 0 {
        seq![Seq::<char>::empty()]
    } else if f(s[0]) {
        seq![Seq::<char>::empty()] + split_by(s.skip(1), f)
    } else {
        let rest = split_by(s.skip(1), f);
        seq![seq![s[0]] + rest[0]] + rest.skip(1)
    }
}

pub proof fn lemma_split_by_len(s: Seq<char>, f: spec_fn(char) -> bool)
    ensures
        split_by(s, f).len() >= 1,
    decreases s.len(),
{
    if s.len() == 0 {
    } else if f(s[0]) {
    } else {
        lemma_split_by_len(s.skip(1), f);
    }
}

/// The views of a sequence of character vectors.
pub open spec fn seg_views(r: Seq<Vec<char>>) -> Seq<Seq<char>> {
    r.map_values(|x: Vec<char>| x@)
}

/// The views of a sequence of strings.
pub open spec fn str_views(ts: Seq<String>) -> Seq<Seq<char>> {
    ts.map_values(|t: String| t@)
}

/// `ss` with `c` prepended to its first segment.
pub open spec fn join_first(c: Seq<char>, ss: Seq<Seq<char>>) -> Seq<Seq<char>> {
    seq![c + ss[0]] + ss.skip(1)
}

/// Splits `v` at every character the test `f` selects; `f` must behave as
/// the ghost predicate `p` on every character.
fn split_pred<F: Fn(char) -> bool>(
    v: &Vec<char>,
    f: F,
    Ghost(p): Ghost<spec_fn(char) -> bool>,
) -> (r: Vec<Vec<char>>)
    requires
        forall|c: char| #[trigger] f.requires((c,)),
        forall|c: char, b: bool| #[trigger] f.ensures((c,), b) ==> b == p(c),
    ensures
        seg_views(r@) == split_by(v@, p),
{
    let mut fields: Vec<Vec<char>> = Vec::new();
    let mut cur: Vec<char> = Vec::new();
    let mut i: usize = 0;
    assert(v@.skip(0) =~= v@);
    assert(seg_views(fields@) =~= Seq::<Seq<char>>::empty());
    assert(split_by(v@, p) =~= seg_views(fields@) + join_first(cur@, split_by(v@.skip(0), p)))
        by {
        lemma_split_by_len(v@, p);
        assert(join_first(Seq::<char>::empty(), split_by(v@, p)) =~~= split_by(v@, p));
    }
    while i < v.len()
        invariant
            forall|c: char| #[trigger] f.requires((c,)),
            forall|c: char, b: bool| #[trigger] f.ensures((c,), b) ==> b == p(c),
            i <= v@.len(),
            split_by(v@, p) == seg_views(fields@) + join_first(
                cur@,
                split_by(v@.skip(i as int), p),
            ),
        decreases v@.len() - i,
    {
        let ghost suffix = v@.skip(i as int);
        let ghost suffix2 = v@.skip(i + 1 as int);
        proof {
            assert(suffix[0] == v@[i as int]);
            assert(suffix.skip(1) =~= suffix2);
            lemma_split_by_len(suffix2, p);
        }
        let c = v[i];
        if f(c) {
            proof {
                assert(split_by(suffix, p) == seq![Seq::<char>::empty()] + split_by(suffix2, p));
                assert(join_first(cur@, split_by(suffix, p)) =~~= seq![cur@] + join_first(
                    Seq::<char>::empty(),
                    split_by(suffix2, p),
                ));
            }
            let ghost old_fields = fields@;
            let ghost old_cur = cur@;
            fields.push(cur);
            cur = Vec::new();
            proof {
                assert(seg_views(fields@) =~= seg_views(old_fields).push(old_cur));
                assert(seg_views(old_fields) + join_first(old_cur, split_by(suffix, p)) =~~=
                    seg_views(fields@) + join_first(cur@, split_by(suffix2, p)));
            }
        } else {
            proof {
                assert(split_by(suffix, p) == join_first(seq![suffix[0]], split_by(suffix2, p)));
                assert(join_first(cur@, join_first(seq![c], split_by(suffix2, p))) =~~= join_first(
                    cur@.push(c),
                    split_by(suffix2, p),
                ));
            }
            cur.push(c);
        }
        i += 1;
    }
    proof {
        assert(v@.skip(v@.len() as int) =~= Seq::<char>::empty());
        assert(split_by(Seq::<char>::empty(), p) == seq![Seq::<char>::empty()]);
        assert(join_first(cur@, seq![Seq::<char>::empty()]) =~~= seq![cur@]);
    }
    let ghost old_fields = fields@;
    let ghost last_cur = cur@;
    fields.push(cur);
    proof {
        assert(seg_views(fields@) =~= seg_views(old_fields).push(last_cur));
        assert(seg_views(fields@) =~= split_by(v@, p));
    }
    fields
}

/// Splits `v` at every `'~'`.
pub fn split_tilde(v: &Vec<char>) -> (r: Vec<Vec<char>>)
    ensures
        seg_views(r@) == split_by(v@, |c: char| c == '~'),
{
    split_pred(
        v,
        (|c: char| -> (b: bool)
            ensures
                b == (c == '~'),
            { c == '~' }),
        Ghost(|c: char| c == '~'),
    )
}

/// Splits `v` at every ASCII whitespace character.
pub fn split_spaces(v: &Vec<char>) -> (r: Vec<Vec<char>>)
    ensures
        seg_views(r@) == split_by(v@, |c: char| is_space(c)),
{
    split_pred(
        v,
        (|c: char| -> (b: bool)
            ensures
                b == is_space(c),
            { space_char(c) }),
        Ghost(|c: char| is_space(c)),
    )
}

/// Splits `v` at every character that is not ASCII alphanumeric.
pub fn split_non_alnum(v: &Vec<char>) -> (r: Vec<Vec<char>>)
    ensures
        seg_views(r@) == split_by(v@, |c: char| !is_alnum(c)),
{
    split_pred(
        v,
        (|c: char| -> (b: bool)
            ensures
                b == !is_alnum(c),
            { !alnum_char(c) }),
        Ghost(|c: char| !is_alnum(c)),
    )
}

/// The non-empty segments of `ss`, in order.
pub fn keep_nonempty(ss: Vec<Vec<char>>) -> (r: Vec<Vec<char>>)
    ensures
        seg_views(r@) == seg_views(ss@).filter(|w: Seq<char>| w.len() > 0),
{
    let ghost pred = |w: Seq<char>| w.len() > 0;
    let mut r: Vec<Vec<char>> = Vec::new();
    let mut i: usize = 0;
    proof {
        reveal(Seq::filter);
        assert(seg_views(ss@.subrange(0, 0)) =~= Seq::<Seq<char>>::empty());
        assert(seg_views(r@) =~= seg_views(ss@.subrange(0, 0)).filter(pred));
    }
    while i < ss.len()
        invariant
            i <= ss@.len(),
            seg_views(r@) == seg_views(ss@.subrange(0, i as int)).filter(
                |w: Seq<char>| w.len() > 0,
            ),
        decreases ss@.len() - i,
    {
        proof {
            reveal(Seq::filter);
            assert(seg_views(ss@.subrange(0, i + 1 as int)).drop_last() =~= seg_views(
                ss@.subrange(0, i as int),
            ));
            assert(seg_views(ss@.subrange(0, i + 1 as int)).last() == ss@[i as int]@);
        }
        let keep = ss[i].len() > 0;
        if keep {
            let ghost old_r = r@;
            let w = subvec(&ss[i], 0, ss[i].len());
            proof {
                assert(w@ =~= ss@[i as int]@);
            }
            r.push(w);
            proof {
                assert(seg_views(r@) =~= seg_views(old_r).push(ss@[i as int]@));
            }
        }
        i += 1;
    }
    proof {
        assert(ss@.subrange(0, ss@.len() as int) =~= ss@);
    }
    r
}

} // verus!
