//! Line-protocol codec.
//!
//! A device report is one ASCII text line:
//!
//! ```text
//! Socket <number>W State: <on|off>
//! Termometer <number>C State: <on|off>
//! ```
//!
//! The label is case-sensitive and is followed by one or more whitespace
//! characters.  `<number>` is one or more digits, optionally followed by
//! dot-groups (a dot and one or more digits); the unit letter follows the
//! number with no space.  Then whitespace, the literal `State:`, whitespace,
//! and the `on` or `off` token.  The match is a prefix match: trailing
//! characters after the token are ignored.  A number whose shape matches but
//! that is not a plain decimal (more than one dot-group, or more digits than
//! a [`Decimal`] holds) fails the whole message with [`ParseError::BadNumber`].
//!
//! The grammar is specified by `spec_scan`/`spec_parse_message` over the
//! character sequence, and the executable parser is proved to return exactly
//! what the specification says, for every input.

use vstd::prelude::*;

use crate::decimal::{pow10, pow10_u64, Decimal, MAX_DIGITS};
use crate::decimal::{lemma_pow10_adds, lemma_pow10_max_digits, lemma_pow10_mono, lemma_pow10_pos};

verus! {

use vstd::string::StringExecFns;

/// Why a message failed to parse as a given report kind.
#[derive(Clone, Copy, Debug, PartialEq, Eq, Structural)]
pub enum ParseError {
    /// The text does not have the shape of this report kind.
    WrongShape,
    /// The shape matched, but the numeric field is not a usable decimal.
    BadNumber,
}

// ---------------------------------------------------------------------------
// Character classes
// ---------------------------------------------------------------------------

/// ASCII whitespace, as the label/number/keyword separators admit it.
pub open spec fn is_space(c: char) -> bool {
    c == ' ' || c == '\t' || c == '\n' || c == '\r' || c == '\u{b}' || c == '\u{c}'
}

/// ASCII decimal digit.
pub open spec fn is_digit(c: char) -> bool {
    48 <= c as u32 && c as u32 <= 57
}

/// Numeric value of a digit character.
pub open spec fn digit_val(c: char) -> nat {
    (c as u32 - 48) as nat
}

fn is_space_char(c: char) -> (r: bool)
    ensures
        r == is_space(c),
{
    c == ' ' || c == '\t' || c == '\n' || c == '\r' || c == '\u{b}' || c == '\u{c}'
}

fn is_digit_char(c: char) -> (r: bool)
    ensures
        r == is_digit(c),
{
    let u = c as u32;
    48 <= u && u <= 57
}

// ---------------------------------------------------------------------------
// Cursors: whitespace runs and number spans
// ---------------------------------------------------------------------------

/// First position at or after `i` that does not hold whitespace.
pub open spec fn spec_skip_ws(s: Seq<char>, i: int) -> int
    decreases s.len() - i,
{
    if 0 <= i < s.len() && is_space(s[i]) {
        spec_skip_ws(s, i + 1)
    } else {
        i
    }
}

/// End of the number span starting at `i`: digits, then dot-groups, each a
/// dot followed by at least one digit, taken as far as they reach.
pub open spec fn spec_number_end(s: Seq<char>, i: int) -> int
    decreases s.len() - i,
{
    if 0 <= i < s.len() && is_digit(s[i]) {
        spec_number_end(s, i + 1)
    } else if 0 <= i && i + 1 < s.len() && s[i] == '.' && is_digit(s[i + 1]) {
        spec_number_end(s, i + 2)
    } else {
        i
    }
}

/// `pat` occurs in `s` at position `at`.
pub open spec fn spec_match_at(s: Seq<char>, at: int, pat: Seq<char>) -> bool {
    0 <= at && at + pat.len() <= s.len() && s.subrange(at, at + pat.len()) == pat
}

pub fn skip_ws(s: &str, from: usize) -> (r: usize)
    requires
        from <= s@.len(),
    ensures
        r == spec_skip_ws(s@, from as int),
        from <= r <= s@.len(),
{
    let n = s.unicode_len();
    let mut i: usize = from;
    loop
        invariant
            from <= i <= n,
            n == s@.len(),
            spec_skip_ws(s@, from as int) == spec_skip_ws(s@, i as int),
        ensures
            from <= i <= n,
            spec_skip_ws(s@, from as int) == i,
        decreases n - i,
    {
        if i >= n {
            break ;
        }
        let c = s.get_char(i);
        if !is_space_char(c) {
            break ;
        }
        i = i + 1;
    }
    i
}

pub fn number_end(s: &str, from: usize) -> (r: usize)
    requires
        from <= s@.len(),
    ensures
        r == spec_number_end(s@, from as int),
        from <= r <= s@.len(),
{
    let n = s.unicode_len();
    let mut i: usize = from;
    loop
        invariant
            from <= i <= n,
            n == s@.len(),
            spec_number_end(s@, from as int) == spec_number_end(s@, i as int),
        ensures
            from <= i <= n,
            spec_number_end(s@, from as int) == i,
        decreases n - i,
    {
        if i >= n {
            break ;
        }
        let c = s.get_char(i);
        if is_digit_char(c) {
            i = i + 1;
        } else if c == '.' && i + 1 < n && is_digit_char(s.get_char(i + 1)) {
            i = i + 2;
        } else {
            break ;
        }
    }
    i
}

pub fn match_at(s: &str, at: usize, pat: &str) -> (r: bool)
    ensures
        r == spec_match_at(s@, at as int, pat@),
{
    let n = s.unicode_len();
    let m = pat.unicode_len();
    if at > n || m > n - at {
        return false;
    }
    let mut j: usize = 0;
    while j < m
        invariant
            0 <= j <= m,
            at + m <= n,
            n == s@.len(),
            m == pat@.len(),
            forall|k: int| 0 <= k < j ==> s@[at + k] == pat@[k],
        decreases m - j,
    {
        if s.get_char(at + j) != pat.get_char(j) {
            proof {
                assert(s@.subrange(at as int, at + pat@.len())[j as int] == s@[at + j]);
            }
            return false;
        }
        j = j + 1;
    }
    proof {
        assert(s@.subrange(at as int, at + pat@.len()) =~= pat@);
    }
    true
}

// ---------------------------------------------------------------------------
// Number tokens and their values
// ---------------------------------------------------------------------------

/// A number span as the scanner delimits it: starts with a digit, every
/// character is a digit or a dot, and every dot is followed by a digit.
pub open spec fn is_number_token(t: Seq<char>) -> bool {
    &&& t.len() > 0
    &&& is_digit(t[0])
    &&& forall|k: int| 0 <= k < t.len() ==> is_digit(#[trigger] t[k]) || t[k] == '.'
    &&& forall|k: int| 0 <= k < t.len() && #[trigger] t[k] == '.' ==> k + 1 < t.len() && is_digit(
        t[k + 1],
    )
}

/// Value of a digit-only sequence, most significant digit first.
pub open spec fn digits_val(t: Seq<char>) -> nat
    decreases t.len(),
{
    if t.len() == 0 {
        0
    } else {
        digits_val(t.drop_last()) * 10 + digit_val(t.last())
    }
}

/// How many dots the sequence holds.
pub open spec fn count_dots(t: Seq<char>) -> nat
    decreases t.len(),
{
    if t.len() == 0 {
        0
    } else {
        count_dots(t.drop_last()) + if t.last() == '.' {
            1nat
        } else {
            0nat
        }
    }
}

/// First dot at or after `i`, or `t.len()` if there is none.
pub open spec fn find_dot(t: Seq<char>, i: int) -> int
    decreases t.len() - i,
{
    if 0 <= i < t.len() {
        if t[i] == '.' {
            i
        } else {
            find_dot(t, i + 1)
        }
    } else {
        t.len() as int
    }
}

/// The shape matched, but is the number a plain decimal that fits?
pub open spec fn spec_number_ok(t: Seq<char>) -> bool {
    count_dots(t) <= 1 && t.len() - count_dots(t) <= MAX_DIGITS
}

/// Mantissa of the token: its digits with the dot removed.
pub open spec fn token_mantissa(t: Seq<char>) -> nat {
    let d = find_dot(t, 0);
    if d == t.len() {
        digits_val(t)
    } else {
        digits_val(t.subrange(0, d) + t.subrange(d + 1, t.len() as int))
    }
}

/// Scale of the token: how many digits stand after the dot.
pub open spec fn token_scale(t: Seq<char>) -> nat {
    let d = find_dot(t, 0);
    if d == t.len() {
        0
    } else {
        (t.len() - d - 1) as nat
    }
}

pub proof fn lemma_digits_val_bound(t: Seq<char>)
    requires
        forall|k: int| 0 <= k < t.len() ==> is_digit(t[k]),
    ensures
        digits_val(t) < pow10(t.len() as nat),
    decreases t.len(),
{
    if t.len() > 0 {
        lemma_digits_val_bound(t.drop_last());
        assert(is_digit(t.last()));
        assert(digit_val(t.last()) <= 9);
    }
}

pub proof fn lemma_digits_val_concat(a: Seq<char>, b: Seq<char>)
    ensures
        digits_val(a + b) == digits_val(a) * pow10(b.len() as nat) + digits_val(b),
    decreases b.len(),
{
    if b.len() == 0 {
        assert(a + b =~= a);
        assert(pow10(0) == 1);
        assert(digits_val(b) == 0);
        assert(digits_val(a) * 1 == digits_val(a)) by (nonlinear_arith);
    } else {
        lemma_digits_val_concat(a, b.drop_last());
        assert((a + b).drop_last() =~= a + b.drop_last());
        assert((a + b).last() == b.last());
        let va = digits_val(a);
        let p = pow10((b.len() - 1) as nat);
        assert(pow10(b.len() as nat) == 10 * p);
        assert(digits_val(a + b) == (va * p + digits_val(b.drop_last())) * 10 + digit_val(
            b.last(),
        ));
        assert((va * p + digits_val(b.drop_last())) * 10 == va * p * 10 + digits_val(
            b.drop_last(),
        ) * 10) by (nonlinear_arith);
        assert(va * p * 10 == va * (10 * p)) by (nonlinear_arith);
        assert(digits_val(b) == digits_val(b.drop_last()) * 10 + digit_val(b.last()));
        assert(digits_val(a + b) == va * (10 * p) + digits_val(b.drop_last()) * 10 + digit_val(
            b.last(),
        ));
        assert(digits_val(a + b) == va * pow10(b.len() as nat) + digits_val(b));
    }
}

pub proof fn lemma_count_dots_split(t: Seq<char>, j: int)
    requires
        0 <= j <= t.len(),
    ensures
        count_dots(t) == count_dots(t.subrange(0, j)) + count_dots(
            t.subrange(j, t.len() as int),
        ),
    decreases t.len(),
{
    if j == t.len() {
        assert(t.subrange(0, j) =~= t);
        assert(count_dots(t.subrange(j, t.len() as int)) == 0);
    } else {
        lemma_count_dots_split(t.drop_last(), j);
        assert(t.drop_last().subrange(0, j) =~= t.subrange(0, j));
        assert(t.drop_last().subrange(j, t.len() - 1) =~= t.subrange(j, t.len() as int).drop_last());
        assert(t.subrange(j, t.len() as int).last() == t.last());
    }
}

pub proof fn lemma_dot_gives_count(t: Seq<char>, k: int)
    requires
        0 <= k < t.len(),
        t[k] == '.',
    ensures
        count_dots(t) >= 1,
    decreases t.len(),
{
    if k < t.len() - 1 {
        lemma_dot_gives_count(t.drop_last(), k);
    }
}

/// Two distinct dot positions mean at least two dots.
pub proof fn lemma_two_dots(t: Seq<char>, k1: int, k2: int)
    requires
        0 <= k1 < k2 < t.len(),
        t[k1] == '.',
        t[k2] == '.',
    ensures
        count_dots(t) >= 2,
{
    lemma_count_dots_split(t, k2);
    lemma_dot_gives_count(t.subrange(0, k2), k1);
    lemma_dot_gives_count(t.subrange(k2, t.len() as int), 0);
}

pub proof fn lemma_find_dot_char(t: Seq<char>, i: int, d: int)
    requires
        0 <= i <= d <= t.len(),
        forall|k: int| i <= k < d ==> t[k] != '.',
        d < t.len() ==> t[d] == '.',
    ensures
        find_dot(t, i) == d,
    decreases d - i,
{
    if i < d {
        lemma_find_dot_char(t, i + 1, d);
    }
}

/// The span `spec_number_end` delimits holds only digits and well-placed dots.
pub proof fn lemma_number_end_props(s: Seq<char>, i: int)
    requires
        0 <= i <= s.len(),
    ensures
        ({
            let b = spec_number_end(s, i);
            &&& i <= b <= s.len()
            &&& forall|k: int| i <= k < b ==> is_digit(#[trigger] s[k]) || s[k] == '.'
            &&& forall|k: int| i <= k < b && #[trigger] s[k] == '.' ==> k + 1 < b && is_digit(
                s[k + 1],
            )
        }),
    decreases s.len() - i,
{
    if i < s.len() && is_digit(s[i]) {
        lemma_number_end_props(s, i + 1);
    } else if i + 1 < s.len() && s[i] == '.' && is_digit(s[i + 1]) {
        lemma_number_end_props(s, i + 2);
    }
}

/// The scanner's number span is a number token.
pub proof fn lemma_token_shape(s: Seq<char>, i: int)
    requires
        0 <= i < s.len(),
        is_digit(s[i]),
    ensures
        ({
            let b = spec_number_end(s, i);
            i < b <= s.len() && is_number_token(s.subrange(i, b))
        }),
{
    lemma_number_end_props(s, i);
    lemma_number_end_props(s, i + 1);
    let b = spec_number_end(s, i);
    assert(b == spec_number_end(s, i + 1));
    let t = s.subrange(i, b);
    assert(t[0] == s[i]);
    assert forall|k: int| 0 <= k < t.len() implies is_digit(t[k]) || t[k] == '.' by {
        assert(t[k] == s[i + k]);
    }
    assert forall|k: int| 0 <= k < t.len() && #[trigger] t[k] == '.' implies k + 1 < t.len()
        && is_digit(t[k + 1]) by {
        assert(t[k] == s[i + k]);
        assert(i + k + 1 < b && is_digit(s[i + k + 1]));
        assert(t[k + 1] == s[i + k + 1]);
    }
}

/// Value of a digit-only range of `t`, as a machine integer.
fn digits_to_u64(t: &str, from: usize, to: usize) -> (r: u64)
    requires
        from <= to <= t@.len(),
        to - from <= MAX_DIGITS,
        forall|k: int| from <= k < to ==> is_digit(#[trigger] t@[k]),
    ensures
        r == digits_val(t@.subrange(from as int, to as int)),
        r < pow10((to - from) as nat),
{
    let mut j: usize = from;
    let mut acc: u64 = 0;
    proof {
        assert(t@.subrange(from as int, from as int) =~= Seq::<char>::empty());
    }
    while j < to
        invariant
            from <= j <= to <= t@.len(),
            to - from <= MAX_DIGITS,
            forall|k: int| from <= k < to ==> is_digit(#[trigger] t@[k]),
            acc == digits_val(t@.subrange(from as int, j as int)),
            acc < pow10((j - from) as nat),
        decreases to - j,
    {
        let c = t.get_char(j);
        let d = (c as u32 - 48) as u64;
        proof {
            assert(is_digit(t@[j as int]));
            assert(d == digit_val(t@[j as int]));
            assert(t@.subrange(from as int, j + 1).drop_last() =~= t@.subrange(
                from as int,
                j as int,
            ));
            assert(t@.subrange(from as int, j + 1).last() == t@[j as int]);
            lemma_pow10_mono((j + 1 - from) as nat, MAX_DIGITS as nat);
            lemma_pow10_max_digits();
        }
        acc = acc * 10 + d;
        j = j + 1;
    }
    acc
}

/// What the numeric field of a shape-matched message denotes: its exact
/// decimal value, or `BadNumber` if it is not a plain decimal that fits.
pub open spec fn spec_token_value(t: Seq<char>) -> Result<Decimal, ParseError> {
    if spec_number_ok(t) {
        Ok(
            (Decimal {
                mantissa: token_mantissa(t) as u64,
                scale: token_scale(t) as u32,
            }),
        )
    } else {
        Err(ParseError::BadNumber)
    }
}

/// Turn a scanned number token into its exact decimal value.
fn token_value(tok: &str) -> (r: Result<Decimal, ParseError>)
    requires
        is_number_token(tok@),
    ensures
        r == spec_token_value(tok@),
        r matches Ok(d) ==> d.wf() && d.scale < MAX_DIGITS,
{
    let n = tok.unicode_len();
    let mut j: usize = 0;
    let mut dots: usize = 0;
    let mut firstd: usize = n;
    proof {
        assert(tok@.subrange(0, 0) =~= Seq::<char>::empty());
    }
    while j < n
        invariant
            0 <= j <= n,
            n == tok@.len(),
            dots <= j,
            dots == count_dots(tok@.subrange(0, j as int)),
            dots == 0 ==> firstd == n && (forall|k: int| 0 <= k < j ==> #[trigger] tok@[k] != '.'),
            dots > 0 ==> firstd < j && tok@[firstd as int] == '.' && (forall|k: int|
                0 <= k < firstd ==> #[trigger] tok@[k] != '.'),
        decreases n - j,
    {
        let c = tok.get_char(j);
        proof {
            assert(tok@.subrange(0, j + 1).drop_last() =~= tok@.subrange(0, j as int));
            assert(tok@.subrange(0, j + 1).last() == tok@[j as int]);
        }
        if c == '.' {
            if dots == 0 {
                firstd = j;
            }
            dots = dots + 1;
        }
        j = j + 1;
    }
    proof {
        assert(tok@.subrange(0, n as int) =~= tok@);
        if dots == 0 {
            lemma_find_dot_char(tok@, 0, n as int);
        } else {
            lemma_find_dot_char(tok@, 0, firstd as int);
        }
    }
    if dots > 1 {
        return Err(ParseError::BadNumber);
    }
    if n - dots > (MAX_DIGITS as usize) {
        return Err(ParseError::BadNumber);
    }
    if dots == 0 {
        proof {
            assert forall|k: int| 0 <= k < n implies is_digit(#[trigger] tok@[k]) by {
                assert(tok@[k] != '.');
            }
            lemma_digits_val_bound(tok@);
            lemma_pow10_mono(n as nat, MAX_DIGITS as nat);
            lemma_pow10_max_digits();
            assert(tok@.subrange(0, n as int) =~= tok@);
        }
        let m = digits_to_u64(tok, 0, n);
        return Ok(Decimal { mantissa: m, scale: 0 });
    }
    // exactly one dot, at `firstd`
    let d = firstd;
    proof {
        assert(tok@[0] != '.');
        assert forall|k: int| d < k < n implies #[trigger] tok@[k] != '.' by {
            if tok@[k] == '.' {
                lemma_two_dots(tok@, d as int, k);
            }
        }
        assert forall|k: int| 0 <= k < d implies is_digit(#[trigger] tok@[k]) by {
            assert(tok@[k] != '.');
        }
        assert forall|k: int| d < k < n implies is_digit(#[trigger] tok@[k]) by {
            assert(tok@[k] != '.');
        }
    }
    let m1 = digits_to_u64(tok, 0, d);
    let f = n - d - 1;
    let m2 = digits_to_u64(tok, d + 1, n);
    let p = pow10_u64(f as u32);
    proof {
        let ghost ipart = tok@.subrange(0, d as int);
        let ghost fpart = tok@.subrange(d + 1, n as int);
        lemma_digits_val_concat(ipart, fpart);
        lemma_pow10_adds(d as nat, f as nat);
        lemma_pow10_mono((d + f) as nat, MAX_DIGITS as nat);
        lemma_pow10_max_digits();
        lemma_pow10_pos(f as nat);
        vstd::arithmetic::mul::lemma_mul_inequality(
            m1 as int,
            pow10(d as nat) - 1,
            pow10(f as nat) as int,
        );
        assert((pow10(d as nat) - 1) * pow10(f as nat) == pow10(d as nat) * pow10(f as nat) - 1
            * pow10(f as nat)) by (nonlinear_arith);
        assert(token_mantissa(tok@) == digits_val(ipart) * pow10(f as nat) + digits_val(fpart));
    }
    let mantissa = m1 * p + m2;
    Ok(Decimal { mantissa, scale: f as u32 })
}

// ---------------------------------------------------------------------------
// Whole messages
// ---------------------------------------------------------------------------

/// The literal `State:`.
pub open spec fn state_keyword() -> Seq<char> {
    seq!['S', 't', 'a', 't', 'e', ':']
}

/// The literal `on`.
pub open spec fn on_token() -> Seq<char> {
    seq!['o', 'n']
}

/// The literal `off`.
pub open spec fn off_token() -> Seq<char> {
    seq!['o', 'f', 'f']
}

/// Scan `s` against the message shape for the given label and unit letter.
/// On a match, yields the bounds of the number span and the state token's
/// value; anything after the `on`/`off` token is ignored.
pub open spec fn spec_scan(s: Seq<char>, label: Seq<char>, unit: char) -> Option<(int, int, bool)> {
    if !spec_match_at(s, 0, label) {
        None
    } else {
        let i1 = spec_skip_ws(s, label.len() as int);
        if i1 == label.len() || !(i1 < s.len() && is_digit(s[i1])) {
            None
        } else {
            let b = spec_number_end(s, i1);
            if !(b < s.len() && s[b] == unit) {
                None
            } else {
                let i2 = spec_skip_ws(s, b + 1);
                if i2 == b + 1 || !spec_match_at(s, i2, state_keyword()) {
                    None
                } else {
                    let i3 = spec_skip_ws(s, i2 + 6);
                    if i3 == i2 + 6 {
                        None
                    } else if spec_match_at(s, i3, on_token()) {
                        Some((i1, b, true))
                    } else if spec_match_at(s, i3, off_token()) {
                        Some((i1, b, false))
                    } else {
                        None
                    }
                }
            }
        }
    }
}

/// Everything the parser returns, stated over the character sequence.
pub open spec fn spec_parse_message(s: Seq<char>, label: Seq<char>, unit: char) -> Result<
    (Decimal, bool),
    ParseError,
> {
    match spec_scan(s, label, unit) {
        None => Err(ParseError::WrongShape),
        Some((a, b, st)) => match spec_token_value(s.subrange(a, b)) {
            Ok(d) => Ok((d, st)),
            Err(e) => Err(e),
        },
    }
}

/// Parse one report line of the given label and unit letter.
///
/// Returns exactly what [`spec_parse_message`] says: the number's exact
/// decimal value and the state token, `WrongShape` if the text does not
/// match the grammar, `BadNumber` if the numeric field is unusable.
pub fn parse_message(s: &str, label: &str, unit: char) -> (r: Result<(Decimal, bool), ParseError>)
    ensures
        r == spec_parse_message(s@, label@, unit),
        r matches Ok(v) ==> v.0.wf() && v.0.scale < MAX_DIGITS,
{
    let n = s.unicode_len();
    if !match_at(s, 0, label) {
        return Err(ParseError::WrongShape);
    }
    let llen = label.unicode_len();
    let i1 = skip_ws(s, llen);
    if i1 == llen {
        return Err(ParseError::WrongShape);
    }
    if i1 >= n {
        return Err(ParseError::WrongShape);
    }
    if !is_digit_char(s.get_char(i1)) {
        return Err(ParseError::WrongShape);
    }
    let b = number_end(s, i1);
    if b >= n {
        return Err(ParseError::WrongShape);
    }
    if s.get_char(b) != unit {
        return Err(ParseError::WrongShape);
    }
    let i2 = skip_ws(s, b + 1);
    if i2 == b + 1 {
        return Err(ParseError::WrongShape);
    }
    proof {
        reveal_strlit("State:");
        assert("State:"@ =~= state_keyword());
    }
    if !match_at(s, i2, "State:") {
        return Err(ParseError::WrongShape);
    }
    let i3 = skip_ws(s, i2 + 6);
    if i3 == i2 + 6 {
        return Err(ParseError::WrongShape);
    }
    proof {
        reveal_strlit("on");
        reveal_strlit("off");
        assert("on"@ =~= on_token());
        assert("off"@ =~= off_token());
    }
    let st: bool;
    if match_at(s, i3, "on") {
        st = true;
    } else if match_at(s, i3, "off") {
        st = false;
    } else {
        return Err(ParseError::WrongShape);
    }
    proof {
        lemma_token_shape(s@, i1 as int);
        assert(spec_scan(s@, label@, unit) == Some((i1 as int, b as int, st)));
    }
    let tok = s.substring_char(i1, b);
    match token_value(tok) {
        Ok(d) => Ok((d, st)),
        Err(e) => Err(e),
    }
}

// ---------------------------------------------------------------------------
// Round trip: a well-formed message parses back to its parts
// ---------------------------------------------------------------------------

/// Every character is whitespace.
pub open spec fn all_spaces(w: Seq<char>) -> bool {
    forall|k: int| 0 <= k < w.len() ==> is_space(#[trigger] w[k])
}

/// A message assembled from its parts: label, whitespace, number, unit
/// letter, whitespace, `State:`, whitespace, the state token, and anything
/// after it.
pub open spec fn spec_report_text(
    label: Seq<char>,
    unit: char,
    w1: Seq<char>,
    num: Seq<char>,
    w2: Seq<char>,
    w3: Seq<char>,
    on: bool,
    rest: Seq<char>,
) -> Seq<char> {
    label + w1 + num + seq![unit] + w2 + state_keyword() + w3 + (if on {
        on_token()
    } else {
        off_token()
    }) + rest
}

/// `spec_skip_ws` runs to the end of an all-whitespace region and stops.
pub proof fn lemma_skip_ws_run(s: Seq<char>, i: int, j: int)
    requires
        0 <= i <= j <= s.len(),
        forall|k: int| i <= k < j ==> is_space(#[trigger] s[k]),
        j < s.len() ==> !is_space(s[j]),
    ensures
        spec_skip_ws(s, i) == j,
    decreases j - i,
{
    if i < j {
        lemma_skip_ws_run(s, i + 1, j);
    }
}

/// `spec_number_end` runs to the end of a number-shaped region and stops
/// when the next character is neither a digit nor a dot.
pub proof fn lemma_number_end_run(s: Seq<char>, i: int, j: int)
    requires
        0 <= i <= j <= s.len(),
        forall|k: int| i <= k < j ==> is_digit(#[trigger] s[k]) || s[k] == '.',
        forall|k: int| i <= k < j && #[trigger] s[k] == '.' ==> k + 1 < j && is_digit(s[k + 1]),
        j < s.len(),
        !is_digit(s[j]),
        s[j] != '.',
    ensures
        spec_number_end(s, i) == j,
    decreases j - i,
{
    if i < j {
        if is_digit(s[i]) {
            lemma_number_end_run(s, i + 1, j);
        } else {
            assert(s[i] == '.');
            lemma_number_end_run(s, i + 2, j);
        }
    }
}

/// Parsing an assembled message finds exactly its number span and state:
/// the scan cannot latch onto anything else.
pub proof fn lemma_scan_round_trip(
    label: Seq<char>,
    unit: char,
    w1: Seq<char>,
    num: Seq<char>,
    w2: Seq<char>,
    w3: Seq<char>,
    on: bool,
    rest: Seq<char>,
)
    requires
        w1.len() > 0 && all_spaces(w1),
        w2.len() > 0 && all_spaces(w2),
        w3.len() > 0 && all_spaces(w3),
        is_number_token(num),
        !is_digit(unit) && unit != '.' && !is_space(unit),
    ensures
        ({
            let s = spec_report_text(label, unit, w1, num, w2, w3, on, rest);
            let a = label.len() + w1.len();
            spec_scan(s, label, unit) == Some((a as int, a + num.len() as int, on))
        }),
{
    let s = spec_report_text(label, unit, w1, num, w2, w3, on, rest);
    let llen = label.len() as int;
    let a = llen + w1.len();
    let b = a + num.len();
    let i2 = b + 1 + w2.len();
    let i3 = i2 + 6 + w3.len();
    let tok = if on {
        on_token()
    } else {
        off_token()
    };
    assert(s.len() == llen + w1.len() + num.len() + 1 + w2.len() + 6 + w3.len() + tok.len()
        + rest.len());
    // where each part stands in s
    assert(s.subrange(0, llen) =~= label);
    assert(s.subrange(llen, a) =~= w1);
    assert(s.subrange(a, b) =~= num);
    assert(s[b] == unit);
    assert(s.subrange(b + 1, b + 1 + w2.len()) =~= w2);
    assert(s.subrange(i2, i2 + 6) =~= state_keyword());
    assert(s.subrange(i2 + 6, i2 + 6 + w3.len()) =~= w3);
    assert(s.subrange(i3, i3 + tok.len()) =~= tok);
    // the label matches
    assert(spec_match_at(s, 0, label));
    // whitespace after the label runs exactly to the number
    assert forall|k: int| llen <= k < a implies is_space(#[trigger] s[k]) by {
        assert(s[k] == w1[k - llen]);
    }
    assert(s[a] == num[0]);
    assert(is_digit(s[a]));
    lemma_skip_ws_run(s, llen, a);
    // the number span runs exactly to the unit letter
    assert forall|k: int| a <= k < b implies is_digit(#[trigger] s[k]) || s[k] == '.' by {
        assert(s[k] == num[k - a]);
    }
    assert forall|k: int| a <= k < b && #[trigger] s[k] == '.' implies k + 1 < b && is_digit(
        s[k + 1],
    ) by {
        assert(s[k] == num[k - a]);
        assert(num[k - a] == '.');
        assert(k - a + 1 < num.len() && is_digit(num[k - a + 1]));
        assert(s[k + 1] == num[k - a + 1]);
    }
    lemma_number_end_run(s, a, b);
    // whitespace after the unit runs exactly to the keyword
    assert forall|k: int| b + 1 <= k < b + 1 + w2.len() implies is_space(#[trigger] s[k]) by {
        assert(s[k] == w2[k - (b + 1)]);
    }
    assert(s[i2] == state_keyword()[0]);
    assert(!is_space(s[i2]));
    lemma_skip_ws_run(s, b + 1, i2);
    assert(spec_match_at(s, i2, state_keyword()));
    // whitespace after the keyword runs exactly to the state token
    assert forall|k: int| i2 + 6 <= k < i3 implies is_space(#[trigger] s[k]) by {
        assert(s[k] == w3[k - (i2 + 6)]);
    }
    assert(s[i3] == tok[0]);
    assert(!is_space(s[i3]));
    lemma_skip_ws_run(s, i2 + 6, i3);
    if on {
        assert(spec_match_at(s, i3, on_token()));
    } else {
        assert(spec_match_at(s, i3, off_token()));
        // `on` does not match an `off` token
        assert(s[i3 + 1] == 'f');
        if spec_match_at(s, i3, on_token()) {
            assert(s.subrange(i3, i3 + 2)[1] == s[i3 + 1]);
            assert(s[i3 + 1] == 'n');
        }
    }
    assert(spec_scan(s, label, unit) == Some((a, b, on)));
}

/// Round trip for a whole message: assembling a message from a plain
/// decimal number token and a state and parsing it back yields exactly
/// that number's value and that state.
pub proof fn lemma_parse_round_trip(
    label: Seq<char>,
    unit: char,
    w1: Seq<char>,
    num: Seq<char>,
    w2: Seq<char>,
    w3: Seq<char>,
    on: bool,
    rest: Seq<char>,
)
    requires
        w1.len() > 0 && all_spaces(w1),
        w2.len() > 0 && all_spaces(w2),
        w3.len() > 0 && all_spaces(w3),
        is_number_token(num),
        spec_number_ok(num),
        !is_digit(unit) && unit != '.' && !is_space(unit),
    ensures
        spec_parse_message(spec_report_text(label, unit, w1, num, w2, w3, on, rest), label, unit)
            == Ok::<(Decimal, bool), ParseError>(
            (
                Decimal { mantissa: token_mantissa(num) as u64, scale: token_scale(num) as u32 },
                on,
            ),
        ),
{
    lemma_scan_round_trip(label, unit, w1, num, w2, w3, on, rest);
    let s = spec_report_text(label, unit, w1, num, w2, w3, on, rest);
    let a = label.len() + w1.len();
    assert(s.subrange(a as int, a + num.len() as int) =~= num);
}

// ---------------------------------------------------------------------------
// Printing numbers back to text
// ---------------------------------------------------------------------------

/// The digit character for a value below ten.
pub open spec fn digit_char(d: nat) -> char {
    if d == 0 {
        '0'
    } else if d == 1 {
        '1'
    } else if d == 2 {
        '2'
    } else if d == 3 {
        '3'
    } else if d == 4 {
        '4'
    } else if d == 5 {
        '5'
    } else if d == 6 {
        '6'
    } else if d == 7 {
        '7'
    } else if d == 8 {
        '8'
    } else {
        '9'
    }
}

/// Decimal digits of `n`, most significant first, no leading zeros.
pub open spec fn u64_chars(n: nat) -> Seq<char>
    decreases n,
{
    if n < 10 {
        seq![digit_char(n)]
    } else {
        u64_chars(n / 10).push(digit_char(n % 10))
    }
}

/// Exactly `w` decimal digits of `n`, leading zeros kept.
pub open spec fn padded_chars(n: nat, w: nat) -> Seq<char>
    decreases w,
{
    if w == 0 {
        Seq::empty()
    } else {
        padded_chars(n / 10, (w - 1) as nat).push(digit_char(n % 10))
    }
}

/// The wire text of a decimal value: its integer digits, and, when the
/// scale is not zero, a dot and exactly `scale` fraction digits.
pub open spec fn dec_chars(d: Decimal) -> Seq<char> {
    if d.scale == 0 {
        u64_chars(d.mantissa as nat)
    } else {
        u64_chars((d.mantissa as nat) / pow10(d.scale as nat)) + seq!['.'] + padded_chars(
            (d.mantissa as nat) % pow10(d.scale as nat),
            d.scale as nat,
        )
    }
}

fn digit_str(dg: u64) -> (r: &'static str)
    requires
        dg < 10,
    ensures
        r@ == seq![digit_char(dg as nat)],
{
    proof {
        reveal_strlit("0");
        reveal_strlit("1");
        reveal_strlit("2");
        reveal_strlit("3");
        reveal_strlit("4");
        reveal_strlit("5");
        reveal_strlit("6");
        reveal_strlit("7");
        reveal_strlit("8");
        reveal_strlit("9");
        assert("0"@ =~= seq!['0']);
        assert("1"@ =~= seq!['1']);
        assert("2"@ =~= seq!['2']);
        assert("3"@ =~= seq!['3']);
        assert("4"@ =~= seq!['4']);
        assert("5"@ =~= seq!['5']);
        assert("6"@ =~= seq!['6']);
        assert("7"@ =~= seq!['7']);
        assert("8"@ =~= seq!['8']);
        assert("9"@ =~= seq!['9']);
    }
    match dg {
        0 => "0",
        1 => "1",
        2 => "2",
        3 => "3",
        4 => "4",
        5 => "5",
        6 => "6",
        7 => "7",
        8 => "8",
        _ => "9",
    }
}

/// Append the digits of `n` to `out`.
pub fn push_u64_chars(out: &mut String, n: u64)
    ensures
        final(out)@ == old(out)@ + u64_chars(n as nat),
    decreases n,
{
    if n < 10 {
        out.append(digit_str(n));
    } else {
        push_u64_chars(out, n / 10);
        out.append(digit_str(n % 10));
        proof {
            assert(u64_chars(n as nat) =~= u64_chars((n as nat) / 10) + seq![digit_char(
                (n as nat) % 10,
            )]);
            assert(old(out)@ + u64_chars(n as nat) =~= old(out)@ + u64_chars((n as nat) / 10)
                + seq![digit_char((n as nat) % 10)]);
        }
    }
}

/// Append exactly `w` digits of `n` to `out`, leading zeros kept.
pub fn push_padded_chars(out: &mut String, n: u64, w: u32)
    ensures
        final(out)@ == old(out)@ + padded_chars(n as nat, w as nat),
    decreases w,
{
    if w > 0 {
        push_padded_chars(out, n / 10, w - 1);
        out.append(digit_str(n % 10));
        proof {
            assert(padded_chars(n as nat, w as nat) =~= padded_chars(
                (n as nat) / 10,
                (w - 1) as nat,
            ) + seq![digit_char((n as nat) % 10)]);
            assert(old(out)@ + padded_chars(n as nat, w as nat) =~= old(out)@ + padded_chars(
                (n as nat) / 10,
                (w - 1) as nat,
            ) + seq![digit_char((n as nat) % 10)]);
        }
    } else {
        proof {
            assert(old(out)@ + padded_chars(n as nat, 0) =~= old(out)@);
        }
    }
}

/// Append the wire text of a decimal value to `out`.
pub fn push_dec_chars(out: &mut String, d: Decimal)
    requires
        d.wf(),
    ensures
        final(out)@ == old(out)@ + dec_chars(d),
{
    if d.scale == 0 {
        push_u64_chars(out, d.mantissa);
    } else {
        proof {
            lemma_pow10_pos(d.scale as nat);
        }
        let p = pow10_u64(d.scale);
        push_u64_chars(out, d.mantissa / p);
        proof {
            reveal_strlit(".");
            assert("."@ =~= seq!['.']);
        }
        out.append(".");
        push_padded_chars(out, d.mantissa % p, d.scale);
        proof {
            assert(old(out)@ + dec_chars(d) =~= old(out)@ + u64_chars(
                (d.mantissa as nat) / pow10(d.scale as nat),
            ) + seq!['.'] + padded_chars(
                (d.mantissa as nat) % pow10(d.scale as nat),
                d.scale as nat,
            ));
        }
    }
}

// ---------------------------------------------------------------------------
// The printed number reads back as the same value
// ---------------------------------------------------------------------------

proof fn lemma_digit_char_val(d: nat)
    requires
        d < 10,
    ensures
        is_digit(digit_char(d)),
        digit_val(digit_char(d)) == d,
{
}

proof fn lemma_count_dots_zero(t: Seq<char>)
    requires
        forall|k: int| 0 <= k < t.len() ==> is_digit(#[trigger] t[k]),
    ensures
        count_dots(t) == 0,
    decreases t.len(),
{
    if t.len() > 0 {
        lemma_count_dots_zero(t.drop_last());
        assert(is_digit(t.last()));
    }
}

/// If `x < b * d` then `x / d < b`.
proof fn lemma_div_lt(x: nat, d: nat, b: nat)
    requires
        d > 0,
        x < b * d,
    ensures
        x / d < b,
{
    vstd::arithmetic::div_mod::lemma_fundamental_div_mod(x as int, d as int);
    vstd::arithmetic::div_mod::lemma_mod_bound(x as int, d as int);
    if x / d >= b {
        vstd::arithmetic::mul::lemma_mul_inequality(b as int, (x / d) as int, d as int);
        assert(b * d <= (x / d) * d);
        assert((d as int) * ((x as int) / (d as int)) == ((x as int) / (d as int)) * (d as int))
            by (nonlinear_arith);
    }
}

/// The digits of `n`: at least one, all digits, reading back as `n`.
proof fn lemma_u64_chars_props(n: nat)
    ensures
        u64_chars(n).len() >= 1,
        forall|k: int| 0 <= k < u64_chars(n).len() ==> is_digit(#[trigger] u64_chars(n)[k]),
        digits_val(u64_chars(n)) == n,
    decreases n,
{
    if n < 10 {
        lemma_digit_char_val(n);
        assert(u64_chars(n) =~= seq![digit_char(n)]);
        assert(u64_chars(n).drop_last() =~= Seq::<char>::empty());
        assert(digits_val(Seq::<char>::empty()) == 0);
        assert(u64_chars(n).last() == digit_char(n));
    } else {
        lemma_u64_chars_props(n / 10);
        lemma_digit_char_val(n % 10);
        vstd::arithmetic::div_mod::lemma_fundamental_div_mod(n as int, 10);
        let t = u64_chars(n);
        assert(t == u64_chars(n / 10).push(digit_char(n % 10)));
        assert(t.drop_last() =~= u64_chars(n / 10));
        assert(t.last() == digit_char(n % 10));
        assert forall|k: int| 0 <= k < t.len() implies is_digit(#[trigger] t[k]) by {
            if k < t.len() - 1 {
                assert(t[k] == u64_chars(n / 10)[k]);
            }
        }
    }
}

/// `n` below `10^k` prints in at most `k` digits.
proof fn lemma_u64_chars_len(n: nat, k: nat)
    requires
        n < pow10(k),
        k >= 1,
    ensures
        u64_chars(n).len() <= k,
    decreases n,
{
    if n < 10 {
    } else {
        lemma_pow10_pos((k - 1) as nat);
        if k == 1 {
            assert(pow10(1) == 10);
        }
        assert(k >= 2);
        assert(pow10(k) == 10 * pow10((k - 1) as nat));
        lemma_div_lt(n, 10, pow10((k - 1) as nat));
        lemma_u64_chars_len(n / 10, (k - 1) as nat);
    }
}

/// Exactly `w` digits, all digits, reading back as `n`.
proof fn lemma_padded_chars_props(n: nat, w: nat)
    requires
        n < pow10(w),
    ensures
        padded_chars(n, w).len() == w,
        forall|k: int| 0 <= k < w ==> is_digit(#[trigger] padded_chars(n, w)[k]),
        digits_val(padded_chars(n, w)) == n,
    decreases w,
{
    if w == 0 {
    } else {
        assert(pow10(w) == 10 * pow10((w - 1) as nat));
        lemma_div_lt(n, 10, pow10((w - 1) as nat));
        lemma_padded_chars_props(n / 10, (w - 1) as nat);
        lemma_digit_char_val(n % 10);
        vstd::arithmetic::div_mod::lemma_fundamental_div_mod(n as int, 10);
        vstd::arithmetic::div_mod::lemma_mod_bound(n as int, 10);
        let t = padded_chars(n, w);
        assert(t == padded_chars(n / 10, (w - 1) as nat).push(digit_char(n % 10)));
        assert(t.drop_last() =~= padded_chars(n / 10, (w - 1) as nat));
        assert(t.last() == digit_char(n % 10));
        assert forall|k: int| 0 <= k < w implies is_digit(#[trigger] t[k]) by {
            if k < w - 1 {
                assert(t[k] == padded_chars(n / 10, (w - 1) as nat)[k]);
            }
        }
    }
}

/// The printed text of a decimal value is a plain number token that reads
/// back as exactly the same representation.  (A value of the largest scale
/// with no integer digits would need one digit too many; the parser never
/// produces such a value.)
pub proof fn lemma_dec_chars_token(d: Decimal)
    requires
        d.wf(),
        d.scale < MAX_DIGITS,
    ensures
        is_number_token(dec_chars(d)),
        spec_number_ok(dec_chars(d)),
        token_mantissa(dec_chars(d)) == d.mantissa,
        token_scale(dec_chars(d)) == d.scale,
{
    let m = d.mantissa as nat;
    if d.scale == 0 {
        let t = dec_chars(d);
        assert(t == u64_chars(m));
        lemma_u64_chars_props(m);
        lemma_u64_chars_len(m, MAX_DIGITS as nat);
        lemma_count_dots_zero(t);
        lemma_find_dot_char(t, 0, t.len() as int);
        assert forall|k: int| 0 <= k < t.len() && #[trigger] t[k] == '.' implies k + 1 < t.len()
            && is_digit(t[k + 1]) by {
            assert(is_digit(t[k]));
        }
    } else {
        let sc = d.scale as nat;
        let p = pow10(sc);
        lemma_pow10_pos(sc);
        lemma_pow10_adds((MAX_DIGITS - d.scale) as nat, sc);
        lemma_div_lt(m, p, pow10((MAX_DIGITS - d.scale) as nat));
        vstd::arithmetic::div_mod::lemma_mod_bound(m as int, p as int);
        vstd::arithmetic::div_mod::lemma_fundamental_div_mod(m as int, p as int);
        let a = u64_chars(m / p);
        let b = padded_chars(m % p, sc);
        lemma_u64_chars_props(m / p);
        lemma_u64_chars_len(m / p, (MAX_DIGITS - d.scale) as nat);
        lemma_padded_chars_props(m % p, sc);
        let t = dec_chars(d);
        assert(t == a + seq!['.'] + b);
        let al = a.len() as int;
        let n = t.len() as int;
        assert(n == al + 1 + b.len());
        assert(t.subrange(0, al) =~= a);
        assert(t[al] == '.');
        assert(t.subrange(al + 1, n) =~= b);
        // every character is a digit or the one dot, and the dot is
        // followed by the first fraction digit
        assert forall|k: int| 0 <= k < n implies is_digit(#[trigger] t[k]) || t[k] == '.' by {
            if k < al {
                assert(t[k] == a[k]);
            } else if k > al {
                assert(t[k] == b[k - al - 1]);
            }
        }
        assert forall|k: int| 0 <= k < n && #[trigger] t[k] == '.' implies k + 1 < n && is_digit(
            t[k + 1],
        ) by {
            if k < al {
                assert(t[k] == a[k]);
            } else if k > al {
                assert(t[k] == b[k - al - 1]);
            } else {
                assert(t[al + 1] == b[0]);
            }
        }
        assert(t[0] == a[0]);
        // exactly one dot
        lemma_count_dots_split(t, al);
        lemma_count_dots_split(t.subrange(al, n), 1);
        lemma_count_dots_zero(a);
        lemma_count_dots_zero(b);
        assert(t.subrange(al, n).subrange(0, 1) =~= seq!['.']);
        assert(t.subrange(al, n).subrange(1, t.subrange(al, n).len() as int) =~= b);
        assert(seq!['.'].drop_last() =~= Seq::<char>::empty());
        assert(count_dots(Seq::<char>::empty()) == 0);
        assert(count_dots(seq!['.']) == 1);
        assert(count_dots(t) == 1);
        // the dot stands at the end of the integer digits
        assert forall|k: int| 0 <= k < al implies t[k] != '.' by {
            assert(t[k] == a[k]);
            assert(is_digit(a[k]));
        }
        lemma_find_dot_char(t, 0, al);
        // the digits read back as the mantissa
        assert(t.subrange(al + 1, n) =~= b);
        lemma_digits_val_concat(a, b);
        assert(token_mantissa(t) == digits_val(a + b));
        assert(digits_val(a) * pow10(sc) + digits_val(b) == (m / p) * p + (m % p));
        assert((p as int) * ((m as int) / (p as int)) == ((m as int) / (p as int)) * (p as int))
            by (nonlinear_arith);
        assert(token_scale(t) == sc);
    }
}

} // verus!
