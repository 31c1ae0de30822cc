//! The scanner: a mathematical model of the single-pass scan
//! ([`spec_tokenize`]), and the executable scanner [`Token::tokenize`],
//! proved to agree with it.

use vstd::prelude::*;
use vstd::string::StrSliceExecFns;
use vstd::string::StringExecFns;
use crate::token::{ScanError, SpecToken, Token, spec_keyword};

verus! {

/// Characters the scanner discards between tokens: the ASCII whitespace
/// set (space, tab, line feed, form feed, carriage return).
pub open spec fn is_scan_whitespace(c: char) -> bool {
    c == ' ' || c == '\t' || c == '\n' || c == '\u{c}' || c == '\r'
}

/// A decimal digit.
pub open spec fn is_digit(c: char) -> bool {
    '0' <= c && c <= '9'
}

/// A character that may open a word: an ASCII letter or an underscore.
/// Any character outside the scanner's categories — non-ASCII symbols
/// included — is a fatal [`ScanError::UnrecognizedCharacter`].
pub open spec fn is_word_start(c: char) -> bool {
    ('a' <= c && c <= 'z') || ('A' <= c && c <= 'Z') || c == '_'
}

/// A character that may continue a word: alphanumeric or underscore.
pub open spec fn is_word_char(c: char) -> bool {
    is_word_start(c) || is_digit(c)
}

/// A character that continues a numeric literal: a digit or a dot.
pub open spec fn is_number_char(c: char) -> bool {
    is_digit(c) || c == '.'
}

/// The continuation predicate of a word.
pub open spec fn word_char_p() -> spec_fn(char) -> bool {
    |c: char| is_word_char(c)
}

/// The continuation predicate of a numeric literal.
pub open spec fn number_char_p() -> spec_fn(char) -> bool {
    |c: char| is_number_char(c)
}

/// The continuation predicate of a line comment's body.
pub open spec fn not_newline_p() -> spec_fn(char) -> bool {
    |c: char| c != '\n'
}

/// The continuation predicate of a string literal's body.
pub open spec fn not_quote_p() -> spec_fn(char) -> bool {
    |c: char| c != '"'
}

/// The length of the longest prefix of `s` whose characters all satisfy
/// `p`: how far a greedy scan of one category reaches.
pub open spec fn prefix_len(s: Seq<char>, p: spec_fn(char) -> bool) -> nat
    decreases s.len(),
{
    if s.len() == 0 || !p(s[0]) {
        0
    } else {
        (1 + prefix_len(s.skip(1), p)) as nat
    }
}

pub proof fn lemma_prefix_len_le(s: Seq<char>, p: spec_fn(char) -> bool)
    ensures
        prefix_len(s, p) <= s.len(),
    decreases s.len(),
{
    if s.len() == 0 || !p(s[0]) {
    } else {
        lemma_prefix_len_le(s.skip(1), p);
    }
}

/// `prefix_len` is pinned down by its two defining facts: every character
/// before the boundary satisfies `p`, and the boundary is the end of the
/// sequence or fails `p`.
pub proof fn lemma_prefix_len_is(s: Seq<char>, p: spec_fn(char) -> bool, m: int)
    requires
        0 <= m <= s.len(),
        forall|k: int| 0 <= k < m ==> p(s[k]),
        m == s.len() || !p(s[m]),
    ensures
        prefix_len(s, p) == m,
    decreases m,
{
    if m == 0 {
    } else {
        assert(p(s[0]));
        assert forall|k: int| 0 <= k < m - 1 implies p(s.skip(1)[k]) by {
            assert(s.skip(1)[k] == s[k + 1]);
        }
        if m - 1 < s.skip(1).len() {
            assert(s.skip(1)[m - 1] == s[m]);
        }
        lemma_prefix_len_is(s.skip(1), p, m - 1);
    }
}

/// What a computed `prefix_len` says of the characters themselves: all
/// before it satisfy `p`, and the one at it (if any) does not.
pub proof fn lemma_prefix_len_all(s: Seq<char>, p: spec_fn(char) -> bool)
    ensures
        prefix_len(s, p) <= s.len(),
        forall|k: int| 0 <= k < prefix_len(s, p) ==> p(s[k]),
        prefix_len(s, p) < s.len() ==> !p(s[prefix_len(s, p) as int]),
    decreases s.len(),
{
    if s.len() == 0 || !p(s[0]) {
    } else {
        lemma_prefix_len_all(s.skip(1), p);
        let q = prefix_len(s.skip(1), p) as int;
        assert forall|k: int| 0 <= k < prefix_len(s, p) implies p(s[k]) by {
            if k > 0 {
                assert(p(s.skip(1)[k - 1]));
                assert(s.skip(1)[k - 1] == s[k]);
            }
        }
        if 1 + q < s.len() {
            assert(s.skip(1)[q] == s[q + 1]);
        }
    }
}

/// The numeric value of a digit character.
pub open spec fn digit_val(c: char) -> nat
    recommends
        is_digit(c),
{
    (c as int - '0' as int) as nat
}

/// The value of a run of decimal digits read most-significant first.
pub open spec fn dec_val(s: Seq<char>) -> nat
    decreases s.len(),
{
    if s.len() == 0 {
        0
    } else {
        10 * dec_val(s.drop_last()) + digit_val(s.last())
    }
}

/// Appending digits never shrinks the value: the value of a prefix is a
/// lower bound for the value of the whole run.
pub proof fn lemma_dec_val_prefix_le(s: Seq<char>, m: int)
    requires
        0 <= m <= s.len(),
    ensures
        dec_val(s.take(m)) <= dec_val(s),
    decreases s.len(),
{
    if m == s.len() {
        assert(s.take(m) =~= s);
    } else {
        assert(s.take(m) =~= s.drop_last().take(m));
        lemma_dec_val_prefix_le(s.drop_last(), m);
        assert(dec_val(s) == 10 * dec_val(s.drop_last()) + digit_val(s.last()));
        assert(10 * dec_val(s.drop_last()) >= dec_val(s.drop_last()));
    }
}

/// How often `c` occurs in `s`.
pub open spec fn count_char(s: Seq<char>, c: char) -> nat
    decreases s.len(),
{
    if s.len() == 0 {
        0
    } else {
        count_char(s.drop_last(), c) + if s.last() == c {
            1nat
        } else {
            0nat
        }
    }
}

/// A sequence without occurrences of `c` has none at any position.
pub proof fn lemma_count_char_zero(s: Seq<char>, c: char)
    requires
        count_char(s, c) == 0,
    ensures
        forall|k: int| 0 <= k < s.len() ==> s[k] != c,
    decreases s.len(),
{
    if s.len() == 0 {
    } else {
        lemma_count_char_zero(s.drop_last(), c);
        assert forall|k: int| 0 <= k < s.len() implies s[k] != c by {
            if k < s.len() - 1 {
                assert(s.drop_last()[k] == s[k]);
            }
        }
    }
}

/// One move of the scanner on a non-empty rest of the input: how many
/// characters it consumes, and the token it emits (`Ok(Some(..))`), the
/// nothing that whitespace and comments contribute (`Ok(None)`), or the
/// fatal error it runs into (`Err(..)`).
pub open spec fn scan_step(s: Seq<char>) -> (nat, Result<Option<SpecToken>, ScanError>)
    recommends
        s.len() > 0,
{
    let c = s[0];
    if c == '(' {
        (1nat, Ok(Some(SpecToken::OpenParen)))
    } else if c == ')' {
        (1nat, Ok(Some(SpecToken::CloseParen)))
    } else if c == '{' {
        (1nat, Ok(Some(SpecToken::OpenBrace)))
    } else if c == '}' {
        (1nat, Ok(Some(SpecToken::CloseBrace)))
    } else if c == '[' {
        (1nat, Ok(Some(SpecToken::OpenBracket)))
    } else if c == ']' {
        (1nat, Ok(Some(SpecToken::CloseBracket)))
    } else if c == ':' {
        (1nat, Ok(Some(SpecToken::Colon)))
    } else if c == ',' {
        (1nat, Ok(Some(SpecToken::Comma)))
    } else if c == '.' {
        (1nat, Ok(Some(SpecToken::Dot)))
    } else if c == ';' {
        (1nat, Ok(Some(SpecToken::SemiColon)))
    } else if c == '+' {
        (1nat, Ok(Some(SpecToken::Plus)))
    } else if c == '*' {
        (1nat, Ok(Some(SpecToken::Multiply)))
    } else if c == '-' {
        // One character of lookahead: `>` completes `->`, anything else
        // leaves a bare minus.
        if s.len() > 1 && s[1] == '>' {
            (2nat, Ok(Some(SpecToken::Range)))
        } else {
            (1nat, Ok(Some(SpecToken::Minus)))
        }
    } else if c == '=' {
        if s.len() > 1 && s[1] == '=' {
            (2nat, Ok(Some(SpecToken::EqualTo)))
        } else {
            (1nat, Ok(Some(SpecToken::Equal)))
        }
    } else if c == '<' {
        if s.len() > 1 && s[1] == '=' {
            (2nat, Ok(Some(SpecToken::LessEqual)))
        } else {
            (1nat, Ok(Some(SpecToken::LessThan)))
        }
    } else if c == '>' {
        if s.len() > 1 && s[1] == '=' {
            (2nat, Ok(Some(SpecToken::GreaterEqual)))
        } else {
            (1nat, Ok(Some(SpecToken::GreaterThan)))
        }
    } else if c == '!' {
        if s.len() > 1 && s[1] == '=' {
            (2nat, Ok(Some(SpecToken::BangEqual)))
        } else {
            (1nat, Ok(Some(SpecToken::Bang)))
        }
    } else if c == '/' {
        // `//` opens a line comment: everything up to and including the
        // next newline — or the end of the input — is discarded.
        if s.len() > 1 && s[1] == '/' {
            let k = prefix_len(s.skip(2), not_newline_p());
            if 2 + k < s.len() {
                ((k + 3) as nat, Ok(None))
            } else {
                (s.len(), Ok(None))
            }
        } else {
            (1nat, Ok(Some(SpecToken::Divide)))
        }
    } else if c == '\'' {
        // Exactly one character between the quotes, no escapes.
        if s.len() >= 3 && s[2] == '\'' {
            (3nat, Ok(Some(SpecToken::CharLiteral(s[1]))))
        } else {
            (1nat, Err(ScanError::UnterminatedCharacterLiteral))
        }
    } else if c == '"' {
        let k = prefix_len(s.skip(1), not_quote_p());
        if k + 1 == s.len() {
            (1nat, Err(ScanError::UnterminatedStringLiteral))
        } else {
            ((k + 2) as nat, Ok(Some(SpecToken::StringLiteral(s.subrange(1, k as int + 1)))))
        }
    } else if is_digit(c) {
        let m = 1 + prefix_len(s.skip(1), number_char_p());
        let text = s.subrange(0, m as int);
        let dots = count_char(text, '.');
        if dots == 0 {
            if dec_val(text) > i64::MAX as nat {
                (m, Err(ScanError::MalformedNumericLiteral))
            } else {
                (m, Ok(Some(SpecToken::IntLiteral(dec_val(text) as int))))
            }
        } else if dots == 1 {
            (m, Ok(Some(SpecToken::FloatLiteral(text))))
        } else {
            (m, Err(ScanError::MalformedNumericLiteral))
        }
    } else if is_word_start(c) {
        let m = 1 + prefix_len(s.skip(1), word_char_p());
        (m, Ok(Some(spec_keyword(s.subrange(0, m as int)))))
    } else if is_scan_whitespace(c) {
        (1nat, Ok(None))
    } else {
        (1nat, Err(ScanError::UnrecognizedCharacter(c)))
    }
}

/// Every step of the scanner consumes at least one character and never
/// more than are left.
pub proof fn lemma_scan_step_bounds(s: Seq<char>)
    requires
        s.len() > 0,
    ensures
        1 <= scan_step(s).0 <= s.len(),
{
    let c = s[0];
    if c == '/' && s.len() > 1 && s[1] == '/' {
        lemma_prefix_len_le(s.skip(2), not_newline_p());
    } else if c == '"' {
        lemma_prefix_len_le(s.skip(1), not_quote_p());
    } else if is_digit(c) {
        lemma_prefix_len_le(s.skip(1), number_char_p());
    } else if !(c == '(' || c == ')' || c == '{' || c == '}' || c == '[' || c == ']' || c == ':'
        || c == ',' || c == '.' || c == ';' || c == '+' || c == '*' || c == '-' || c == '='
        || c == '<' || c == '>' || c == '!' || c == '\'') && is_word_start(c) {
        lemma_prefix_len_le(s.skip(1), word_char_p());
    }
}

/// The token sequence of a whole source text — or the first fatal error
/// of the scan. The scanner takes one step, then scans the rest; every
/// non-whitespace, non-comment character lands in exactly one token.
pub open spec fn spec_tokenize(s: Seq<char>) -> Result<Seq<SpecToken>, ScanError>
    decreases s.len(),
{
    if s.len() == 0 {
        Ok(Seq::empty())
    } else {
        let step = scan_step(s);
        let n: int = if 1 <= step.0 <= s.len() {
            step.0 as int
        } else {
            1
        };
        match step.1 {
            Err(e) => Err(e),
            Ok(opt) => match spec_tokenize(s.skip(n)) {
                Err(e) => Err(e),
                Ok(rest) => Ok(
                    match opt {
                        Some(t) => seq![t] + rest,
                        None => rest,
                    },
                ),
            },
        }
    }
}

/// The views of a produced token sequence, for stating that the scanner
/// returns exactly what the model says.
pub open spec fn views_of(ts: Seq<Token>) -> Seq<SpecToken> {
    ts.map_values(|t: Token| t@)
}

proof fn lemma_views_push(ts: Seq<Token>, t: Token)
    ensures
        views_of(ts.push(t)) == views_of(ts).push(t@),
{
    assert(views_of(ts.push(t)) =~= views_of(ts).push(t@));
}

/// Tokens already emitted, prepended to the outcome of scanning the rest.
pub open spec fn ok_prepend(pre: Seq<SpecToken>, r: Result<Seq<SpecToken>, ScanError>) -> Result<
    Seq<SpecToken>,
    ScanError,
> {
    match r {
        Ok(ts) => Ok(pre + ts),
        Err(e) => Err(e),
    }
}

/// Advancing the scan by one emitting step keeps the running
/// decomposition of `spec_tokenize(full)` intact.
proof fn lemma_step_emit(full: Seq<char>, i: int, t: SpecToken, pre: Seq<SpecToken>)
    requires
        0 <= i < full.len(),
        scan_step(full.skip(i)).1 == Ok::<Option<SpecToken>, ScanError>(Some(t)),
        1 <= scan_step(full.skip(i)).0,
        i + scan_step(full.skip(i)).0 <= full.len(),
        spec_tokenize(full) == ok_prepend(pre, spec_tokenize(full.skip(i))),
    ensures
        spec_tokenize(full) == ok_prepend(
            pre.push(t),
            spec_tokenize(full.skip(i + scan_step(full.skip(i)).0)),
        ),
{
    let s = full.skip(i);
    let n = scan_step(s).0 as int;
    assert(s.skip(n) =~= full.skip(i + n));
    assert(spec_tokenize(s) == match spec_tokenize(s.skip(n)) {
        Err(e) => Err(e),
        Ok(rest) => Ok(seq![t] + rest),
    });
    match spec_tokenize(full.skip(i + n)) {
        Ok(rest) => {
            assert(pre + (seq![t] + rest) =~= pre.push(t) + rest);
        },
        Err(e) => {},
    }
}

/// Advancing the scan over whitespace or a comment emits nothing and
/// keeps the running decomposition intact.
proof fn lemma_step_skip(full: Seq<char>, i: int, pre: Seq<SpecToken>)
    requires
        0 <= i < full.len(),
        scan_step(full.skip(i)).1 == Ok::<Option<SpecToken>, ScanError>(None),
        1 <= scan_step(full.skip(i)).0,
        i + scan_step(full.skip(i)).0 <= full.len(),
        spec_tokenize(full) == ok_prepend(pre, spec_tokenize(full.skip(i))),
    ensures
        spec_tokenize(full) == ok_prepend(
            pre,
            spec_tokenize(full.skip(i + scan_step(full.skip(i)).0)),
        ),
{
    let s = full.skip(i);
    let n = scan_step(s).0 as int;
    assert(s.skip(n) =~= full.skip(i + n));
    assert(spec_tokenize(s) == spec_tokenize(s.skip(n)));
}

/// A failing step makes the whole scan fail with that error.
proof fn lemma_step_err(full: Seq<char>, i: int, e: ScanError, pre: Seq<SpecToken>)
    requires
        0 <= i < full.len(),
        scan_step(full.skip(i)).1 == Err::<Option<SpecToken>, ScanError>(e),
        spec_tokenize(full) == ok_prepend(pre, spec_tokenize(full.skip(i))),
    ensures
        spec_tokenize(full) == Err::<Seq<SpecToken>, ScanError>(e),
{
    let s = full.skip(i);
    assert(spec_tokenize(s) == Err::<Seq<SpecToken>, ScanError>(e));
}

/// Decides [`is_digit`].
pub fn digit_ch(c: char) -> (r: bool)
    ensures
        r == is_digit(c),
{
    let u = c as u32;
    ('0' as u32) <= u && u <= ('9' as u32)
}

/// Decides [`is_word_start`].
pub fn word_start_ch(c: char) -> (r: bool)
    ensures
        r == is_word_start(c),
{
    let u = c as u32;
    (('a' as u32) <= u && u <= ('z' as u32)) || (('A' as u32) <= u && u <= ('Z' as u32)) || c
        == '_'
}

/// Decides [`is_word_char`].
pub fn word_ch(c: char) -> (r: bool)
    ensures
        r == is_word_char(c),
{
    word_start_ch(c) || digit_ch(c)
}

/// Decides [`is_number_char`].
pub fn number_ch(c: char) -> (r: bool)
    ensures
        r == is_number_char(c),
{
    digit_ch(c) || c == '.'
}

/// Decides [`is_scan_whitespace`].
pub fn whitespace_ch(c: char) -> (r: bool)
    ensures
        r == is_scan_whitespace(c),
{
    c == ' ' || c == '\t' || c == '\n' || c == '\u{c}' || c == '\r'
}

/// Greedy scan of a word's continuation: the first position at or after
/// `from` whose character no longer continues a word.
#[verifier::loop_isolation(false)]
fn scan_word_end(s: &str, from: usize, n: usize) -> (j: usize)
    requires
        n == s@.len(),
        from <= n,
    ensures
        from <= j <= n,
        prefix_len(s@.skip(from as int), word_char_p()) == j - from,
{
    let mut j = from;
    while j < n && word_ch(s.get_char(j))
        invariant
            from <= j <= n,
            forall|k: int| from <= k < j ==> is_word_char(s@[k]),
        decreases n - j,
    {
        j = j + 1;
    }
    proof {
        let s1 = s@.skip(from as int);
        assert forall|k: int| 0 <= k < j - from implies word_char_p()(s1[k]) by {
            assert(s1[k] == s@[from + k]);
        }
        if j < n {
            assert(s1[j - from] == s@[j as int]);
        }
        lemma_prefix_len_is(s1, word_char_p(), j - from);
    }
    j
}

/// Greedy scan of a numeric literal's continuation: digits and dots.
#[verifier::loop_isolation(false)]
fn scan_number_end(s: &str, from: usize, n: usize) -> (j: usize)
    requires
        n == s@.len(),
        from <= n,
    ensures
        from <= j <= n,
        prefix_len(s@.skip(from as int), number_char_p()) == j - from,
        forall|k: int| from <= k < j ==> is_number_char(s@[k]),
{
    let mut j = from;
    while j < n && number_ch(s.get_char(j))
        invariant
            from <= j <= n,
            forall|k: int| from <= k < j ==> is_number_char(s@[k]),
        decreases n - j,
    {
        j = j + 1;
    }
    proof {
        let s1 = s@.skip(from as int);
        assert forall|k: int| 0 <= k < j - from implies number_char_p()(s1[k]) by {
            assert(s1[k] == s@[from + k]);
        }
        if j < n {
            assert(s1[j - from] == s@[j as int]);
        }
        lemma_prefix_len_is(s1, number_char_p(), j - from);
    }
    j
}

/// Scan to the end of a line comment's body: the first newline at or
/// after `from`, or the end of the input.
#[verifier::loop_isolation(false)]
fn scan_line_end(s: &str, from: usize, n: usize) -> (j: usize)
    requires
        n == s@.len(),
        from <= n,
    ensures
        from <= j <= n,
        prefix_len(s@.skip(from as int), not_newline_p()) == j - from,
{
    let mut j = from;
    while j < n && s.get_char(j) != '\n'
        invariant
            from <= j <= n,
            forall|k: int| from <= k < j ==> s@[k] != '\n',
        decreases n - j,
    {
        j = j + 1;
    }
    proof {
        let s1 = s@.skip(from as int);
        assert forall|k: int| 0 <= k < j - from implies not_newline_p()(s1[k]) by {
            assert(s1[k] == s@[from + k]);
        }
        if j < n {
            assert(s1[j - from] == s@[j as int]);
        }
        lemma_prefix_len_is(s1, not_newline_p(), j - from);
    }
    j
}

/// Scan to a string literal's closing quote: the first `"` at or after
/// `from`, or the end of the input.
#[verifier::loop_isolation(false)]
fn scan_quote_end(s: &str, from: usize, n: usize) -> (j: usize)
    requires
        n == s@.len(),
        from <= n,
    ensures
        from <= j <= n,
        prefix_len(s@.skip(from as int), not_quote_p()) == j - from,
{
    let mut j = from;
    while j < n && s.get_char(j) != '"'
        invariant
            from <= j <= n,
            forall|k: int| from <= k < j ==> s@[k] != '"',
        decreases n - j,
    {
        j = j + 1;
    }
    proof {
        let s1 = s@.skip(from as int);
        assert forall|k: int| 0 <= k < j - from implies not_quote_p()(s1[k]) by {
            assert(s1[k] == s@[from + k]);
        }
        if j < n {
            assert(s1[j - from] == s@[j as int]);
        }
        lemma_prefix_len_is(s1, not_quote_p(), j - from);
    }
    j
}

/// How many dots the slice `s[from..to]` holds.
#[verifier::loop_isolation(false)]
fn count_dots(s: &str, from: usize, to: usize) -> (dots: usize)
    requires
        from <= to <= s@.len(),
    ensures
        dots as nat == count_char(s@.subrange(from as int, to as int), '.'),
        dots <= to - from,
{
    let mut dots: usize = 0;
    let mut k = from;
    while k < to
        invariant
            from <= k <= to,
            dots <= k - from,
            dots as nat == count_char(s@.subrange(from as int, k as int), '.'),
        decreases to - k,
    {
        proof {
            let t1 = s@.subrange(from as int, k as int + 1);
            assert(t1.drop_last() =~= s@.subrange(from as int, k as int));
            assert(t1.last() == s@[k as int]);
        }
        if s.get_char(k) == '.' {
            dots = dots + 1;
        }
        k = k + 1;
    }
    dots
}

/// The value of the all-digit slice `s[from..to]`, read as a decimal
/// numeral — or `None` exactly when that value overflows `i64`, the one
/// way a dot-free numeral is malformed.
#[verifier::loop_isolation(false)]
fn digits_value(s: &str, from: usize, to: usize) -> (r: Option<i64>)
    requires
        from <= to <= s@.len(),
        forall|k: int| from <= k < to ==> is_digit(s@[k]),
    ensures
        match r {
            Some(v) => 0 <= v && v as nat == dec_val(s@.subrange(from as int, to as int)),
            None => dec_val(s@.subrange(from as int, to as int)) > i64::MAX as nat,
        },
{
    let ghost text = s@.subrange(from as int, to as int);
    let mut val: i64 = 0;
    let mut k = from;
    while k < to
        invariant
            from <= k <= to,
            0 <= val,
            val as nat == dec_val(s@.subrange(from as int, k as int)),
        decreases to - k,
    {
        let ch = s.get_char(k);
        let d: i64 = (ch as u32 - '0' as u32) as i64;
        let ghost t1 = s@.subrange(from as int, k as int + 1);
        proof {
            assert(t1.drop_last() =~= s@.subrange(from as int, k as int));
            assert(t1.last() == s@[k as int]);
            assert(d as nat == digit_val(s@[k as int]));
            assert(dec_val(t1) == 10 * (val as int) + d);
        }
        let limit: i64 = (i64::MAX - d) / 10;
        if val > limit {
            proof {
                assert(10 * (val as int) + d > i64::MAX) by (nonlinear_arith)
                    requires
                        val as int > (i64::MAX - d as int) / 10,
                        0 <= d as int <= 9,
                        0 <= val as int,
                ;
                assert(t1 =~= text.take(k + 1 - from));
                lemma_dec_val_prefix_le(text, k + 1 - from);
            }
            return None;
        }
        proof {
            assert(10 * (val as int) + d <= i64::MAX) by (nonlinear_arith)
                requires
                    val as int <= (i64::MAX - d as int) / 10,
                    0 <= d as int <= 9,
                    0 <= val as int,
            ;
        }
        val = val * 10 + d;
        k = k + 1;
    }
    Some(val)
}

/// One executable step of the scanner at position `i`: the position after
/// the consumed characters and the token emitted (if any), or the fatal
/// error — exactly what [`scan_step`] says for the rest of the input.
#[verifier::rlimit(50)]
fn step_exec(s: &str, i: usize, n: usize) -> (r: Result<(usize, Option<Token>), ScanError>)
    requires
        n == s@.len(),
        i < n,
    ensures
        match r {
            Ok(p) => {
                &&& i < p.0 <= n
                &&& p.0 == i + scan_step(s@.skip(i as int)).0
                &&& match (scan_step(s@.skip(i as int)).1, p.1) {
                    (Ok(Some(t)), Some(tok)) => tok@ == t,
                    (Ok(None), None) => true,
                    _ => false,
                }
            },
            Err(e) => scan_step(s@.skip(i as int)).1 == Err::<Option<SpecToken>, ScanError>(e),
        },
{
    let ghost ss = s@.skip(i as int);
    proof {
        assert(ss[0] == s@[i as int]);
    }
    let c = s.get_char(i);
    if c == '(' {
        Ok((i + 1, Some(Token::OpenParen)))
    } else if c == ')' {
        Ok((i + 1, Some(Token::CloseParen)))
    } else if c == '{' {
        Ok((i + 1, Some(Token::OpenBrace)))
    } else if c == '}' {
        Ok((i + 1, Some(Token::CloseBrace)))
    } else if c == '[' {
        Ok((i + 1, Some(Token::OpenBracket)))
    } else if c == ']' {
        Ok((i + 1, Some(Token::CloseBracket)))
    } else if c == ':' {
        Ok((i + 1, Some(Token::Colon)))
    } else if c == ',' {
        Ok((i + 1, Some(Token::Comma)))
    } else if c == '.' {
        Ok((i + 1, Some(Token::Dot)))
    } else if c == ';' {
        Ok((i + 1, Some(Token::SemiColon)))
    } else if c == '+' {
        Ok((i + 1, Some(Token::Plus)))
    } else if c == '*' {
        Ok((i + 1, Some(Token::Multiply)))
    } else if c == '-' {
        if i + 1 < n && s.get_char(i + 1) == '>' {
            proof {
                assert(ss[1] == s@[i + 1]);
            }
            Ok((i + 2, Some(Token::Range)))
        } else {
            proof {
                if i + 1 < n {
                    assert(ss[1] == s@[i + 1]);
                }
            }
            Ok((i + 1, Some(Token::Minus)))
        }
    } else if c == '=' {
        if i + 1 < n && s.get_char(i + 1) == '=' {
            proof {
                assert(ss[1] == s@[i + 1]);
            }
            Ok((i + 2, Some(Token::EqualTo)))
        } else {
            proof {
                if i + 1 < n {
                    assert(ss[1] == s@[i + 1]);
                }
            }
            Ok((i + 1, Some(Token::Equal)))
        }
    } else if c == '<' {
        if i + 1 < n && s.get_char(i + 1) == '=' {
            proof {
                assert(ss[1] == s@[i + 1]);
            }
            Ok((i + 2, Some(Token::LessEqual)))
        } else {
            proof {
                if i + 1 < n {
                    assert(ss[1] == s@[i + 1]);
                }
            }
            Ok((i + 1, Some(Token::LessThan)))
        }
    } else if c == '>' {
        if i + 1 < n && s.get_char(i + 1) == '=' {
            proof {
                assert(ss[1] == s@[i + 1]);
            }
            Ok((i + 2, Some(Token::GreaterEqual)))
        } else {
            proof {
                if i + 1 < n {
                    assert(ss[1] == s@[i + 1]);
                }
            }
            Ok((i + 1, Some(Token::GreaterThan)))
        }
    } else if c == '!' {
        if i + 1 < n && s.get_char(i + 1) == '=' {
            proof {
                assert(ss[1] == s@[i + 1]);
            }
            Ok((i + 2, Some(Token::BangEqual)))
        } else {
            proof {
                if i + 1 < n {
                    assert(ss[1] == s@[i + 1]);
                }
            }
            Ok((i + 1, Some(Token::Bang)))
        }
    } else if c == '/' {
        if i + 1 < n && s.get_char(i + 1) == '/' {
            proof {
                assert(ss[1] == s@[i + 1]);
            }
            let j = scan_line_end(s, i + 2, n);
            proof {
                assert(ss.skip(2) =~= s@.skip(i as int + 2));
            }
            if j < n {
                Ok((j + 1, None))
            } else {
                Ok((n, None))
            }
        } else {
            proof {
                if i + 1 < n {
                    assert(ss[1] == s@[i + 1]);
                }
            }
            Ok((i + 1, Some(Token::Divide)))
        }
    } else if c == '\'' {
        if n - i > 2 && s.get_char(i + 2) == '\'' {
            proof {
                assert(ss[1] == s@[i + 1] && ss[2] == s@[i + 2]);
            }
            let ch = s.get_char(i + 1);
            Ok((i + 3, Some(Token::CharLiteral(ch))))
        } else {
            proof {
                if n - i > 2 {
                    assert(ss[2] == s@[i + 2]);
                }
            }
            Err(ScanError::UnterminatedCharacterLiteral)
        }
    } else if c == '"' {
        let j = scan_quote_end(s, i + 1, n);
        proof {
            assert(ss.skip(1) =~= s@.skip(i as int + 1));
        }
        if j == n {
            Err(ScanError::UnterminatedStringLiteral)
        } else {
            let lit = String::from_str(s.substring_char(i + 1, j));
            proof {
                assert(lit@ =~= ss.subrange(1, (j - i - 1) + 1));
            }
            Ok((j + 1, Some(Token::StringLiteral(lit))))
        }
    } else if digit_ch(c) {
        let j = scan_number_end(s, i + 1, n);
        let ghost text = s@.subrange(i as int, j as int);
        proof {
            assert(ss.skip(1) =~= s@.skip(i as int + 1));
            assert(ss.subrange(0, j - i) =~= text);
        }
        let dots = count_dots(s, i, j);
        if dots == 0 {
            proof {
                lemma_count_char_zero(text, '.');
                assert forall|k: int| i <= k < j implies is_digit(s@[k]) by {
                    assert(text[k - i] == s@[k]);
                    assert(text[k - i] != '.');
                }
            }
            match digits_value(s, i, j) {
                Some(v) => Ok((j, Some(Token::IntLiteral(v)))),
                None => Err(ScanError::MalformedNumericLiteral),
            }
        } else if dots == 1 {
            let lit = String::from_str(s.substring_char(i, j));
            proof {
                assert(lit@ =~= text);
            }
            Ok((j, Some(Token::FloatLiteral(lit))))
        } else {
            Err(ScanError::MalformedNumericLiteral)
        }
    } else if word_start_ch(c) {
        let j = scan_word_end(s, i + 1, n);
        proof {
            assert(ss.skip(1) =~= s@.skip(i as int + 1));
        }
        let w = String::from_str(s.substring_char(i, j));
        proof {
            assert(w@ =~= ss.subrange(0, j - i));
        }
        Ok((j, Some(Token::keyword(w))))
    } else if whitespace_ch(c) {
        Ok((i + 1, None))
    } else {
        Err(ScanError::UnrecognizedCharacter(c))
    }
}

impl Token {
    /// Classify a completed word: an exact, case-sensitive hit in the
    /// fixed keyword table yields that keyword's token, any other word an
    /// identifier token carrying the word's text.
    pub fn keyword(word: String) -> (t: Token)
        ensures
            t@ == spec_keyword(word@),
    {
        if word == String::from_str("true") {
            Token::True
        } else if word == String::from_str("false") {
            Token::False
        } else if word == String::from_str("func") {
            Token::Func
        } else if word == String::from_str("var") {
            Token::Var
        } else if word == String::from_str("if") {
            Token::If
        } else if word == String::from_str("else") {
            Token::Else
        } else if word == String::from_str("for") {
            Token::For
        } else if word == String::from_str("switch") {
            Token::Switch
        } else if word == String::from_str("case") {
            Token::Case
        } else if word == String::from_str("return") {
            Token::Return
        } else if word == String::from_str("in") {
            Token::In
        } else if word == String::from_str("struct") {
            Token::Struct
        } else if word == String::from_str("enum") {
            Token::Enum
        } else {
            Token::Keyword(word)
        }
    }

    /// Scan a complete source text into its token sequence in one forward
    /// pass, or fail with the first fatal error — exactly as the model
    /// [`spec_tokenize`] says, for every input.
    #[verifier::loop_isolation(false)]
    pub fn tokenize(src: String) -> (r: Result<Vec<Token>, ScanError>)
        ensures
            spec_tokenize(src@) matches Ok(toks) ==> (r matches Ok(v) && views_of(v@) == toks),
            spec_tokenize(src@) matches Err(e) ==> (r matches Err(e2) && e2 == e),
    {
        let s: &str = src.as_str();
        let n: usize = s.unicode_len();
        let ghost full = src@;
        let mut tokens: Vec<Token> = Vec::new();
        let mut i: usize = 0;
        proof {
            assert(full.skip(0) =~= full);
            assert(views_of(tokens@) =~= Seq::<SpecToken>::empty());
            let r0 = spec_tokenize(full);
            if r0 is Ok {
                assert(Seq::<SpecToken>::empty() + r0->Ok_0 =~= r0->Ok_0);
            }
        }
        while i < n
            invariant
                i <= n,
                spec_tokenize(full) == ok_prepend(
                    views_of(tokens@),
                    spec_tokenize(full.skip(i as int)),
                ),
            decreases n - i,
        {
            match step_exec(s, i, n) {
                Ok((i2, opt)) => {
                    match opt {
                        Some(tok) => {
                            proof {
                                lemma_step_emit(full, i as int, tok@, views_of(tokens@));
                                lemma_views_push(tokens@, tok);
                            }
                            tokens.push(tok);
                        },
                        None => {
                            proof {
                                lemma_step_skip(full, i as int, views_of(tokens@));
                            }
                        },
                    }
                    i = i2;
                },
                Err(e) => {
                    proof {
                        lemma_step_err(full, i as int, e, views_of(tokens@));
                    }
                    return Err(e);
                },
            }
        }
        proof {
            assert(full.skip(n as int) =~= Seq::<char>::empty());
            assert(views_of(tokens@) + Seq::<SpecToken>::empty() =~= views_of(tokens@));
        }
        Ok(tokens)
    }
}

} // verus!
