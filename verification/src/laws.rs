//! General laws of the scanner, proved against the model in
//! [`crate::scan`]: round-trip of every operator lexeme, maximal munch of
//! the two-character operators, comment elision, whitespace invariance,
//! and the keyword/identifier partition.

use vstd::prelude::*;
use crate::scan::{
    count_char, dec_val, is_digit, is_number_char, is_scan_whitespace, is_word_char,
    is_word_start, lemma_prefix_len_all, lemma_prefix_len_is, lemma_scan_step_bounds,
    not_newline_p, not_quote_p, number_char_p, ok_prepend, prefix_len, scan_step, spec_tokenize,
    word_char_p,
};
use crate::token::{ScanError, SpecToken, spec_keyword};

verus! {

/// Whether `t` is one of the operator/punctuation tokens: the nullary
/// variants whose lexeme is fixed text, as opposed to literals, keywords
/// and identifiers.
pub open spec fn is_operator(t: SpecToken) -> bool {
    match t {
        SpecToken::Plus => true,
        SpecToken::Minus => true,
        SpecToken::Multiply => true,
        SpecToken::Divide => true,
        SpecToken::Equal => true,
        SpecToken::EqualTo => true,
        SpecToken::LessThan => true,
        SpecToken::GreaterThan => true,
        SpecToken::LessEqual => true,
        SpecToken::GreaterEqual => true,
        SpecToken::Bang => true,
        SpecToken::BangEqual => true,
        SpecToken::Dot => true,
        SpecToken::Comma => true,
        SpecToken::Colon => true,
        SpecToken::SemiColon => true,
        SpecToken::Range => true,
        SpecToken::OpenParen => true,
        SpecToken::CloseParen => true,
        SpecToken::OpenBrace => true,
        SpecToken::CloseBrace => true,
        SpecToken::OpenBracket => true,
        SpecToken::CloseBracket => true,
        _ => false,
    }
}

/// The exact text of an operator/punctuation token.
pub open spec fn op_lexeme(t: SpecToken) -> Seq<char>
    recommends
        is_operator(t),
{
    match t {
        SpecToken::Plus => seq!['+'],
        SpecToken::Minus => seq!['-'],
        SpecToken::Multiply => seq!['*'],
        SpecToken::Divide => seq!['/'],
        SpecToken::Equal => seq!['='],
        SpecToken::EqualTo => seq!['=', '='],
        SpecToken::LessThan => seq!['<'],
        SpecToken::GreaterThan => seq!['>'],
        SpecToken::LessEqual => seq!['<', '='],
        SpecToken::GreaterEqual => seq!['>', '='],
        SpecToken::Bang => seq!['!'],
        SpecToken::BangEqual => seq!['!', '='],
        SpecToken::Dot => seq!['.'],
        SpecToken::Comma => seq![','],
        SpecToken::Colon => seq![':'],
        SpecToken::SemiColon => seq![';'],
        SpecToken::Range => seq!['-', '>'],
        SpecToken::OpenParen => seq!['('],
        SpecToken::CloseParen => seq![')'],
        SpecToken::OpenBrace => seq!['{'],
        SpecToken::CloseBrace => seq!['}'],
        SpecToken::OpenBracket => seq!['['],
        SpecToken::CloseBracket => seq![']'],
        _ => Seq::empty(),
    }
}

/// Round-trip coverage: tokenizing the exact text of any
/// operator/punctuation lexeme in the taxonomy yields that one token and
/// nothing else.
pub proof fn lemma_operator_round_trip(t: SpecToken)
    requires
        is_operator(t),
    ensures
        spec_tokenize(op_lexeme(t)) == Ok::<Seq<SpecToken>, ScanError>(seq![t]),
{
    let s = op_lexeme(t);
    assert(scan_step(s).0 == s.len() && scan_step(s).1 == Ok::<Option<SpecToken>, ScanError>(
        Some(t),
    ));
    assert(s.skip(s.len() as int) =~= Seq::<char>::empty());
    assert(spec_tokenize(Seq::<char>::empty()) == Ok::<Seq<SpecToken>, ScanError>(
        Seq::<SpecToken>::empty(),
    ));
    assert(seq![t] + Seq::<SpecToken>::empty() =~= seq![t]);
}

/// The token completed when the character `d` follows the operator
/// character `c` — the five two-character operators.
pub open spec fn two_char_op(c: char, d: char) -> Option<SpecToken> {
    if c == '-' && d == '>' {
        Some(SpecToken::Range)
    } else if c == '=' && d == '=' {
        Some(SpecToken::EqualTo)
    } else if c == '<' && d == '=' {
        Some(SpecToken::LessEqual)
    } else if c == '>' && d == '=' {
        Some(SpecToken::GreaterEqual)
    } else if c == '!' && d == '=' {
        Some(SpecToken::BangEqual)
    } else {
        None
    }
}

/// The token of one of the five operator characters standing alone.
pub open spec fn single_char_op(c: char) -> Option<SpecToken> {
    if c == '-' {
        Some(SpecToken::Minus)
    } else if c == '=' {
        Some(SpecToken::Equal)
    } else if c == '<' {
        Some(SpecToken::LessThan)
    } else if c == '>' {
        Some(SpecToken::GreaterThan)
    } else if c == '!' {
        Some(SpecToken::Bang)
    } else {
        None
    }
}

/// Maximal munch, completing case: wherever one of `==` `<=` `>=` `!=`
/// `->` opens the input, the scanner consumes both characters as one
/// token — never as two one-character tokens — and scans on after them.
pub proof fn lemma_maximal_munch_two(c: char, d: char, rest: Seq<char>)
    requires
        two_char_op(c, d) is Some,
    ensures
        spec_tokenize(seq![c, d] + rest) == ok_prepend(
            seq![two_char_op(c, d)->Some_0],
            spec_tokenize(rest),
        ),
{
    let s = seq![c, d] + rest;
    let t = two_char_op(c, d)->Some_0;
    assert(s[0] == c && s[1] == d);
    assert(scan_step(s).0 == 2 && scan_step(s).1 == Ok::<Option<SpecToken>, ScanError>(Some(t)));
    assert(s.skip(2) =~= rest);
}

/// Maximal munch, fallback case: one of `-` `=` `<` `>` `!` not followed
/// by its completing character is the corresponding one-character token,
/// and the scan goes on with the very next character.
pub proof fn lemma_maximal_munch_single(c: char, rest: Seq<char>)
    requires
        single_char_op(c) is Some,
        rest.len() == 0 || two_char_op(c, rest[0]) is None,
    ensures
        spec_tokenize(seq![c] + rest) == ok_prepend(
            seq![single_char_op(c)->Some_0],
            spec_tokenize(rest),
        ),
{
    let s = seq![c] + rest;
    let t = single_char_op(c)->Some_0;
    assert(s[0] == c);
    if rest.len() > 0 {
        assert(s[1] == rest[0]);
    }
    assert(scan_step(s).0 == 1 && scan_step(s).1 == Ok::<Option<SpecToken>, ScanError>(Some(t)));
    assert(s.skip(1) =~= rest);
}

/// Comment/divide disambiguation: a `/` not followed by another `/` is
/// the divide token, and the scan goes on with the very next character.
pub proof fn lemma_divide_not_comment(rest: Seq<char>)
    requires
        rest.len() == 0 || rest[0] != '/',
    ensures
        spec_tokenize(seq!['/'] + rest) == ok_prepend(
            seq![SpecToken::Divide],
            spec_tokenize(rest),
        ),
{
    let s = seq!['/'] + rest;
    assert(s[0] == '/');
    if rest.len() > 0 {
        assert(s[1] == rest[0]);
    }
    assert(scan_step(s).0 == 1 && scan_step(s).1 == Ok::<Option<SpecToken>, ScanError>(
        Some(SpecToken::Divide),
    ));
    assert(s.skip(1) =~= rest);
}

/// Comment elision: a line comment contributes zero tokens, whatever its
/// body holds — quotes, digits, keywords — whether it ends at a newline
/// (the scan goes on after it) or at the end of the input.
pub proof fn lemma_comment_elision(body: Seq<char>, rest: Seq<char>)
    requires
        forall|k: int| 0 <= k < body.len() ==> body[k] != '\n',
    ensures
        spec_tokenize(seq!['/', '/'] + body + seq!['\n'] + rest) == spec_tokenize(rest),
        spec_tokenize(seq!['/', '/'] + body) == Ok::<Seq<SpecToken>, ScanError>(Seq::empty()),
{
    let s = seq!['/', '/'] + body + seq!['\n'] + rest;
    assert(s[0] == '/' && s[1] == '/');
    let s2 = s.skip(2);
    assert(s2 =~= body + seq!['\n'] + rest);
    assert forall|k: int| 0 <= k < body.len() implies not_newline_p()(s2[k]) by {
        assert(s2[k] == body[k]);
    }
    assert(s2[body.len() as int] == '\n');
    lemma_prefix_len_is(s2, not_newline_p(), body.len() as int);
    assert(scan_step(s).0 == body.len() + 3 && scan_step(s).1 == Ok::<
        Option<SpecToken>,
        ScanError,
    >(None));
    assert(s.skip(body.len() as int + 3) =~= rest);

    let u = seq!['/', '/'] + body;
    assert(u[0] == '/' && u[1] == '/');
    let u2 = u.skip(2);
    assert(u2 =~= body);
    lemma_prefix_len_is(u2, not_newline_p(), body.len() as int);
    assert(scan_step(u).0 == u.len() && scan_step(u).1 == Ok::<Option<SpecToken>, ScanError>(
        None,
    ));
    assert(u.skip(u.len() as int) =~= Seq::<char>::empty());
    assert(spec_tokenize(Seq::<char>::empty()) == Ok::<Seq<SpecToken>, ScanError>(
        Seq::<SpecToken>::empty(),
    ));
}

/// Numeric classification: a whole digits-and-dots run opened by a digit
/// scans to exactly one token or error — an integer token carrying the
/// run's decimal value when it has no dot and the value fits in `i64`, a
/// float token carrying the exact text when it has one dot, and a
/// malformed-numeral failure otherwise.
pub proof fn lemma_numeric_classification(w: Seq<char>)
    requires
        w.len() > 0,
        is_digit(w[0]),
        forall|k: int| 0 <= k < w.len() ==> is_number_char(w[k]),
    ensures
        spec_tokenize(w) == (if count_char(w, '.') == 0 {
            if dec_val(w) > i64::MAX as nat {
                Err::<Seq<SpecToken>, ScanError>(ScanError::MalformedNumericLiteral)
            } else {
                Ok::<Seq<SpecToken>, ScanError>(seq![SpecToken::IntLiteral(dec_val(w) as int)])
            }
        } else if count_char(w, '.') == 1 {
            Ok::<Seq<SpecToken>, ScanError>(seq![SpecToken::FloatLiteral(w)])
        } else {
            Err::<Seq<SpecToken>, ScanError>(ScanError::MalformedNumericLiteral)
        }),
{
    let s1 = w.skip(1);
    assert forall|k: int| 0 <= k < w.len() - 1 implies number_char_p()(s1[k]) by {
        assert(s1[k] == w[k + 1]);
    }
    lemma_prefix_len_is(s1, number_char_p(), w.len() - 1);
    assert(w.subrange(0, w.len() as int) =~= w);
    assert(scan_step(w).0 == w.len());
    assert(w.skip(w.len() as int) =~= Seq::<char>::empty());
    assert(spec_tokenize(Seq::<char>::empty()) == Ok::<Seq<SpecToken>, ScanError>(
        Seq::<SpecToken>::empty(),
    ));
    if count_char(w, '.') == 0 && dec_val(w) <= i64::MAX as nat {
        assert(seq![SpecToken::IntLiteral(dec_val(w) as int)] + Seq::<SpecToken>::empty()
            =~= seq![SpecToken::IntLiteral(dec_val(w) as int)]);
    }
    if count_char(w, '.') == 1 {
        assert(seq![SpecToken::FloatLiteral(w)] + Seq::<SpecToken>::empty()
            =~= seq![SpecToken::FloatLiteral(w)]);
    }
}

/// A run of nothing but whitespace characters.
pub open spec fn is_ws_run(w: Seq<char>) -> bool {
    forall|k: int| 0 <= k < w.len() ==> is_scan_whitespace(w[k])
}

/// Whether the text holds a comment opener `//` anywhere.
pub open spec fn has_comment_start(s: Seq<char>) -> bool {
    exists|k: int| 0 <= k < s.len() - 1 && #[trigger] s[k] == '/' && s[k + 1] == '/'
}

/// Whitespace invariance, leading case: a run of whitespace in front of
/// any input changes nothing about the resulting tokens or error.
pub proof fn lemma_whitespace_prefix(w: Seq<char>, s: Seq<char>)
    requires
        is_ws_run(w),
    ensures
        spec_tokenize(w + s) == spec_tokenize(s),
    decreases w.len(),
{
    if w.len() == 0 {
        assert(w + s =~= s);
    } else {
        let u = w + s;
        assert(u[0] == w[0]);
        assert(is_scan_whitespace(u[0]));
        assert(scan_step(u).0 == 1 && scan_step(u).1 == Ok::<Option<SpecToken>, ScanError>(None));
        assert(u.skip(1) =~= w.skip(1) + s);
        assert forall|k: int| 0 <= k < w.skip(1).len() implies is_scan_whitespace(
            w.skip(1)[k],
        ) by {
            assert(w.skip(1)[k] == w[k + 1]);
        }
        lemma_whitespace_prefix(w.skip(1), s);
    }
}

/// A step of the scanner looks at most one category run plus one
/// character ahead, so extending the input behind that never changes the
/// step — provided the extension opens with whitespace (which completes
/// no operator and continues no literal or word) and the step is not a
/// comment (which would swallow the extension).
proof fn lemma_step_extend(a: Seq<char>, ext: Seq<char>)
    requires
        a.len() > 0,
        ext.len() > 0,
        is_scan_whitespace(ext[0]),
        scan_step(a).1 is Ok,
        !(a.len() > 1 && a[0] == '/' && a[1] == '/'),
    ensures
        scan_step(a + ext) == scan_step(a),
{
    let u = a + ext;
    let c = a[0];
    assert(u[0] == c);
    assert(u[a.len() as int] == ext[0]);
    if c == '-' || c == '=' || c == '<' || c == '>' || c == '!' || c == '/' {
        if a.len() > 1 {
            assert(u[1] == a[1]);
        } else {
            assert(u[1] == ext[0]);
            assert(u[1] != '>' && u[1] != '=' && u[1] != '/');
        }
    } else if c == '\'' {
        assert(a.len() >= 3 && a[2] == '\'');
        assert(u[1] == a[1] && u[2] == a[2]);
    } else if c == '"' {
        let k = prefix_len(a.skip(1), not_quote_p()) as int;
        lemma_prefix_len_all(a.skip(1), not_quote_p());
        assert(k + 1 != a.len());
        assert(a.skip(1)[k] == '"');
        assert(u.skip(1) =~= a.skip(1) + ext);
        assert forall|q: int| 0 <= q < k implies not_quote_p()(u.skip(1)[q]) by {
            assert(u.skip(1)[q] == a.skip(1)[q]);
        }
        assert(u.skip(1)[k] == a.skip(1)[k]);
        lemma_prefix_len_is(u.skip(1), not_quote_p(), k);
        assert(u.subrange(1, k + 1) =~= a.subrange(1, k + 1));
    } else if is_digit(c) {
        let k = prefix_len(a.skip(1), number_char_p()) as int;
        lemma_prefix_len_all(a.skip(1), number_char_p());
        assert(u.skip(1) =~= a.skip(1) + ext);
        assert forall|q: int| 0 <= q < k implies number_char_p()(u.skip(1)[q]) by {
            assert(u.skip(1)[q] == a.skip(1)[q]);
        }
        if k < a.len() - 1 {
            assert(u.skip(1)[k] == a.skip(1)[k]);
        } else {
            assert(u.skip(1)[k] == ext[0]);
        }
        assert(!number_char_p()(u.skip(1)[k]));
        lemma_prefix_len_is(u.skip(1), number_char_p(), k);
        assert(u.subrange(0, k + 1) =~= a.subrange(0, k + 1));
    } else if is_word_start(c) {
        let k = prefix_len(a.skip(1), word_char_p()) as int;
        lemma_prefix_len_all(a.skip(1), word_char_p());
        assert(u.skip(1) =~= a.skip(1) + ext);
        assert forall|q: int| 0 <= q < k implies word_char_p()(u.skip(1)[q]) by {
            assert(u.skip(1)[q] == a.skip(1)[q]);
        }
        if k < a.len() - 1 {
            assert(u.skip(1)[k] == a.skip(1)[k]);
        } else {
            assert(u.skip(1)[k] == ext[0]);
        }
        assert(!word_char_p()(u.skip(1)[k]));
        lemma_prefix_len_is(u.skip(1), word_char_p(), k);
        assert(u.subrange(0, k + 1) =~= a.subrange(0, k + 1));
    }
}

/// Whitespace invariance: inserting a non-empty run of space, tab or
/// newline behind a cleanly tokenized text never changes the tokens — the
/// whole input scans to that text's tokens followed by whatever the rest
/// scans to. Texts holding a comment opener `//` are excluded: a comment
/// reaching the end of the text would swallow the insertion.
pub proof fn lemma_whitespace_insertion(a: Seq<char>, w: Seq<char>, b: Seq<char>)
    requires
        spec_tokenize(a) is Ok,
        w.len() > 0,
        is_ws_run(w),
        !has_comment_start(a),
    ensures
        spec_tokenize(a + w + b) == ok_prepend(spec_tokenize(a)->Ok_0, spec_tokenize(b)),
    decreases a.len(),
{
    if a.len() == 0 {
        assert(a + w + b =~= w + b);
        lemma_whitespace_prefix(w, b);
        assert(spec_tokenize(a) == Ok::<Seq<SpecToken>, ScanError>(Seq::<SpecToken>::empty()));
        match spec_tokenize(b) {
            Ok(tb) => {
                assert(Seq::<SpecToken>::empty() + tb =~= tb);
            },
            Err(e) => {},
        }
    } else {
        lemma_scan_step_bounds(a);
        let n = scan_step(a).0 as int;
        let out = scan_step(a).1;
        let rest = a.skip(n);
        assert(spec_tokenize(a) == match out {
            Err(e) => Err(e),
            Ok(opt) => match spec_tokenize(rest) {
                Err(e) => Err(e),
                Ok(rs) => Ok(
                    match opt {
                        Some(t) => seq![t] + rs,
                        None => rs,
                    },
                ),
            },
        });
        assert(!(a.len() > 1 && a[0] == '/' && a[1] == '/')) by {
            if a.len() > 1 && a[0] == '/' && a[1] == '/' {
                assert(0 <= 0 < a.len() - 1 && a[0] == '/' && a[1] == '/');
                assert(has_comment_start(a));
            }
        }
        lemma_step_extend(a, w + b);
        assert((w + b)[0] == w[0]);
        let u = a + w + b;
        assert(u =~= a + (w + b));
        assert(u.skip(n) =~= rest + w + b);
        assert(!has_comment_start(rest)) by {
            if has_comment_start(rest) {
                let k = choose|k: int|
                    0 <= k < rest.len() - 1 && #[trigger] rest[k] == '/' && rest[k + 1] == '/';
                assert(rest[k] == a[k + n] && rest[k + 1] == a[k + n + 1]);
                assert(has_comment_start(a));
            }
        }
        lemma_whitespace_insertion(rest, w, b);
        assert(spec_tokenize(u) == match scan_step(u).1 {
            Err(e) => Err(e),
            Ok(opt) => match spec_tokenize(u.skip(n)) {
                Err(e) => Err(e),
                Ok(rs) => Ok(
                    match opt {
                        Some(t) => seq![t] + rs,
                        None => rs,
                    },
                ),
            },
        });
        let tr = spec_tokenize(rest)->Ok_0;
        match out {
            Ok(opt) => match opt {
                Some(t) => {
                    match spec_tokenize(b) {
                        Ok(tb) => {
                            assert(seq![t] + (tr + tb) =~= (seq![t] + tr) + tb);
                        },
                        Err(e) => {},
                    }
                },
                None => {},
            },
            Err(e) => {
                assert(false);
            },
        }
    }
}

/// Keyword/identifier partition: a whole word scans to exactly one token,
/// and [`spec_keyword`] says which — the matching keyword token for the
/// thirteen words of the table, an identifier token carrying the exact
/// text for every other word.
pub proof fn lemma_keyword_identifier_partition(w: Seq<char>)
    requires
        w.len() > 0,
        is_word_start(w[0]),
        forall|k: int| 1 <= k < w.len() ==> is_word_char(w[k]),
    ensures
        spec_tokenize(w) == Ok::<Seq<SpecToken>, ScanError>(seq![spec_keyword(w)]),
{
    let s1 = w.skip(1);
    assert forall|k: int| 0 <= k < w.len() - 1 implies word_char_p()(s1[k]) by {
        assert(s1[k] == w[k + 1]);
    }
    lemma_prefix_len_is(s1, word_char_p(), w.len() - 1);
    assert(w.subrange(0, w.len() as int) =~= w);
    assert(scan_step(w).0 == w.len() && scan_step(w).1 == Ok::<Option<SpecToken>, ScanError>(
        Some(spec_keyword(w)),
    ));
    assert(w.skip(w.len() as int) =~= Seq::<char>::empty());
    assert(spec_tokenize(Seq::<char>::empty()) == Ok::<Seq<SpecToken>, ScanError>(
        Seq::<SpecToken>::empty(),
    ));
    assert(seq![spec_keyword(w)] + Seq::<SpecToken>::empty() =~= seq![spec_keyword(w)]);
}

} // verus!
