//! The tokenizer: turns raw source text into a token sequence with
//! byte-accurate source offsets, or fails with a [`TokenizeError`].
//!
//! The whole behaviour is captured by the spec function [`spec_tokenize`]:
//! a single left-to-right scan with one character of lookahead. Bracket
//! groups are tokenized recursively and the offsets of the inner tokens are
//! re-based onto the outer document.

use vstd::prelude::*;

use crate::text::dec_seq;
use crate::token::{Token, TokenModel, token_model, tokens_model, lemma_tokens_model, token_wf, tokens_wf, lemma_tokens_wf_push, lemma_tokens_wf_index, lemma_tokens_model_push};
use crate::tokenize_error::{
    TokenizeError, TokenizeErrorModel, incorrect_char_msg, incorrect_string_msg,
    incorrect_brackets_msg, incorrect_char_error, incorrect_string_error, incorrect_brackets_error,
};

verus! {

/// The characters with the Unicode `White_Space` property: exactly the
/// characters on which `char::is_whitespace` returns true.
pub open spec fn is_space(c: char) -> bool {
    c == '\u{9}' || c == '\u{A}' || c == '\u{B}' || c == '\u{C}' || c == '\u{D}' || c == ' '
        || c == '\u{85}' || c == '\u{A0}' || c == '\u{1680}' || c == '\u{2000}' || c == '\u{2001}'
        || c == '\u{2002}' || c == '\u{2003}' || c == '\u{2004}' || c == '\u{2005}'
        || c == '\u{2006}' || c == '\u{2007}' || c == '\u{2008}' || c == '\u{2009}'
        || c == '\u{200A}' || c == '\u{2028}' || c == '\u{2029}' || c == '\u{202F}'
        || c == '\u{205F}' || c == '\u{3000}'
}

/// The partner of a bracket character, `None` for any other character.
pub open spec fn spec_rev_bracket(c: char) -> Option<char> {
    if c == '(' {
        Some(')')
    } else if c == '[' {
        Some(']')
    } else if c == '{' {
        Some('}')
    } else if c == ')' {
        Some('(')
    } else if c == ']' {
        Some('[')
    } else if c == '}' {
        Some('{')
    } else {
        None
    }
}

/// Whether `c` is an opening bracket.
pub open spec fn is_opener(c: char) -> bool {
    c == '(' || c == '[' || c == '{'
}

/// Whether `c` may stand in a bareword. Alphanumeric characters, `.` and
/// `_` are always allowed; a handful of punctuation characters are allowed
/// only when they do not start the bareword.
pub open spec fn spec_is_normal_char(c: char, first: bool) -> bool {
    ('a' <= c && c <= 'z') || ('A' <= c && c <= 'Z') || ('0' <= c && c <= '9') || c == '.' || c
        == '_' || (!first && (c == '-' || c == ';' || c == '(' || c == ')' || c == '=' || c == '>'
        || c == '<' || c == ':'))
}

/// The index of the quote closing a string literal whose content starts at
/// `i`, or `None` if the input ends first.
pub open spec fn string_close(t: Seq<char>, i: int) -> Option<int>
    decreases t.len() - i,
{
    if i < 0 || i >= t.len() {
        None
    } else if t[i] == '"' {
        Some(i)
    } else {
        string_close(t, i + 1)
    }
}

/// The index at which the bracket stack `stack`, scanned from position `i`,
/// first becomes empty: a closing bracket matching the top of the stack pops
/// it, any other bracket character is pushed, and every other character is
/// skipped. `None` if the input ends with the stack still occupied.
pub open spec fn group_close(t: Seq<char>, i: int, stack: Seq<char>) -> Option<int>
    decreases t.len() - i,
{
    if i < 0 || i >= t.len() || stack.len() == 0 {
        None
    } else {
        match spec_rev_bracket(t[i]) {
            Some(rev) => if stack[stack.len() - 1] == rev {
                if stack.len() == 1 {
                    Some(i)
                } else {
                    group_close(t, i + 1, stack.drop_last())
                }
            } else {
                group_close(t, i + 1, stack.push(t[i]))
            },
            None => group_close(t, i + 1, stack),
        }
    }
}

pub proof fn lemma_string_close_bounds(t: Seq<char>, i: int)
    ensures
        string_close(t, i) matches Some(c) ==> i <= c < t.len(),
    decreases t.len() - i,
{
    if 0 <= i < t.len() && t[i] != '"' {
        lemma_string_close_bounds(t, i + 1);
    }
}

pub proof fn lemma_group_close_bounds(t: Seq<char>, i: int, stack: Seq<char>)
    ensures
        group_close(t, i, stack) matches Some(c) ==> i <= c < t.len() && spec_rev_bracket(t[c])
            is Some,
    decreases t.len() - i,
{
    if 0 <= i < t.len() && stack.len() > 0 {
        match spec_rev_bracket(t[i]) {
            Some(rev) => if stack[stack.len() - 1] == rev {
                if stack.len() > 1 {
                    lemma_group_close_bounds(t, i + 1, stack.drop_last());
                }
            } else {
                lemma_group_close_bounds(t, i + 1, stack.push(t[i]));
            },
            None => lemma_group_close_bounds(t, i + 1, stack),
        }
    }
}

/// The token `tm` with every offset, inner tokens included, moved forward
/// by `off`.
pub open spec fn shift_token(tm: TokenModel, off: int) -> TokenModel
    decreases tm, 0int,
{
    match tm {
        TokenModel::Text { begin, end, value } => TokenModel::Text {
            begin: begin + off,
            end: end + off,
            value,
        },
        TokenModel::Parentheses { begin, end, tokens } => TokenModel::Parentheses {
            begin: begin + off,
            end: end + off,
            tokens: shift_tokens(tokens, off),
        },
        TokenModel::SquareBrackets { begin, end, tokens } => TokenModel::SquareBrackets {
            begin: begin + off,
            end: end + off,
            tokens: shift_tokens(tokens, off),
        },
        TokenModel::CurlyBrackets { begin, end, tokens } => TokenModel::CurlyBrackets {
            begin: begin + off,
            end: end + off,
            tokens: shift_tokens(tokens, off),
        },
        TokenModel::Other { begin, end, value } => TokenModel::Other {
            begin: begin + off,
            end: end + off,
            value,
        },
    }
}

/// Every token of `s` shifted forward by `off`.
pub open spec fn shift_tokens(s: Seq<TokenModel>, off: int) -> Seq<TokenModel>
    decreases s, 1int,
{
    if s.len() == 0 {
        Seq::empty()
    } else {
        shift_tokens(s.subrange(0, s.len() - 1), off).push(shift_token(s[s.len() - 1], off))
    }
}

pub proof fn lemma_shift_tokens(s: Seq<TokenModel>, off: int)
    ensures
        shift_tokens(s, off).len() == s.len(),
        forall|i: int| 0 <= i < s.len() ==> shift_tokens(s, off)[i] == shift_token(s[i], off),
    decreases s.len(),
{
    if s.len() > 0 {
        lemma_shift_tokens(s.subrange(0, s.len() - 1), off);
    }
}

/// One step of the scan. `t` is the whole input, `i` the scan position, `b`
/// the start of the bareword being accumulated (`b == i` when none is), and
/// `acc` the tokens already emitted. The bareword accumulated so far is
/// always `t[b..i]`.
pub open spec fn tokenize_from(t: Seq<char>, i: int, b: int, acc: Seq<TokenModel>) -> Result<
    Seq<TokenModel>,
    TokenizeErrorModel,
>
    decreases t.len(), t.len() - i,
    via tokenize_from_dec
{
    if i >= t.len() {
        if b < i {
            Ok(acc.push(TokenModel::Other { begin: b, end: i - 1, value: t.subrange(b, i) }))
        } else {
            Ok(acc)
        }
    } else {
        let c = t[i];
        if is_space(c) {
            if b < i {
                tokenize_from(
                    t,
                    i + 1,
                    i + 1,
                    acc.push(TokenModel::Other { begin: b, end: i - 1, value: t.subrange(b, i) }),
                )
            } else {
                tokenize_from(t, i + 1, i + 1, acc)
            }
        } else if c == '"' {
            if b < i {
                Err(TokenizeErrorModel::IncorrectChar {
                    message: incorrect_char_msg(seq![c], i),
                    wrong_string: t.subrange(b, i),
                    offset: i,
                })
            } else {
                match string_close(t, i + 1) {
                    Some(close) => tokenize_from(
                        t,
                        close + 1,
                        close + 1,
                        acc.push(
                            TokenModel::Text {
                                begin: i,
                                end: close,
                                value: t.subrange(i + 1, close),
                            },
                        ),
                    ),
                    None => Err(TokenizeErrorModel::IncorrectString {
                        message: incorrect_string_msg(i, t.len() as int),
                        begin: i,
                        end: t.len() as int,
                        wrong_string: t.subrange(i + 1, t.len() as int),
                    }),
                }
            }
        } else if is_opener(c) {
            if b < i {
                Err(TokenizeErrorModel::IncorrectChar {
                    message: incorrect_char_msg(seq![c], i),
                    wrong_string: t.subrange(b, i),
                    offset: i,
                })
            } else {
                match group_close(t, i + 1, seq![c]) {
                    Some(close) => match spec_tokenize(t.subrange(i + 1, close)) {
                        Ok(sub) => {
                            let shifted = shift_tokens(sub, i + 1);
                            let tok = if c == '(' {
                                TokenModel::Parentheses { begin: i, end: close, tokens: shifted }
                            } else if c == '[' {
                                TokenModel::SquareBrackets { begin: i, end: close, tokens: shifted }
                            } else {
                                TokenModel::CurlyBrackets { begin: i, end: close, tokens: shifted }
                            };
                            tokenize_from(t, close + 1, close + 1, acc.push(tok))
                        },
                        Err(e) => Err(e.shifted(i + 1)),
                    },
                    None => Err(TokenizeErrorModel::IncorrectBrackets {
                        message: incorrect_brackets_msg(i, t.len() as int),
                        begin: i,
                        end: t.len() as int,
                        wrong_string: t.subrange(i + 1, t.len() as int),
                    }),
                }
            }
        } else if spec_is_normal_char(c, b == i && (i == 0 || is_space(t[i - 1]))) {
            tokenize_from(t, i + 1, b, acc)
        } else {
            Err(TokenizeErrorModel::IncorrectChar {
                message: incorrect_char_msg(seq![c], i),
                wrong_string: t.subrange(b, i),
                offset: i,
            })
        }
    }
}

#[via_fn]
proof fn tokenize_from_dec(t: Seq<char>, i: int, b: int, acc: Seq<TokenModel>) {
    lemma_string_close_bounds(t, i + 1);
    lemma_group_close_bounds(t, i + 1, seq![t[i]]);
}

/// What tokenizing a whole text yields: the token sequence, or the first
/// lexical error in document order.
#[verifier::opaque]
pub open spec fn spec_tokenize(t: Seq<char>) -> Result<Seq<TokenModel>, TokenizeErrorModel>
    decreases t.len(), t.len() + 1,
{
    tokenize_from(t, 0, 0, Seq::empty())
}

/// Shifting a well-formed token moves its window with it.
pub proof fn lemma_shift_token_wf(tm: TokenModel, lo: int, hi: int, off: int)
    requires
        token_wf(tm, lo, hi),
    ensures
        token_wf(shift_token(tm, off), lo + off, hi + off),
    decreases tm, 0int,
{
    match tm {
        TokenModel::Parentheses { begin, end, tokens } => {
            lemma_shift_tokens_wf(tokens, begin + 1, end, off);
        },
        TokenModel::SquareBrackets { begin, end, tokens } => {
            lemma_shift_tokens_wf(tokens, begin + 1, end, off);
        },
        TokenModel::CurlyBrackets { begin, end, tokens } => {
            lemma_shift_tokens_wf(tokens, begin + 1, end, off);
        },
        _ => {},
    }
}

/// Shifting a well-formed token sequence moves its window with it.
pub proof fn lemma_shift_tokens_wf(s: Seq<TokenModel>, lo: int, hi: int, off: int)
    requires
        tokens_wf(s, lo, hi),
    ensures
        tokens_wf(shift_tokens(s, off), lo + off, hi + off),
    decreases s, 1int,
{
    if s.len() > 0 {
        let prefix = s.subrange(0, s.len() - 1);
        lemma_shift_tokens_wf(prefix, lo, hi, off);
        lemma_shift_token_wf(s[s.len() - 1], lo, hi, off);
        let r = shift_tokens(s, off);
        assert(r.subrange(0, r.len() - 1) =~= shift_tokens(prefix, off));
        lemma_shift_tokens(prefix, off);
        lemma_shift_tokens(s, off);
        if s.len() >= 2 {
            assert(prefix[prefix.len() - 1] == s[s.len() - 2]);
        }
    }
}

/// Every token sequence the scan can return is well-formed within the
/// input's bounds, and every error it can return carries offsets within the
/// input's bounds.
pub proof fn lemma_tokenize_from_wf(t: Seq<char>, i: int, b: int, acc: Seq<TokenModel>)
    requires
        0 <= b <= i <= t.len(),
        tokens_wf(acc, 0, t.len() as int),
        acc.len() > 0 ==> acc[acc.len() - 1].end() < b,
    ensures
        match tokenize_from(t, i, b, acc) {
            Ok(res) => tokens_wf(res, 0, t.len() as int),
            Err(e) => e.in_range(t.len() as int),
        },
    decreases t.len(), t.len() - i,
{
    reveal(spec_tokenize);
    let n = t.len() as int;
    if i >= n {
        if b < i {
            let tok = TokenModel::Other { begin: b, end: i - 1, value: t.subrange(b, i) };
            lemma_tokens_wf_push(acc, tok, 0, n);
        }
    } else {
        let c = t[i];
        if is_space(c) {
            if b < i {
                let tok = TokenModel::Other { begin: b, end: i - 1, value: t.subrange(b, i) };
                lemma_tokens_wf_push(acc, tok, 0, n);
                lemma_tokenize_from_wf(t, i + 1, i + 1, acc.push(tok));
            } else {
                lemma_tokenize_from_wf(t, i + 1, i + 1, acc);
            }
        } else if c == '"' {
            if b >= i {
                match string_close(t, i + 1) {
                    Some(close) => {
                        lemma_string_close_bounds(t, i + 1);
                        let tok = TokenModel::Text {
                            begin: i,
                            end: close,
                            value: t.subrange(i + 1, close),
                        };
                        lemma_tokens_wf_push(acc, tok, 0, n);
                        lemma_tokenize_from_wf(t, close + 1, close + 1, acc.push(tok));
                    },
                    None => {},
                }
            }
        } else if is_opener(c) {
            if b >= i {
                match group_close(t, i + 1, seq![c]) {
                    Some(close) => {
                        lemma_group_close_bounds(t, i + 1, seq![c]);
                        let sub = t.subrange(i + 1, close);
                        lemma_spec_tokenize_wf(sub);
                        match spec_tokenize(sub) {
                            Ok(inner) => {
                                lemma_shift_tokens_wf(inner, 0, sub.len() as int, i + 1);
                                let shifted = shift_tokens(inner, i + 1);
                                let tok = if c == '(' {
                                    TokenModel::Parentheses { begin: i, end: close, tokens: shifted }
                                } else if c == '[' {
                                    TokenModel::SquareBrackets {
                                        begin: i,
                                        end: close,
                                        tokens: shifted,
                                    }
                                } else {
                                    TokenModel::CurlyBrackets {
                                        begin: i,
                                        end: close,
                                        tokens: shifted,
                                    }
                                };
                                lemma_tokens_wf_push(acc, tok, 0, n);
                                lemma_tokenize_from_wf(t, close + 1, close + 1, acc.push(tok));
                            },
                            Err(_) => {},
                        }
                    },
                    None => {},
                }
            }
        } else if spec_is_normal_char(c, b == i && (i == 0 || is_space(t[i - 1]))) {
            lemma_tokenize_from_wf(t, i + 1, b, acc);
        } else {
        }
    }
}

/// Bounds for the whole-input scan: see [`lemma_tokenize_from_wf`].
pub proof fn lemma_spec_tokenize_wf(t: Seq<char>)
    ensures
        match spec_tokenize(t) {
            Ok(res) => tokens_wf(res, 0, t.len() as int),
            Err(e) => e.in_range(t.len() as int),
        },
    decreases t.len(), t.len() + 1,
{
    reveal(spec_tokenize);
    lemma_tokenize_from_wf(t, 0, 0, Seq::empty());
}

/// Whether `c` is legal in a bareword wherever it stands: alphanumeric,
/// `.` or `_`.
pub open spec fn plain_char(c: char) -> bool {
    ('a' <= c && c <= 'z') || ('A' <= c && c <= 'Z') || ('0' <= c && c <= '9') || c == '.' || c
        == '_'
}

/// Whether every character of `t` is whitespace or legal in a bareword
/// wherever it stands.
pub open spec fn plain_text(t: Seq<char>) -> bool {
    forall|i: int| 0 <= i < t.len() ==> is_space(#[trigger] t[i]) || plain_char(t[i])
}

proof fn lemma_tokenize_from_plain(t: Seq<char>, i: int, b: int, acc: Seq<TokenModel>)
    requires
        plain_text(t),
        0 <= b <= i <= t.len(),
    ensures
        tokenize_from(t, i, b, acc) is Ok,
    decreases t.len() - i,
{
    if i < t.len() {
        let c = t[i];
        assert(is_space(c) || plain_char(c));
        if is_space(c) {
            if b < i {
                lemma_tokenize_from_plain(
                    t,
                    i + 1,
                    i + 1,
                    acc.push(TokenModel::Other { begin: b, end: i - 1, value: t.subrange(b, i) }),
                );
            } else {
                lemma_tokenize_from_plain(t, i + 1, i + 1, acc);
            }
        } else {
            lemma_tokenize_from_plain(t, i + 1, b, acc);
        }
    }
}

/// Law: the tokenizer never fails on text whose characters are all
/// whitespace or characters that are legal in a bareword wherever they
/// stand (alphanumeric, `.`, `_`). Together with
/// [`lemma_spec_tokenize_wf`] — every returned token sequence keeps its
/// offsets within the input's bounds and in strict document order — this
/// pins down the tokenizer's total behaviour on plain text.
pub proof fn lemma_plain_text_tokenizes(t: Seq<char>)
    requires
        plain_text(t),
    ensures
        spec_tokenize(t) is Ok,
{
    reveal(spec_tokenize);
    lemma_tokenize_from_plain(t, 0, 0, Seq::empty());
}

/// Whether `c` is one of the punctuation characters that are legal in a
/// bareword only away from its first position, brackets aside.
pub open spec fn suffix_char(c: char) -> bool {
    c == '-' || c == ';' || c == '=' || c == '>' || c == '<' || c == ':'
}

/// Whether the text from position `i` on is lexically calm: every character
/// is whitespace, a legal bareword character standing at a legal position,
/// or a balanced bracket group whose inner text is itself calm. `e` says
/// whether no bareword is open at `i`, and `fp` whether a bareword starting
/// at `i` would be at its first position (so that the conditionally-legal
/// punctuation may not stand there).
pub open spec fn calm(t: Seq<char>, i: int, e: bool, fp: bool) -> bool
    decreases t.len(), t.len() - i,
    via calm_dec
{
    if i >= t.len() {
        true
    } else {
        let c = t[i];
        if is_space(c) {
            calm(t, i + 1, true, true)
        } else if plain_char(c) {
            calm(t, i + 1, false, false)
        } else if suffix_char(c) {
            !fp && calm(t, i + 1, false, false)
        } else if is_opener(c) {
            e && match group_close(t, i + 1, seq![c]) {
                Some(close) => calm(t.subrange(i + 1, close), 0, true, true) && calm(
                    t,
                    close + 1,
                    true,
                    false,
                ),
                None => false,
            }
        } else {
            false
        }
    }
}

#[via_fn]
proof fn calm_dec(t: Seq<char>, i: int, e: bool, fp: bool) {
    lemma_group_close_bounds(t, i + 1, seq![t[i]]);
}

proof fn lemma_calm_tokenize_from(t: Seq<char>, i: int, b: int, acc: Seq<TokenModel>)
    requires
        0 <= b <= i <= t.len(),
        calm(t, i, b == i, b == i && (i == 0 || is_space(t[i - 1]))),
    ensures
        tokenize_from(t, i, b, acc) is Ok,
    decreases t.len(), t.len() - i,
{
    if i < t.len() {
        let c = t[i];
        if is_space(c) {
            if b < i {
                lemma_calm_tokenize_from(
                    t,
                    i + 1,
                    i + 1,
                    acc.push(TokenModel::Other { begin: b, end: i - 1, value: t.subrange(b, i) }),
                );
            } else {
                lemma_calm_tokenize_from(t, i + 1, i + 1, acc);
            }
        } else if is_opener(c) {
            lemma_group_close_bounds(t, i + 1, seq![c]);
            match group_close(t, i + 1, seq![c]) {
                Some(close) => {
                    let sub = t.subrange(i + 1, close);
                    reveal(spec_tokenize);
                    lemma_calm_tokenize_from(sub, 0, 0, Seq::empty());
                    assert(!is_space(t[close]));
                    match spec_tokenize(sub) {
                        Ok(inner) => {
                            let shifted = shift_tokens(inner, i + 1);
                            let tok = if c == '(' {
                                TokenModel::Parentheses { begin: i, end: close, tokens: shifted }
                            } else if c == '[' {
                                TokenModel::SquareBrackets { begin: i, end: close, tokens: shifted }
                            } else {
                                TokenModel::CurlyBrackets { begin: i, end: close, tokens: shifted }
                            };
                            lemma_calm_tokenize_from(t, close + 1, close + 1, acc.push(tok));
                        },
                        Err(_) => {},
                    }
                },
                None => {},
            }
        } else if plain_char(c) || suffix_char(c) {
            lemma_calm_tokenize_from(t, i + 1, b, acc);
        } else {
        }
    }
}

/// Law: the tokenizer never fails on lexically calm text — text whose
/// characters are whitespace or legal bareword characters at legal
/// positions and whose bracket groups are all balanced, with calm inner
/// text. This extends [`lemma_plain_text_tokenizes`] to bracketed input.
pub proof fn lemma_calm_text_tokenizes(t: Seq<char>)
    requires
        calm(t, 0, true, true),
    ensures
        spec_tokenize(t) is Ok,
{
    reveal(spec_tokenize);
    lemma_calm_tokenize_from(t, 0, 0, Seq::empty());
}

/// Whether `c` has the Unicode `White_Space` property.
fn char_is_space(c: char) -> (r: bool)
    ensures
        r == is_space(c),
{
    c == '\u{9}' || c == '\u{A}' || c == '\u{B}' || c == '\u{C}' || c == '\u{D}' || c == ' '
        || c == '\u{85}' || c == '\u{A0}' || c == '\u{1680}' || c == '\u{2000}' || c == '\u{2001}'
        || c == '\u{2002}' || c == '\u{2003}' || c == '\u{2004}' || c == '\u{2005}'
        || c == '\u{2006}' || c == '\u{2007}' || c == '\u{2008}' || c == '\u{2009}'
        || c == '\u{200A}' || c == '\u{2028}' || c == '\u{2029}' || c == '\u{202F}'
        || c == '\u{205F}' || c == '\u{3000}'
}

/// The tokenizer. See [`Tokenizer::parse`].
pub struct Tokenizer;

impl Tokenizer {
    /// Parses the syntax tokens of `text`.
    ///
    /// The result is exactly what [`spec_tokenize`] says of the input: the
    /// token sequence of a single left-to-right scan, or the first lexical
    /// error in document order.
    pub fn parse(text: &str) -> (r: Result<Vec<Token>, TokenizeError>)
        ensures
            match r {
                Ok(tokens) => spec_tokenize(text@) == Ok::<Seq<TokenModel>, TokenizeErrorModel>(
                    tokens_model(tokens@),
                ),
                Err(e) => spec_tokenize(text@) == Err::<Seq<TokenModel>, TokenizeErrorModel>(e@),
            },
        decreases text@.len(),
    {
        let ghost t = text@;
        let n = text.unicode_len();
        let mut tokens: Vec<Token> = Vec::new();
        let mut b: usize = 0;
        let mut i: usize = 0;
        proof {
            reveal(spec_tokenize);
            assert(tokens_model(tokens@) =~= Seq::<TokenModel>::empty());
        }
        while i < n
            invariant
                t == text@,
                n == t.len(),
                b <= i <= n,
                tokenize_from(t, i as int, b as int, tokens_model(tokens@)) == spec_tokenize(t),
            decreases n - i,
        {
            let c = text.get_char(i);
            if char_is_space(c) {
                if b < i {
                    let value = String::from_str(text.substring_char(b, i));
                    let tok = Token::Other { begin: b, end: i - 1, value };
                    proof {
                        lemma_tokens_model_push(tokens@, tok);
                    }
                    tokens.push(tok);
                }
                b = i + 1;
                i = i + 1;
            } else if c == '"' {
                if b < i {
                    let w = String::from_str(text.substring_char(b, i));
                    let cs = text.substring_char(i, i + 1);
                    proof {
                        assert(t.subrange(i as int, i as int + 1) =~= seq![t[i as int]]);
                    }
                    return Err(incorrect_char_error(cs, i, w));
                }
                match Self::find_string_close(text, i + 1, n) {
                    Some(close) => {
                        let value = String::from_str(text.substring_char(i + 1, close));
                        let tok = Token::Text { begin: i, end: close, value };
                        proof {
                            lemma_tokens_model_push(tokens@, tok);
                        }
                        tokens.push(tok);
                        b = close + 1;
                        i = close + 1;
                    },
                    None => {
                        let w = String::from_str(text.substring_char(i + 1, n));
                        return Err(incorrect_string_error(i, n, w));
                    },
                }
            } else if c == '(' || c == '[' || c == '{' {
                if b < i {
                    let w = String::from_str(text.substring_char(b, i));
                    let cs = text.substring_char(i, i + 1);
                    proof {
                        assert(t.subrange(i as int, i as int + 1) =~= seq![t[i as int]]);
                    }
                    return Err(incorrect_char_error(cs, i, w));
                }
                match Self::find_group_close(text, i + 1, n, c) {
                    Some(close) => {
                        let sub = text.substring_char(i + 1, close);
                        proof {
                            reveal(spec_tokenize);
                            lemma_spec_tokenize_wf(sub@);
                        }
                        match Self::parse(sub) {
                            Ok(sub_tokens) => {
                                let shifted = Self::inc_tokens_offsets(
                                    sub_tokens,
                                    i + 1,
                                    Ghost(sub@.len() as int),
                                );
                                let tok = if c == '(' {
                                    Token::Parentheses { begin: i, end: close, tokens: shifted }
                                } else if c == '[' {
                                    Token::SquareBrackets { begin: i, end: close, tokens: shifted }
                                } else {
                                    Token::CurlyBrackets { begin: i, end: close, tokens: shifted }
                                };
                                proof {
                                    lemma_tokens_model_push(tokens@, tok);
                                }
                                tokens.push(tok);
                                b = close + 1;
                                i = close + 1;
                            },
                            Err(e) => {
                                return Err(e.offset(i + 1));
                            },
                        }
                    },
                    None => {
                        let w = String::from_str(text.substring_char(i + 1, n));
                        return Err(incorrect_brackets_error(i, n, w));
                    },
                }
            } else {
                let first = b == i && (i == 0 || char_is_space(text.get_char(i - 1)));
                if Self::is_normal_char(c, first) {
                    i = i + 1;
                } else {
                    let w = String::from_str(text.substring_char(b, i));
                    let cs = text.substring_char(i, i + 1);
                    proof {
                        assert(t.subrange(i as int, i as int + 1) =~= seq![t[i as int]]);
                    }
                    return Err(incorrect_char_error(cs, i, w));
                }
            }
        }
        if b < n {
            let value = String::from_str(text.substring_char(b, n));
            let tok = Token::Other { begin: b, end: n - 1, value };
            proof {
                lemma_tokens_model_push(tokens@, tok);
            }
            tokens.push(tok);
        }
        Ok(tokens)
    }
    /// The partner of a bracket character.
    pub(crate) fn get_rev_bracket(bracket: char) -> (r: Option<char>)
        ensures
            r == spec_rev_bracket(bracket),
    {
        match bracket {
            '(' => Some(')'),
            '[' => Some(']'),
            '{' => Some('}'),
            ')' => Some('('),
            ']' => Some('['),
            '}' => Some('{'),
            _ => None,
        }
    }

    /// Whether `c` may stand in a bareword, `first` saying whether it would
    /// be the bareword's first character.
    pub(crate) fn is_normal_char(c: char, first: bool) -> (r: bool)
        ensures
            r == spec_is_normal_char(c, first),
    {
        ('a' <= c && c <= 'z') || ('A' <= c && c <= 'Z') || ('0' <= c && c <= '9') || c == '.' || c
            == '_' || (!first && (c == '-' || c == ';' || c == '(' || c == ')' || c == '=' || c
            == '>' || c == '<' || c == ':'))
    }

    /// Scans for the quote that closes a string literal whose content
    /// starts at `start`.
    fn find_string_close(text: &str, start: usize, n: usize) -> (r: Option<usize>)
        requires
            n == text@.len(),
            start <= n,
        ensures
            match r {
                Some(j) => string_close(text@, start as int) == Some(j as int) && start <= j < n,
                None => string_close(text@, start as int) is None,
            },
    {
        let ghost t = text@;
        let mut j = start;
        while j < n
            invariant
                n == t.len(),
                t == text@,
                start <= j <= n,
                string_close(t, start as int) == string_close(t, j as int),
            decreases n - j,
        {
            if text.get_char(j) == '"' {
                return Some(j);
            }
            j = j + 1;
        }
        None
    }

    /// Scans for the position at which the bracket group opened by `opener`
    /// just before `start` is closed.
    fn find_group_close(text: &str, start: usize, n: usize, opener: char) -> (r: Option<usize>)
        requires
            n == text@.len(),
            start <= n,
        ensures
            match r {
                Some(j) => group_close(text@, start as int, seq![opener]) == Some(j as int) && start
                    <= j < n,
                None => group_close(text@, start as int, seq![opener]) is None,
            },
    {
        let ghost t = text@;
        let mut stack: Vec<char> = Vec::new();
        stack.push(opener);
        proof {
            assert(stack@ =~= seq![opener]);
        }
        let mut j = start;
        while j < n
            invariant
                n == t.len(),
                t == text@,
                start <= j <= n,
                stack@.len() >= 1,
                group_close(t, start as int, seq![opener]) == group_close(t, j as int, stack@),
            decreases n - j,
        {
            let d = text.get_char(j);
            let ghost prev_stack = stack@;
            if let Some(rev) = Self::get_rev_bracket(d) {
                if stack[stack.len() - 1] == rev {
                    let _ = stack.pop();
                    if stack.len() == 0 {
                        return Some(j);
                    }
                    proof {
                        assert(stack@ =~= prev_stack.drop_last());
                    }
                } else {
                    stack.push(d);
                    proof {
                        assert(stack@ =~= prev_stack.push(d));
                    }
                }
            }
            j = j + 1;
        }
        None
    }

    /// One token with every offset moved forward by `offset`.
    fn inc_token(tok: &Token, offset: usize, Ghost(lo): Ghost<int>, Ghost(hi): Ghost<int>) -> (r:
        Token)
        requires
            token_wf(token_model(*tok), lo, hi),
            offset + hi <= usize::MAX,
        ensures
            token_model(r) == shift_token(token_model(*tok), offset as int),
        decreases tok,
    {
        match tok {
            Token::Text { begin, end, value } => Token::Text {
                begin: *begin + offset,
                end: *end + offset,
                value: value.clone(),
            },
            Token::Other { begin, end, value } => Token::Other {
                begin: *begin + offset,
                end: *end + offset,
                value: value.clone(),
            },
            Token::Parentheses { begin, end, tokens } => {
                let moved = Self::inc_vec(tokens, offset, Ghost(*begin + 1), Ghost(*end as int));
                Token::Parentheses { begin: *begin + offset, end: *end + offset, tokens: moved }
            },
            Token::SquareBrackets { begin, end, tokens } => {
                let moved = Self::inc_vec(tokens, offset, Ghost(*begin + 1), Ghost(*end as int));
                Token::SquareBrackets { begin: *begin + offset, end: *end + offset, tokens: moved }
            },
            Token::CurlyBrackets { begin, end, tokens } => {
                let moved = Self::inc_vec(tokens, offset, Ghost(*begin + 1), Ghost(*end as int));
                Token::CurlyBrackets { begin: *begin + offset, end: *end + offset, tokens: moved }
            },
        }
    }

    /// Every token of `tokens` with its offsets moved forward by `offset`.
    fn inc_vec(tokens: &Vec<Token>, offset: usize, Ghost(lo): Ghost<int>, Ghost(hi): Ghost<
        int,
    >) -> (r: Vec<Token>)
        requires
            tokens_wf(tokens_model(tokens@), lo, hi),
            0 <= lo,
            offset + hi <= usize::MAX,
        ensures
            tokens_model(r@) == shift_tokens(tokens_model(tokens@), offset as int),
        decreases tokens, 1int,
    {
        proof {
            lemma_tokens_model(tokens@);
            lemma_tokens_wf_index(tokens_model(tokens@), lo, hi);
        }
        let mut out: Vec<Token> = Vec::new();
        let mut k: usize = 0;
        while k < tokens.len()
            invariant
                k <= tokens.len(),
                out@.len() == k,
                tokens_wf(tokens_model(tokens@), lo, hi),
                0 <= lo,
                offset + hi <= usize::MAX,
                forall|l: int|
                    0 <= l < k ==> token_model(out@[l]) == shift_token(
                        token_model(tokens@[l]),
                        offset as int,
                    ),
            decreases tokens.len() - k,
        {
            proof {
                lemma_tokens_model(tokens@);
                lemma_tokens_wf_index(tokens_model(tokens@), lo, hi);
                assert(token_wf(tokens_model(tokens@)[k as int], lo, hi));
                assert(tokens_model(tokens@)[k as int] == token_model(tokens@[k as int]));
            }
            let moved = Self::inc_token(&tokens[k], offset, Ghost(lo), Ghost(hi));
            out.push(moved);
            k = k + 1;
        }
        proof {
            lemma_tokens_model(tokens@);
            lemma_tokens_model(out@);
            lemma_shift_tokens(tokens_model(tokens@), offset as int);
            assert(tokens_model(out@) =~= shift_tokens(tokens_model(tokens@), offset as int));
        }
        out
    }

    /// The whole token sequence of a recursively tokenized bracket group,
    /// re-based onto the outer document by `offset`. `bound` is an upper
    /// bound on the group's inner length, witnessing that no re-based
    /// offset overflows.
    pub fn inc_tokens_offsets(tokens: Vec<Token>, offset: usize, Ghost(bound): Ghost<int>) -> (r:
        Vec<Token>)
        requires
            tokens_wf(tokens_model(tokens@), 0, bound),
            offset + bound <= usize::MAX,
        ensures
            tokens_model(r@) == shift_tokens(tokens_model(tokens@), offset as int),
    {
        Self::inc_vec(&tokens, offset, Ghost(0), Ghost(bound))
    }
}

} // verus!
