//! Lexical tokens with source-offset annotations.
//!
//! A token either carries literal text (a quoted string or a bareword run)
//! or a balanced bracket group holding the nested token sequence produced by
//! recursively tokenizing the group's inner text, with all offsets re-based
//! to the outer document.

use vstd::prelude::*;

verus! {

/// Mathematical model of a [`Token`]: the same shape, with string contents
/// as character sequences and offsets as unbounded integers.
pub enum TokenModel {
    Text { begin: int, end: int, value: Seq<char> },
    Parentheses { begin: int, end: int, tokens: Seq<TokenModel> },
    SquareBrackets { begin: int, end: int, tokens: Seq<TokenModel> },
    CurlyBrackets { begin: int, end: int, tokens: Seq<TokenModel> },
    Other { begin: int, end: int, value: Seq<char> },
}

/// One lexical token. `begin` and `end` are inclusive character indices into
/// the original input. Bracket variants carry the tokens of their inner text.
#[derive(Debug, PartialEq, Eq)]
pub enum Token {
    /// `"Example string"`; `value` is the text between the quotes.
    Text { begin: usize, end: usize, value: String },
    /// `(example "parentheses")`
    Parentheses { begin: usize, end: usize, tokens: Vec<Token> },
    /// `[example "square brackets"]`
    SquareBrackets { begin: usize, end: usize, tokens: Vec<Token> },
    /// `{example: "curly brackets"}`
    CurlyBrackets { begin: usize, end: usize, tokens: Vec<Token> },
    /// A bareword run of allowed characters, punctuation included.
    Other { begin: usize, end: usize, value: String },
}

/// The model of one token.
pub open spec fn token_model(t: Token) -> TokenModel
    decreases t, 0int,
{
    match t {
        Token::Text { begin, end, value } => TokenModel::Text {
            begin: begin as int,
            end: end as int,
            value: value@,
        },
        Token::Parentheses { begin, end, tokens } => TokenModel::Parentheses {
            begin: begin as int,
            end: end as int,
            tokens: tokens_model(tokens@),
        },
        Token::SquareBrackets { begin, end, tokens } => TokenModel::SquareBrackets {
            begin: begin as int,
            end: end as int,
            tokens: tokens_model(tokens@),
        },
        Token::CurlyBrackets { begin, end, tokens } => TokenModel::CurlyBrackets {
            begin: begin as int,
            end: end as int,
            tokens: tokens_model(tokens@),
        },
        Token::Other { begin, end, value } => TokenModel::Other {
            begin: begin as int,
            end: end as int,
            value: value@,
        },
    }
}

/// The model of a token sequence: each element's model, in order.
pub open spec fn tokens_model(s: Seq<Token>) -> Seq<TokenModel>
    decreases s, 1int,
{
    if s.len() == 0 {
        Seq::empty()
    } else {
        tokens_model(s.subrange(0, s.len() - 1)).push(token_model(s[s.len() - 1]))
    }
}

/// `tokens_model` maps each element to its model, keeping length and order.
pub proof fn lemma_tokens_model(s: Seq<Token>)
    ensures
        tokens_model(s).len() == s.len(),
        forall|i: int| 0 <= i < s.len() ==> tokens_model(s)[i] == token_model(s[i]),
    decreases s.len(),
{
    if s.len() > 0 {
        lemma_tokens_model(s.subrange(0, s.len() - 1));
    }
}

impl TokenModel {
    /// Start offset of this token in the original input.
    pub open spec fn begin(self) -> int {
        match self {
            TokenModel::Text { begin, .. } => begin,
            TokenModel::Parentheses { begin, .. } => begin,
            TokenModel::SquareBrackets { begin, .. } => begin,
            TokenModel::CurlyBrackets { begin, .. } => begin,
            TokenModel::Other { begin, .. } => begin,
        }
    }

    /// Inclusive end offset of this token in the original input.
    pub open spec fn end(self) -> int {
        match self {
            TokenModel::Text { end, .. } => end,
            TokenModel::Parentheses { end, .. } => end,
            TokenModel::SquareBrackets { end, .. } => end,
            TokenModel::CurlyBrackets { end, .. } => end,
            TokenModel::Other { end, .. } => end,
        }
    }

    pub open spec fn is_other(self) -> bool {
        self is Other
    }

    /// Literal content of a `Text` or `Other` token.
    pub open spec fn value(self) -> Option<Seq<char>> {
        match self {
            TokenModel::Text { value, .. } => Some(value),
            TokenModel::Other { value, .. } => Some(value),
            _ => None,
        }
    }
}

/// Well-formedness of one token within the half-open offset window
/// `[lo, hi)`: its span lies inside the window, `begin <= end`, and the
/// tokens of a bracket group lie strictly between its delimiters.
pub open spec fn token_wf(tm: TokenModel, lo: int, hi: int) -> bool
    decreases tm, 0int,
{
    lo <= tm.begin() && tm.begin() <= tm.end() && tm.end() < hi && match tm {
        TokenModel::Parentheses { begin, end, tokens } => begin < end && tokens_wf(
            tokens,
            begin + 1,
            end,
        ),
        TokenModel::SquareBrackets { begin, end, tokens } => begin < end && tokens_wf(
            tokens,
            begin + 1,
            end,
        ),
        TokenModel::CurlyBrackets { begin, end, tokens } => begin < end && tokens_wf(
            tokens,
            begin + 1,
            end,
        ),
        _ => true,
    }
}

/// Well-formedness of a token sequence within `[lo, hi)`: every token is
/// well-formed and consecutive tokens stand in strict document order.
pub open spec fn tokens_wf(s: Seq<TokenModel>, lo: int, hi: int) -> bool
    decreases s, 1int,
{
    if s.len() == 0 {
        true
    } else {
        tokens_wf(s.subrange(0, s.len() - 1), lo, hi) && token_wf(s[s.len() - 1], lo, hi) && (
        s.len() >= 2 ==> s[s.len() - 2].end() < s[s.len() - 1].begin())
    }
}

/// In a well-formed token sequence every token is well-formed and any two
/// tokens do not overlap: the earlier one ends before the later one begins.
pub proof fn lemma_tokens_wf_index(s: Seq<TokenModel>, lo: int, hi: int)
    requires
        tokens_wf(s, lo, hi),
    ensures
        forall|i: int| 0 <= i < s.len() ==> token_wf(#[trigger] s[i], lo, hi),
        forall|i: int, j: int| 0 <= i < j < s.len() ==> s[i].end() < s[j].begin(),
    decreases s.len(),
{
    if s.len() > 0 {
        let prefix = s.subrange(0, s.len() - 1);
        lemma_tokens_wf_index(prefix, lo, hi);
        assert(forall|i: int| 0 <= i < s.len() - 1 ==> s[i] == prefix[i]);
        assert forall|i: int, j: int| 0 <= i < j < s.len() implies s[i].end() < s[j].begin() by {
            if j < s.len() - 1 {
                assert(prefix[i].end() < prefix[j].begin());
            } else {
                if i < s.len() - 2 {
                    assert(prefix[i].end() < prefix[s.len() - 2].begin());
                    assert(prefix[s.len() - 2].begin() <= prefix[s.len() - 2].end());
                }
            }
        }
    }
}

/// In a well-formed token sequence the `k`-th token begins at offset
/// `lo + k` or later, so the sequence holds at most `hi - lo` tokens.
pub proof fn lemma_tokens_wf_count(s: Seq<TokenModel>, lo: int, hi: int)
    requires
        tokens_wf(s, lo, hi),
    ensures
        forall|k: int| 0 <= k < s.len() ==> (#[trigger] s[k]).begin() >= lo + k,
        s.len() > 0 ==> s.len() <= hi - lo,
    decreases s.len(),
{
    if s.len() > 0 {
        let prefix = s.subrange(0, s.len() - 1);
        lemma_tokens_wf_count(prefix, lo, hi);
        assert(forall|k: int| 0 <= k < s.len() - 1 ==> s[k] == prefix[k]);
        assert(token_wf(s[s.len() - 1], lo, hi));
        if s.len() >= 2 {
            assert(prefix[s.len() - 2].begin() >= lo + s.len() - 2);
            assert(tokens_wf(prefix, lo, hi));
            assert(token_wf(prefix[prefix.len() - 1], lo, hi));
            assert(s[s.len() - 2].end() >= s[s.len() - 2].begin());
            assert(s[s.len() - 2].end() < s[s.len() - 1].begin());
        }
        assert(s[s.len() - 1].begin() >= lo + s.len() - 1);
        assert(s[s.len() - 1].begin() <= s[s.len() - 1].end() < hi);
    }
}

/// Appending a token keeps a sequence well-formed exactly when the token is
/// well-formed and begins after the previous last token ends.
pub proof fn lemma_tokens_wf_push(s: Seq<TokenModel>, x: TokenModel, lo: int, hi: int)
    ensures
        tokens_wf(s.push(x), lo, hi) <==> (tokens_wf(s, lo, hi) && token_wf(x, lo, hi) && (s.len()
            > 0 ==> s[s.len() - 1].end() < x.begin())),
{
    let p = s.push(x);
    assert(p.subrange(0, p.len() - 1) =~= s);
    assert(p[p.len() - 1] == x);
}

/// `tokens_model` commutes with `push`.
pub proof fn lemma_tokens_model_push(s: Seq<Token>, x: Token)
    ensures
        tokens_model(s.push(x)) == tokens_model(s).push(token_model(x)),
{
    let p = s.push(x);
    assert(p.subrange(0, p.len() - 1) =~= s);
    assert(p[p.len() - 1] == x);
}

impl Token {
    /// Whether this token is a bareword (`Other`) token.
    pub fn is_other(&self) -> (r: bool)
        ensures
            r == token_model(*self).is_other(),
    {
        match self {
            Self::Other { .. } => true,
            _ => false,
        }
    }

    /// Whether this token is a bareword token whose text equals `other`.
    pub fn is_other_value(&self, other: &str) -> (r: bool)
        ensures
            r == (token_model(*self) matches TokenModel::Other { value, .. } && value == other@),
    {
        match self {
            Self::Other { value, .. } => {
                let o = String::from_str(other);
                *value == o
            },
            _ => false,
        }
    }

    /// The literal content of a `Text` or `Other` token, `None` otherwise.
    pub fn get_value(&self) -> (r: Option<String>)
        ensures
            match token_model(*self).value() {
                Some(v) => r matches Some(s) && s@ == v,
                None => r is None,
            },
    {
        match self {
            Token::Text { value, .. } => Some(value.clone()),
            Token::Other { value, .. } => Some(value.clone()),
            _ => None,
        }
    }

    /// Start offset of this token.
    pub fn get_begin(&self) -> (r: usize)
        ensures
            r as int == token_model(*self).begin(),
    {
        match self {
            Token::Text { begin, .. } => *begin,
            Token::Parentheses { begin, .. } => *begin,
            Token::SquareBrackets { begin, .. } => *begin,
            Token::CurlyBrackets { begin, .. } => *begin,
            Token::Other { begin, .. } => *begin,
        }
    }

    /// Inclusive end offset of this token.
    pub fn get_end(&self) -> (r: usize)
        ensures
            r as int == token_model(*self).end(),
    {
        match self {
            Token::Text { end, .. } => *end,
            Token::Parentheses { end, .. } => *end,
            Token::SquareBrackets { end, .. } => *end,
            Token::CurlyBrackets { end, .. } => *end,
            Token::Other { end, .. } => *end,
        }
    }
}

} // verus!
