//! The tokenizer: splits a formula on whitespace and classifies every
//! fragment as a number (all decimal digits), an operator (exactly one of
//! `+ - * /`), or an identifier (anything else, with no validation).
//! No fragment is rejected here; malformed ones surface later as parse or
//! evaluation failures. Whitespace means the ASCII whitespace characters
//! throughout: a formula separated by an exotic Unicode space is one
//! identifier, not two tokens.

use crate::expr::Op;
use crate::text::{chars_of, string_of};
use vstd::prelude::*;

verus! {

/// One token of a formula.
pub enum Token {
    Number { text: String },
    Identifier { name: String },
    Operator { op: Op },
}

/// The value of a token once string representations are abstracted away.
#[verifier::ext_equal]
pub enum TokenModel {
    Num { digits: Seq<char> },
    Ident { name: Seq<char> },
    OpTok { op: Op },
}

impl View for Token {
    type V = TokenModel;

    open spec fn view(&self) -> TokenModel {
        match self {
            Token::Number { text } => TokenModel::Num { digits: text@ },
            Token::Identifier { name } => TokenModel::Ident { name: name@ },
            Token::Operator { op } => TokenModel::OpTok { op: *op },
        }
    }
}

/// The views of a sequence of tokens.
pub open spec fn token_views(ts: Seq<Token>) -> Seq<TokenModel> {
    ts.map_values(|t: Token| t@)
}

/// The whitespace characters a formula is split on: the ASCII set —
/// space, tab, line feed, form feed and carriage return — and no other.
pub open spec fn is_space_c(c: char) -> bool {
    c == ' ' || c == '\t' || c == '\n' || c == '\u{c}' || c == '\r'
}

/// A decimal digit.
pub open spec fn is_digit_c(c: char) -> bool {
    '0' <= c <= '9'
}

/// Whether every character of a fragment is a decimal digit.
pub open spec fn all_digits(w: Seq<char>) -> bool {
    forall|i: int| 0 <= i < w.len() ==> is_digit_c(w[i])
}

/// The operator a one-character fragment spells, if any.
pub open spec fn op_of_frag(w: Seq<char>) -> Option<Op> {
    if w.len() == 1 {
        if w[0] == '+' {
            Some(Op::Plus)
        } else if w[0] == '-' {
            Some(Op::Minus)
        } else if w[0] == '*' {
            Some(Op::Star)
        } else if w[0] == '/' {
            Some(Op::Slash)
        } else {
            None
        }
    } else {
        None
    }
}

/// Classifies one whitespace-free fragment: digits make a number, one of the
/// four operator characters alone makes an operator, anything else is an
/// identifier.
pub open spec fn classify(w: Seq<char>) -> TokenModel {
    if w.len() > 0 && all_digits(w) {
        TokenModel::Num { digits: w }
    } else {
        match op_of_frag(w) {
            Some(op) => TokenModel::OpTok { op },
            None => TokenModel::Ident { name: w },
        }
    }
}

/// The length of the leading whitespace-free run of a sequence.
pub open spec fn word_len(s: Seq<char>) -> nat
    decreases s.len(),
{
    if s.len() == 0 || is_space_c(s[0]) {
        0
    } else {
        1 + word_len(s.drop_first())
    }
}

/// The leading whitespace-free run never exceeds the sequence.
pub proof fn lemma_word_len_le(s: Seq<char>)
    ensures
        word_len(s) <= s.len(),
    decreases s.len(),
{
    if s.len() == 0 || is_space_c(s[0]) {
    } else {
        lemma_word_len_le(s.drop_first());
    }
}

#[via_fn]
proof fn split_ws_via(s: Seq<char>) {
    lemma_word_len_le(s);
}

/// The whitespace-separated fragments of a sequence, in order; every
/// fragment is non-empty and free of whitespace.
pub open spec fn split_ws(s: Seq<char>) -> Seq<Seq<char>>
    decreases s.len(),
        via split_ws_via
{
    if s.len() == 0 {
        Seq::empty()
    } else if is_space_c(s[0]) {
        split_ws(s.drop_first())
    } else {
        seq![s.take(word_len(s) as int)].add(split_ws(s.skip(word_len(s) as int)))
    }
}

/// The token sequence of a formula text.
pub open spec fn toks_of(s: Seq<char>) -> Seq<TokenModel> {
    split_ws(s).map_values(|w: Seq<char>| classify(w))
}

/// A number token always carries a non-empty run of digits; the tokenizer
/// produces no other kind.
pub open spec fn wf_token(t: TokenModel) -> bool {
    t matches TokenModel::Num { digits } ==> digits.len() > 0 && all_digits(digits)
}

/// Every token of the sequence is well-formed.
pub open spec fn wf_tokens(ts: Seq<TokenModel>) -> bool {
    forall|i: int| 0 <= i < ts.len() ==> #[trigger] wf_token(ts[i])
}

/// Fragments never classify into ill-formed tokens.
pub proof fn lemma_toks_of_wf(s: Seq<char>)
    ensures
        wf_tokens(toks_of(s)),
{
    assert forall|i: int| 0 <= i < toks_of(s).len() implies #[trigger] wf_token(
        toks_of(s)[i],
    ) by {
        assert(toks_of(s)[i] == classify(split_ws(s)[i]));
    }
}

/// A run of `k` non-whitespace characters closed off by the end of the
/// sequence or a whitespace character is exactly the leading run.
pub proof fn lemma_word_len_is(s: Seq<char>, k: int)
    requires
        0 <= k <= s.len(),
        forall|j: int| 0 <= j < k ==> !is_space_c(s[j]),
        k == s.len() || is_space_c(s[k]),
    ensures
        word_len(s) == k,
    decreases s.len(),
{
    if k == 0 {
    } else {
        lemma_word_len_is(s.drop_first(), k - 1);
    }
}

/// Whether a character is one of the whitespace characters formulas are
/// split on.
pub fn is_space(c: char) -> (r: bool)
    ensures
        r == is_space_c(c),
{
    c == ' ' || c == '\t' || c == '\n' || c == '\u{c}' || c == '\r'
}

/// Classifies one whitespace-free fragment into a token.
fn classify_fragment(word: &Vec<char>) -> (t: Token)
    requires
        word@.len() > 0,
    ensures
        t@ == classify(word@),
{
    let mut digits_only = true;
    let mut i: usize = 0;
    while i < word.len()
        invariant
            i <= word@.len(),
            digits_only == (forall|j: int| 0 <= j < i ==> is_digit_c(word@[j])),
        decreases word@.len() - i,
    {
        let c = word[i];
        if !('0' <= c && c <= '9') {
            digits_only = false;
        }
        i = i + 1;
    }
    if digits_only {
        return Token::Number { text: string_of(word) };
    }
    if word.len() == 1 {
        let c = word[0];
        if c == '+' {
            return Token::Operator { op: Op::Plus };
        }
        if c == '-' {
            return Token::Operator { op: Op::Minus };
        }
        if c == '*' {
            return Token::Operator { op: Op::Star };
        }
        if c == '/' {
            return Token::Operator { op: Op::Slash };
        }
    }
    Token::Identifier { name: string_of(word) }
}

/// Splits a formula on whitespace and classifies each fragment.
pub fn tokenize(s: &str) -> (r: Vec<Token>)
    ensures
        token_views(r@) == toks_of(s@),
{
    let v = chars_of(s);
    let n = v.len();
    let mut toks: Vec<Token> = Vec::new();
    let mut i: usize = 0;
    proof {
        assert(v@.skip(0) =~= v@);
        assert(token_views(toks@).add(toks_of(v@.skip(0 as int))) =~= toks_of(v@));
    }
    while i < n
        invariant
            n == v@.len(),
            i <= n,
            v@ == s@,
            token_views(toks@).add(toks_of(v@.skip(i as int))) == toks_of(v@),
        decreases n - i,
    {
        if is_space(v[i]) {
            proof {
                assert(v@.skip(i as int).drop_first() =~= v@.skip(i + 1));
                assert(split_ws(v@.skip(i as int)) == split_ws(v@.skip(i + 1)));
            }
            i = i + 1;
        } else {
            let start = i;
            let mut j = i;
            while j < n && !is_space(v[j])
                invariant
                    n == v@.len(),
                    start <= j <= n,
                    forall|k: int| start <= k < j ==> !is_space_c(v@[k]),
                decreases n - j,
            {
                j = j + 1;
            }
            let mut word: Vec<char> = Vec::new();
            let mut k = start;
            while k < j
                invariant
                    start <= k <= j <= n,
                    n == v@.len(),
                    word@ == v@.subrange(start as int, k as int),
                decreases j - k,
            {
                word.push(v[k]);
                k = k + 1;
                proof {
                    assert(word@ =~= v@.subrange(start as int, k as int));
                }
            }
            let t = classify_fragment(&word);
            proof {
                let rest = v@.skip(start as int);
                lemma_word_len_is(rest, j - start);
                assert(rest.take(j - start) =~= word@);
                assert(rest.skip(j - start) =~= v@.skip(j as int));
                assert(split_ws(rest) == seq![word@].add(split_ws(v@.skip(j as int))));
                assert(toks_of(rest) =~= seq![classify(word@)].add(toks_of(v@.skip(j as int))));
                assert(token_views(toks@.push(t)) =~= token_views(toks@).push(t@));
                assert(token_views(toks@.push(t)).add(toks_of(v@.skip(j as int))) =~= token_views(
                    toks@,
                ).add(toks_of(v@.skip(i as int))));
            }
            toks.push(t);
            i = j;
        }
    }
    proof {
        assert(v@.skip(n as int) =~= Seq::<char>::empty());
        assert(toks_of(v@.skip(n as int)) =~= Seq::<TokenModel>::empty());
        assert(token_views(toks@).add(Seq::empty()) =~= token_views(toks@));
    }
    toks
}

/// Whether a fragment spells a variable: anything that is neither a run
/// of digits nor one of the four operator symbols counts, punctuation
/// included.
pub fn is_variable(tok: &String) -> (r: bool)
    ensures
        r == !(all_digits(tok@) || op_of_frag(tok@) is Some),
{
    let chars = crate::text::chars_of(tok.as_str());
    let n = chars.len();
    let mut digits_only = true;
    let mut i: usize = 0;
    while i < n
        invariant
            chars@ == tok@,
            n == tok@.len(),
            i <= n,
            digits_only == (forall|j: int| 0 <= j < i ==> is_digit_c(#[trigger] tok@[j])),
        decreases n - i,
    {
        let c = chars[i];
        if !('0' <= c && c <= '9') {
            digits_only = false;
        }
        i = i + 1;
    }
    if digits_only {
        return false;
    }
    if n == 1 {
        let c = chars[0];
        if c == '+' || c == '-' || c == '*' || c == '/' {
            return false;
        }
    }
    true
}

/// Whether a fragment spells a number: every character a decimal digit.
pub fn is_number(tok: &String) -> (r: bool)
    ensures
        r == all_digits(tok@),
{
    let chars = crate::text::chars_of(tok.as_str());
    let n = chars.len();
    let mut i: usize = 0;
    while i < n
        invariant
            chars@ == tok@,
            n == tok@.len(),
            i <= n,
            forall|j: int| 0 <= j < i ==> is_digit_c(#[trigger] tok@[j]),
        decreases n - i,
    {
        let c = chars[i];
        if !('0' <= c && c <= '9') {
            return false;
        }
        i = i + 1;
    }
    true
}

impl Op {
    /// The operator a one-character fragment spells. Only the four
    /// operator symbols are accepted.
    pub fn from_string(s: &str) -> (r: Op)
        requires
            op_of_frag(s@) is Some,
        ensures
            op_of_frag(s@) == Some(r),
    {
        let c = s.get_char(0);
        if c == '+' {
            Op::Plus
        } else if c == '-' {
            Op::Minus
        } else if c == '*' {
            Op::Star
        } else {
            proof {
                assert(s@[0] == '/');
            }
            Op::Slash
        }
    }
}

} // verus!
