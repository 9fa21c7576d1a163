//! The round-trip law: a well-formed formula that uses only `+` and `*`
//! and single-character variable names parses, and rendering the parse
//! result reproduces a token-for-token equivalent of the input — the same
//! identifiers and operators, and numbers of the same value.

use crate::expr::{op_char, render_m, ExprModel, Op};
use crate::parser::{digits_val, lemma_digits_val_nonneg, parse_binary_m, parse_formula_m,
    parse_ops_m, parse_primary_m};
use crate::text::{dec_digits, dec_str, digit_char};
use crate::tokens::{
    all_digits, classify, is_digit_c, is_space_c, lemma_word_len_is, op_of_frag, split_ws,
    toks_of, word_len, TokenModel,
};
use vstd::prelude::*;

verus! {

/// Two tokens carry the same value: numbers of equal numeric value,
/// identifiers of equal spelling, equal operators.
pub open spec fn tok_equiv(a: TokenModel, b: TokenModel) -> bool {
    match (a, b) {
        (TokenModel::Num { digits: d1 }, TokenModel::Num { digits: d2 }) => digits_val(d1)
            == digits_val(d2),
        (TokenModel::Ident { name: n1 }, TokenModel::Ident { name: n2 }) => n1 == n2,
        (TokenModel::OpTok { op: o1 }, TokenModel::OpTok { op: o2 }) => o1 == o2,
        _ => false,
    }
}

/// Token-for-token equivalence of two token sequences.
pub open spec fn toks_equiv(a: Seq<TokenModel>, b: Seq<TokenModel>) -> bool {
    a.len() == b.len() && forall|i: int| 0 <= i < a.len() ==> tok_equiv(a[i], b[i])
}

/// The shape P1 asks of a formula's tokens: at least one token, tokens
/// alternating operand and operator, every operator `+` or `*`, every
/// identifier a single character, and every number small enough for the
/// machine's integers.
pub open spec fn formula_shape(ts: Seq<TokenModel>) -> bool {
    &&& ts.len() >= 1
    &&& ts.len() % 2 == 1
    &&& forall|i: int|
        0 <= i < ts.len() && i % 2 == 0 ==> match #[trigger] ts[i] {
            TokenModel::Num { digits } => digits_val(digits) <= i64::MAX,
            TokenModel::Ident { name } => name.len() == 1,
            TokenModel::OpTok { .. } => false,
        }
    &&& forall|i: int|
        0 <= i < ts.len() && i % 2 == 1 ==> match #[trigger] ts[i] {
            TokenModel::OpTok { op } => op == Op::Plus || op == Op::Star,
            _ => false,
        }
}

/// Facts that hold of every token the tokenizer produces: number tokens
/// carry non-empty digit runs, identifier tokens carry non-empty
/// whitespace-free fragments that classify back to themselves.
pub open spec fn frag_wf(ts: Seq<TokenModel>) -> bool {
    forall|i: int|
        0 <= i < ts.len() ==> match #[trigger] ts[i] {
            TokenModel::Num { digits } => digits.len() > 0 && all_digits(digits),
            TokenModel::Ident { name } => name.len() > 0 && (forall|j: int|
                0 <= j < name.len() ==> !is_space_c(name[j])) && classify(name)
                == TokenModel::Ident { name },
            TokenModel::OpTok { .. } => true,
        }
}

/// Whether an expression renders to fragments the tokenizer reads back:
/// numbers non-negative, variable names non-empty, whitespace-free and
/// classified as identifiers.
pub open spec fn renderable(e: ExprModel) -> bool
    decreases e,
{
    match e {
        ExprModel::Num { value } => value >= 0,
        ExprModel::Var { name } => name.len() > 0 && (forall|j: int|
            0 <= j < name.len() ==> !is_space_c(name[j])) && classify(name) == TokenModel::Ident {
            name,
        },
        ExprModel::Bin { left, right, .. } => renderable(*left) && renderable(*right),
    }
}

/// The fragments an expression renders to, in order.
pub open spec fn render_frags(e: ExprModel) -> Seq<Seq<char>>
    decreases e,
{
    match e {
        ExprModel::Num { value } => seq![dec_digits(value)],
        ExprModel::Var { name } => seq![name],
        ExprModel::Bin { op, left, right } => render_frags(*left).add(
            seq![seq![op_char(op)]],
        ).add(render_frags(*right)),
    }
}

/// The tokens an expression renders to, in order.
pub open spec fn render_toks(e: ExprModel) -> Seq<TokenModel>
    decreases e,
{
    match e {
        ExprModel::Num { value } => seq![TokenModel::Num { digits: dec_digits(value) }],
        ExprModel::Var { name } => seq![TokenModel::Ident { name }],
        ExprModel::Bin { op, left, right } => render_toks(*left).add(
            seq![TokenModel::OpTok { op }],
        ).add(render_toks(*right)),
    }
}

/// A token is equivalent to itself.
proof fn lemma_tok_equiv_refl(a: TokenModel)
    ensures
        tok_equiv(a, a),
{
}

/// A token sequence is equivalent to itself.
proof fn lemma_toks_equiv_refl(a: Seq<TokenModel>)
    ensures
        toks_equiv(a, a),
{
    assert forall|i: int| 0 <= i < a.len() implies tok_equiv(#[trigger] a[i], a[i]) by {
        lemma_tok_equiv_refl(a[i]);
    }
}

/// Token equivalence chains.
proof fn lemma_toks_equiv_trans(a: Seq<TokenModel>, b: Seq<TokenModel>, c: Seq<TokenModel>)
    requires
        toks_equiv(a, b),
        toks_equiv(b, c),
    ensures
        toks_equiv(a, c),
{
    assert forall|i: int| 0 <= i < a.len() implies tok_equiv(a[i], c[i]) by {
        assert(tok_equiv(a[i], b[i]));
        assert(tok_equiv(b[i], c[i]));
    }
}

/// Token equivalence joins across concatenation.
proof fn lemma_toks_equiv_concat(
    a: Seq<TokenModel>,
    b: Seq<TokenModel>,
    c: Seq<TokenModel>,
    d: Seq<TokenModel>,
)
    requires
        toks_equiv(a, b),
        toks_equiv(c, d),
    ensures
        toks_equiv(a.add(c), b.add(d)),
{
    assert forall|i: int| 0 <= i < a.add(c).len() implies tok_equiv(a.add(c)[i], b.add(d)[i]) by {
        if i < a.len() {
            assert(tok_equiv(a[i], b[i]));
        } else {
            assert(tok_equiv(c[i - a.len()], d[i - a.len()]));
        }
    }
}

/// The decimal digits of a non-negative integer are a non-empty run of
/// digit characters.
proof fn lemma_dec_digits_digits(n: int)
    requires
        n >= 0,
    ensures
        dec_digits(n).len() >= 1,
        all_digits(dec_digits(n)),
    decreases n,
{
    if n < 10 {
        assert(dec_digits(n) == seq![digit_char(n)]);
        assert(is_digit_c(digit_char(n)));
    } else {
        lemma_dec_digits_digits(n / 10);
        assert(is_digit_c(digit_char(n % 10)));
        assert(forall|i: int|
            0 <= i < dec_digits(n).len() ==> is_digit_c(#[trigger] dec_digits(n)[i]));
    }
}

/// Reading the decimal digits of a value gives the value back.
proof fn lemma_digits_val_roundtrip(v: int)
    requires
        v >= 0,
    ensures
        digits_val(dec_digits(v)) == v,
    decreases v,
{
    if v < 10 {
        let w = seq![digit_char(v)];
        assert(dec_digits(v) == w);
        assert(w.len() == 1);
        assert(w.drop_last() =~= Seq::<char>::empty());
        assert(digits_val(Seq::<char>::empty()) == 0);
        assert(digits_val(w.drop_last()) == 0);
        assert(w.last() == digit_char(v));
        assert(digit_char(v) as int == 48 + v);
        assert(digits_val(w) == digits_val(w.drop_last()) * 10 + (w.last() as int - 48));
    } else {
        lemma_digits_val_roundtrip(v / 10);
        let w = dec_digits(v);
        assert(w == dec_digits(v / 10).push(digit_char(v % 10)));
        assert(w.len() == dec_digits(v / 10).len() + 1);
        assert(w.drop_last() =~= dec_digits(v / 10));
        assert(digits_val(w.drop_last()) == v / 10);
        assert(w.last() == digit_char(v % 10));
        assert(digit_char(v % 10) as int == 48 + (v % 10));
        assert(digits_val(w) == digits_val(w.drop_last()) * 10 + (w.last() as int - 48));
        assert((v / 10) * 10 + (v % 10) == v);
    }
}

/// Splitting a non-empty whitespace-free word, a space, and a remainder
/// yields the word and then the remainder's fragments.
proof fn lemma_split_word(w: Seq<char>, rest: Seq<char>)
    requires
        w.len() > 0,
        forall|j: int| 0 <= j < w.len() ==> !is_space_c(w[j]),
    ensures
        split_ws(w.add(seq![' ']).add(rest)) == seq![w].add(split_ws(rest)),
{
    let s = w.add(seq![' ']).add(rest);
    assert(s.len() == w.len() + 1 + rest.len());
    assert(forall|j: int| 0 <= j < w.len() ==> s[j] == w[j]);
    assert(s[w.len() as int] == ' ');
    assert(is_space_c(' '));
    lemma_word_len_is(s, w.len() as int);
    assert(!is_space_c(s[0]));
    assert(s.take(w.len() as int) =~= w);
    let tail = s.skip(w.len() as int);
    assert(tail[0] == ' ');
    assert(tail.drop_first() =~= rest);
    assert(split_ws(tail) == split_ws(rest));
    assert(split_ws(s) == seq![w].add(split_ws(rest)));
}

/// Rendering prefixes fragments: the rendering of an expression followed
/// by any remainder splits into the expression's fragments and then the
/// remainder's.
proof fn lemma_render_frags(e: ExprModel, rest: Seq<char>)
    requires
        renderable(e),
    ensures
        split_ws(render_m(e).add(rest)) == render_frags(e).add(split_ws(rest)),
    decreases e,
{
    match e {
        ExprModel::Num { value } => {
            lemma_dec_digits_digits(value);
            assert(forall|j: int|
                0 <= j < dec_digits(value).len() ==> !is_space_c(
                    #[trigger] dec_digits(value)[j],
                ));
            lemma_split_word(dec_digits(value), rest);
            assert(render_m(e).add(rest) =~= dec_digits(value).add(seq![' ']).add(rest));
        },
        ExprModel::Var { name } => {
            lemma_split_word(name, rest);
            assert(render_m(e).add(rest) =~= name.add(seq![' ']).add(rest));
        },
        ExprModel::Bin { op, left, right } => {
            let mid = seq![op_char(op), ' '];
            let r1 = mid.add(render_m(*right).add(rest));
            lemma_render_frags(*left, r1);
            assert(render_m(e).add(rest) =~= render_m(*left).add(r1));
            assert(!is_space_c(op_char(op)));
            lemma_split_word(seq![op_char(op)], render_m(*right).add(rest));
            assert(r1 =~= seq![op_char(op)].add(seq![' ']).add(render_m(*right).add(rest)));
            lemma_render_frags(*right, rest);
            assert(split_ws(render_m(e).add(rest)) == render_frags(*left).add(
                seq![seq![op_char(op)]].add(render_frags(*right).add(split_ws(rest))),
            ));
            assert(render_frags(*left).add(
                seq![seq![op_char(op)]].add(render_frags(*right).add(split_ws(rest))),
            ) =~= render_frags(e).add(split_ws(rest)));
        },
    }
}

/// A single operator character classifies back to its operator token.
proof fn lemma_classify_op(op: Op)
    ensures
        classify(seq![op_char(op)]) == (TokenModel::OpTok { op }),
{
    let w = seq![op_char(op)];
    assert(!is_digit_c(op_char(op)));
    assert(!all_digits(w));
    assert(op_of_frag(w) == Some(op));
}

/// Tokenizing the rendering of an expression gives exactly the tokens it
/// renders to.
proof fn lemma_tokenize_render(e: ExprModel)
    requires
        renderable(e),
    ensures
        toks_of(render_m(e)) == render_toks(e),
    decreases e,
{
    lemma_render_frags(e, Seq::empty());
    assert(render_m(e).add(Seq::empty()) =~= render_m(e));
    assert(split_ws(Seq::<char>::empty()) =~= Seq::<Seq<char>>::empty());
    assert(render_frags(e).add(Seq::empty()) =~= render_frags(e));
    assert(split_ws(render_m(e)) == render_frags(e));
    lemma_frags_classify(e);
    assert(toks_of(render_m(e)) =~= render_toks(e));
}

/// Each fragment of a rendering classifies to the corresponding token.
proof fn lemma_frags_classify(e: ExprModel)
    requires
        renderable(e),
    ensures
        render_frags(e).map_values(|w: Seq<char>| classify(w)) == render_toks(e),
    decreases e,
{
    match e {
        ExprModel::Num { value } => {
            lemma_dec_digits_digits(value);
            assert(classify(dec_digits(value)) == TokenModel::Num { digits: dec_digits(value) });
            assert(render_frags(e).map_values(|w: Seq<char>| classify(w)) =~= render_toks(e));
        },
        ExprModel::Var { name } => {
            assert(render_frags(e).map_values(|w: Seq<char>| classify(w)) =~= render_toks(e));
        },
        ExprModel::Bin { op, left, right } => {
            lemma_frags_classify(*left);
            lemma_frags_classify(*right);
            lemma_classify_op(op);
            assert(render_frags(e).map_values(|w: Seq<char>| classify(w)) =~= render_toks(e));
        },
    }
}

/// The fragments the tokenizer splits out are non-empty and
/// whitespace-free.
proof fn lemma_split_ws_frags(s: Seq<char>)
    ensures
        forall|k: int|
            0 <= k < split_ws(s).len() ==> (#[trigger] split_ws(s)[k]).len() > 0 && (forall|j: int|
                0 <= j < split_ws(s)[k].len() ==> !is_space_c(split_ws(s)[k][j])),
    decreases s.len(),
{
    if s.len() == 0 {
        assert(split_ws(s).len() == 0);
    } else if is_space_c(s[0]) {
        lemma_split_ws_frags(s.drop_first());
        assert(split_ws(s) == split_ws(s.drop_first()));
        assert forall|k: int| 0 <= k < split_ws(s).len() implies (#[trigger] split_ws(s)[k]).len()
            > 0 && (forall|j: int|
            0 <= j < split_ws(s)[k].len() ==> !is_space_c(split_ws(s)[k][j])) by {
            assert(split_ws(s)[k] == split_ws(s.drop_first())[k]);
        }
    } else {
        lemma_word_len_bounds(s);
        lemma_split_ws_frags(s.skip(word_len(s) as int));
        let w = s.take(word_len(s) as int);
        assert(w.len() > 0);
        assert(forall|j: int| 0 <= j < w.len() ==> !is_space_c(w[j]));
        assert forall|k: int| 0 <= k < split_ws(s).len() implies (#[trigger] split_ws(s)[k]).len()
            > 0 && (forall|j: int|
            0 <= j < split_ws(s)[k].len() ==> !is_space_c(split_ws(s)[k][j])) by {
            assert(split_ws(s) == seq![w].add(split_ws(s.skip(word_len(s) as int))));
            if k == 0 {
                assert(split_ws(s)[0] == w);
            } else {
                assert(split_ws(s)[k] == split_ws(s.skip(word_len(s) as int))[k - 1]);
            }
        }
    }
}

/// The leading word of a sequence that starts with a non-space character
/// is non-empty, within bounds, and whitespace-free.
proof fn lemma_word_len_bounds(s: Seq<char>)
    requires
        s.len() > 0,
        !is_space_c(s[0]),
    ensures
        1 <= word_len(s) <= s.len(),
        forall|j: int| 0 <= j < word_len(s) ==> !is_space_c(s[j]),
    decreases s.len(),
{
    crate::tokens::lemma_word_len_le(s);
    if s.len() > 1 && !is_space_c(s[1]) {
        lemma_word_len_bounds(s.drop_first());
        assert forall|j: int| 0 <= j < word_len(s) implies !is_space_c(s[j]) by {
            if j > 0 {
                assert(!is_space_c(s.drop_first()[j - 1]));
            }
        }
    } else {
        assert forall|j: int| 0 <= j < word_len(s) implies !is_space_c(s[j]) by {
            if j > 0 {
                assert(word_len(s.drop_first()) == 0) by {
                    if s.len() > 1 {
                        assert(is_space_c(s.drop_first()[0]));
                    }
                }
            }
        }
    }
}

/// The main induction: from an odd position, the operator fold consumes
/// the rest of a well-shaped token sequence, keeps the accumulated
/// expression renderable, and renders to the accumulator's tokens followed
/// by equivalents of the remaining input tokens.
proof fn lemma_parse_wf(ts: Seq<TokenModel>, i: int, acc: ExprModel)
    requires
        formula_shape(ts),
        frag_wf(ts),
        1 <= i <= ts.len(),
        i % 2 == 1,
        renderable(acc),
    ensures
        parse_ops_m(ts, i, acc) matches Ok(r) && r.1 == ts.len() && renderable(r.0) && toks_equiv(
            render_toks(r.0),
            render_toks(acc).add(ts.skip(i)),
        ),
    decreases ts.len() - i,
{
    if i == ts.len() {
        assert(parse_ops_m(ts, i, acc) == Ok::<(ExprModel, int), crate::expr::EngineError>(
            (acc, i),
        ));
        assert(ts.skip(i) =~= Seq::<TokenModel>::empty());
        assert(render_toks(acc).add(Seq::empty()) =~= render_toks(acc));
        lemma_toks_equiv_refl(render_toks(acc));
    } else {
        assert(ts[i] matches TokenModel::OpTok { .. });
        let op = ts[i]->OpTok_op;
        assert(i + 1 < ts.len());
        let prim = match ts[i + 1] {
            TokenModel::Num { digits } => ExprModel::Num { value: digits_val(digits) },
            TokenModel::Ident { name } => ExprModel::Var { name },
            TokenModel::OpTok { .. } => acc,
        };
        match ts[i + 1] {
            TokenModel::Num { digits } => {
                lemma_digits_val_nonneg(digits);
                assert(parse_primary_m(ts, i + 1) == Ok::<ExprModel, crate::expr::EngineError>(
                    prim,
                ));
                lemma_digits_val_roundtrip(digits_val(digits));
                assert(tok_equiv(render_toks(prim)[0], ts[i + 1]));
            },
            TokenModel::Ident { name } => {
                assert(parse_primary_m(ts, i + 1) == Ok::<ExprModel, crate::expr::EngineError>(
                    prim,
                ));
                assert(tok_equiv(render_toks(prim)[0], ts[i + 1]));
            },
            TokenModel::OpTok { .. } => {
                assert(false);
            },
        }
        assert(renderable(prim));
        let acc2 = ExprModel::Bin { op, left: Box::new(acc), right: Box::new(prim) };
        assert(renderable(acc2));
        lemma_parse_wf(ts, i + 2, acc2);
        assert(parse_ops_m(ts, i, acc) == parse_ops_m(ts, i + 2, acc2));
        let r = parse_ops_m(ts, i + 2, acc2)->Ok_0;
        assert(toks_equiv(render_toks(r.0), render_toks(acc2).add(ts.skip(i + 2))));
        assert(render_toks(acc2) == render_toks(acc).add(seq![TokenModel::OpTok { op }]).add(
            render_toks(prim),
        ));
        assert(toks_equiv(seq![TokenModel::OpTok { op }], seq![ts[i]]));
        assert(toks_equiv(render_toks(prim), seq![ts[i + 1]])) by {
            assert(render_toks(prim).len() == 1);
            assert(tok_equiv(render_toks(prim)[0], ts[i + 1]));
        }
        lemma_toks_equiv_refl(render_toks(acc));
        lemma_toks_equiv_refl(ts.skip(i + 2));
        lemma_toks_equiv_concat(
            render_toks(acc),
            render_toks(acc),
            seq![TokenModel::OpTok { op }],
            seq![ts[i]],
        );
        lemma_toks_equiv_concat(
            render_toks(acc).add(seq![TokenModel::OpTok { op }]),
            render_toks(acc).add(seq![ts[i]]),
            render_toks(prim),
            seq![ts[i + 1]],
        );
        lemma_toks_equiv_concat(
            render_toks(acc2),
            render_toks(acc).add(seq![ts[i]]).add(seq![ts[i + 1]]),
            ts.skip(i + 2),
            ts.skip(i + 2),
        );
        assert(render_toks(acc).add(seq![ts[i]]).add(seq![ts[i + 1]]).add(ts.skip(i + 2))
            =~= render_toks(acc).add(ts.skip(i)));
        lemma_toks_equiv_trans(
            render_toks(r.0),
            render_toks(acc2).add(ts.skip(i + 2)),
            render_toks(acc).add(ts.skip(i)),
        );
    }
}

/// Round trip: for every formula whose tokens alternate operand and
/// operator, use only `+` and `*`, name variables with single characters
/// and keep numbers within the machine's integers, parsing succeeds,
/// consumes every token, and rendering the parsed expression reproduces a
/// token-for-token equivalent of the input — identical identifiers and
/// operators, and numbers of identical value.
pub proof fn lemma_render_round_trip(s: Seq<char>)
    requires
        formula_shape(toks_of(s)),
    ensures
        parse_formula_m(s) is Ok,
        toks_equiv(toks_of(render_m(parse_formula_m(s)->Ok_0)), toks_of(s)),
        parse_binary_m(toks_of(s), 0) matches Ok(r) && r.1 == toks_of(s).len(),
{
    let ts = toks_of(s);
    lemma_split_ws_frags(s);
    assert(frag_wf(ts)) by {
        assert forall|i: int| 0 <= i < ts.len() implies match #[trigger] ts[i] {
            TokenModel::Num { digits } => digits.len() > 0 && all_digits(digits),
            TokenModel::Ident { name } => name.len() > 0 && (forall|j: int|
                0 <= j < name.len() ==> !is_space_c(name[j])) && classify(name)
                == TokenModel::Ident { name },
            TokenModel::OpTok { .. } => true,
        } by {
            let w = split_ws(s)[i];
            assert(ts[i] == classify(w));
        }
    }
    assert(ts[0] is Num || ts[0] is Ident);
    let prim = match ts[0] {
        TokenModel::Num { digits } => ExprModel::Num { value: digits_val(digits) },
        TokenModel::Ident { name } => ExprModel::Var { name },
        TokenModel::OpTok { .. } => ExprModel::Num { value: 0 },
    };
    match ts[0] {
        TokenModel::Num { digits } => {
            lemma_digits_val_nonneg(digits);
            assert(parse_primary_m(ts, 0) == Ok::<ExprModel, crate::expr::EngineError>(prim));
            lemma_digits_val_roundtrip(digits_val(digits));
            assert(tok_equiv(render_toks(prim)[0], ts[0]));
        },
        TokenModel::Ident { name } => {
            assert(parse_primary_m(ts, 0) == Ok::<ExprModel, crate::expr::EngineError>(prim));
            assert(tok_equiv(render_toks(prim)[0], ts[0]));
        },
        TokenModel::OpTok { .. } => {
            assert(false);
        },
    }
    assert(renderable(prim));
    lemma_parse_wf(ts, 1, prim);
    let r = parse_ops_m(ts, 1, prim)->Ok_0;
    assert(parse_binary_m(ts, 0) == Ok::<(ExprModel, int), crate::expr::EngineError>(r));
    assert(parse_formula_m(s) == Ok::<ExprModel, crate::expr::EngineError>(r.0));
    assert(toks_equiv(render_toks(r.0), render_toks(prim).add(ts.skip(1))));
    assert(toks_equiv(render_toks(prim), seq![ts[0]])) by {
        assert(render_toks(prim).len() == 1);
        assert(tok_equiv(render_toks(prim)[0], ts[0]));
    }
    lemma_toks_equiv_refl(ts.skip(1));
    lemma_toks_equiv_concat(render_toks(prim), seq![ts[0]], ts.skip(1), ts.skip(1));
    assert(seq![ts[0]].add(ts.skip(1)) =~= ts);
    lemma_toks_equiv_trans(
        render_toks(r.0),
        render_toks(prim).add(ts.skip(1)),
        ts,
    );
    assert(renderable(r.0));
    lemma_tokenize_render(r.0);
}

} // verus!
