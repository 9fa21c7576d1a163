//! The engine: holds the token buffer, the parser cursor and the parsed
//! expressions of one session, and drives tokenize → parse → differentiate.
//! Errors are returned to the caller; the surrounding shell decides whether
//! to report and prompt again.

use crate::deriv::{d_m, differentiate};
use crate::expr::{nv_m, render_m, EngineError, Expr, ExprModel};
use crate::parser::{lemma_parse_ops_bounds, parse_binary, parse_binary_m, parse_primary_m};
use crate::text::{dec_str, i64_to_string, push_char};
use crate::tokens::{
    lemma_toks_of_wf, token_views, tokenize, toks_of, wf_tokens, Token, TokenModel,
};
use std::rc::Rc;
use vstd::prelude::*;

verus! {

/// The views of a sequence of shared expressions.
pub open spec fn expr_views(es: Seq<Rc<Expr>>) -> Seq<ExprModel> {
    es.map_values(|e: Rc<Expr>| e@)
}

#[via_fn]
proof fn parse_all_via(toks: Seq<TokenModel>, i: int) {
    if 0 <= i < toks.len() {
        match parse_primary_m(toks, i) {
            Ok(first) => {
                lemma_parse_ops_bounds(toks, i + 1, first);
            },
            Err(_) => {},
        }
    }
}

/// Parses `binary` productions one after another until the tokens run out,
/// or fails at the first production that does not parse.
pub open spec fn parse_all_m(toks: Seq<TokenModel>, i: int) -> Result<Seq<ExprModel>, EngineError>
    decreases toks.len() - i,
        via parse_all_via
{
    if 0 <= i < toks.len() {
        match parse_binary_m(toks, i) {
            Err(e) => Err(e),
            Ok(r) => match parse_all_m(toks, r.1) {
                Err(e) => Err(e),
                Ok(rest) => Ok(seq![r.0].add(rest)),
            },
        }
    } else {
        Ok(Seq::empty())
    }
}

/// Puts already-parsed expressions in front of a parse outcome.
pub open spec fn prepend_parsed(pre: Seq<ExprModel>, r: Result<Seq<ExprModel>, EngineError>)
    -> Result<Seq<ExprModel>, EngineError> {
    match r {
        Ok(rest) => Ok(pre.add(rest)),
        Err(e) => Err(e),
    }
}

/// The numeric folds of a sequence of expressions, each rendered with a
/// trailing space; the first expression without a value stops the fold.
pub open spec fn simplify_all_m(es: Seq<ExprModel>) -> Result<Seq<Seq<char>>, EngineError>
    decreases es.len(),
{
    if es.len() == 0 {
        Ok(Seq::empty())
    } else {
        match nv_m(es[0]) {
            None => Err(EngineError::EvaluationError),
            Some(v) => match simplify_all_m(es.drop_first()) {
                Err(e) => Err(e),
                Ok(rest) => Ok(seq![dec_str(v).push(' ')].add(rest)),
            },
        }
    }
}

/// Puts already-rendered folds in front of a fold outcome.
pub open spec fn prepend_rendered(pre: Seq<Seq<char>>, r: Result<Seq<Seq<char>>, EngineError>)
    -> Result<Seq<Seq<char>>, EngineError> {
    match r {
        Ok(rest) => Ok(pre.add(rest)),
        Err(e) => Err(e),
    }
}

/// The concatenated renderings of a sequence of expressions.
pub open spec fn render_all_m(es: Seq<ExprModel>) -> Seq<char>
    decreases es.len(),
{
    if es.len() == 0 {
        Seq::empty()
    } else {
        render_m(es[0]).add(render_all_m(es.drop_first()))
    }
}

/// One evaluation session: a token buffer, the parser cursor into it, and
/// the expressions parsed so far.
pub struct Vivi {
    tokens: Vec<Token>,
    curr: usize,
    ast: Vec<Rc<Expr>>,
}

impl Vivi {
    /// The tokens of the session.
    pub closed spec fn toks(self) -> Seq<TokenModel> {
        token_views(self.tokens@)
    }

    /// The parser cursor.
    pub closed spec fn cursor(self) -> int {
        self.curr as int
    }

    /// The expressions parsed so far.
    pub closed spec fn ast_models(self) -> Seq<ExprModel> {
        expr_views(self.ast@)
    }

    /// A session always keeps its cursor inside the token buffer and its
    /// tokens as the tokenizer made them.
    pub closed spec fn wf(self) -> bool {
        &&& wf_tokens(self.toks())
        &&& 0 <= self.cursor() <= self.toks().len()
    }

    /// Starts a session on a query: tokenizes it and leaves the cursor at
    /// the front with nothing parsed yet.
    pub fn new(query: &String) -> (s: Self)
        ensures
            s.toks() == toks_of(query@),
            s.cursor() == 0,
            s.ast_models() == Seq::<ExprModel>::empty(),
            s.wf(),
    {
        let s = Vivi { tokens: tokenize(query.as_str()), curr: 0, ast: Vec::new() };
        proof {
            lemma_toks_of_wf(query@);
            assert(s.ast_models() =~= Seq::<ExprModel>::empty());
        }
        s
    }

    /// Parses every remaining expression into the session. An empty token
    /// stream is a `SyntaxError`: a formula needs at least one token. On
    /// failure the session is left as it was.
    #[verifier::loop_isolation(false)]
    pub fn eval(&mut self) -> (r: Result<(), EngineError>)
        requires
            old(self).wf(),
        ensures
            final(self).toks() == old(self).toks(),
            final(self).wf(),
            old(self).toks().len() == 0 ==> (r == Err::<(), EngineError>(EngineError::SyntaxError)
                && *final(self) == *old(self)),
            old(self).toks().len() > 0 ==> ({
                let pr = parse_all_m(old(self).toks(), old(self).cursor());
                &&& (pr matches Ok(es) ==> (r is Ok && final(self).ast_models() == old(self).ast_models().add(es) && final(self).cursor() == old(self).toks().len()))
                &&& (pr matches Err(e) ==> (r == Err::<(), EngineError>(e) && *final(self) == *old(self)))
            }),
    {
        if self.tokens.len() == 0 {
            return Err(EngineError::SyntaxError);
        }
        let ghost tv = self.toks();
        let ghost c0 = self.curr as int;
        let mut collected: Vec<Rc<Expr>> = Vec::new();
        let mut p: usize = self.curr;
        proof {
            assert(expr_views(collected@) =~= Seq::<ExprModel>::empty());
            assert(Seq::<ExprModel>::empty().add(parse_all_m(tv, c0)->Ok_0) =~= parse_all_m(
                tv,
                c0,
            )->Ok_0);
        }
        while p < self.tokens.len()
            invariant
                tv == self.toks(),
                wf_tokens(tv),
                p <= self.tokens@.len(),
                parse_all_m(tv, c0) == prepend_parsed(
                    expr_views(collected@),
                    parse_all_m(tv, p as int),
                ),
            decreases self.tokens@.len() - p,
        {
            let ghost p_before = p as int;
            let e0 = match parse_binary(&self.tokens, &mut p) {
                Ok(e) => e,
                Err(er) => {
                    return Err(er);
                },
            };
            proof {
                match parse_primary_m(tv, p_before) {
                    Ok(first) => {
                        lemma_parse_ops_bounds(tv, p_before + 1, first);
                    },
                    Err(_) => {},
                }
            }
            let ghost ec_old = expr_views(collected@);
            collected.push(e0);
            proof {
                assert(expr_views(collected@) =~= ec_old.push(e0@));
                let after = parse_all_m(tv, p as int);
                if after is Ok {
                    let tail = after->Ok_0;
                    assert(parse_all_m(tv, p_before) == Ok::<Seq<ExprModel>, EngineError>(
                        seq![e0@].add(tail),
                    ));
                    assert(ec_old.add(seq![e0@].add(tail)) =~= ec_old.push(e0@).add(tail));
                } else {
                    let e = after->Err_0;
                    assert(parse_all_m(tv, p_before) == Err::<Seq<ExprModel>, EngineError>(e));
                }
            }
        }
        proof {
            assert(parse_all_m(tv, p as int) == Ok::<Seq<ExprModel>, EngineError>(Seq::empty()));
            assert(expr_views(collected@).add(Seq::<ExprModel>::empty()) =~= expr_views(
                collected@,
            ));
        }
        let ghost pre = self.ast@;
        let ghost added = collected@;
        self.ast.append(&mut collected);
        self.curr = p;
        proof {
            assert(self.ast@ == pre.add(added));
            assert(expr_views(pre.add(added)) =~= expr_views(pre).add(expr_views(added)));
        }
        Ok(())
    }

    /// Replaces the session's query: tokenizes the new text, clears what
    /// was parsed, and parses it all. A query with no tokens at all — the
    /// empty string among them — is a `SyntaxError`, and no tree is kept.
    pub fn parse_expr(&mut self, query: &String) -> (r: Result<(), EngineError>)
        ensures
            final(self).toks() == toks_of(query@),
            final(self).wf(),
            toks_of(query@).len() == 0 ==> (r == Err::<(), EngineError>(EngineError::SyntaxError)
                && final(self).ast_models() == Seq::<ExprModel>::empty() && final(self).cursor()
                == 0),
            toks_of(query@).len() > 0 ==> ({
                let pr = parse_all_m(toks_of(query@), 0);
                &&& (pr matches Ok(es) ==> (r is Ok && final(self).ast_models() == es && final(self).cursor() == toks_of(query@).len()))
                &&& (pr matches Err(e) ==> (r == Err::<(), EngineError>(e) && final(self).ast_models() == Seq::<ExprModel>::empty() && final(self).cursor() == 0))
            }),
    {
        self.tokens = tokenize(query.as_str());
        self.curr = 0;
        self.ast = Vec::new();
        proof {
            lemma_toks_of_wf(query@);
            assert(self.ast_models() =~= Seq::<ExprModel>::empty());
        }
        let r = self.eval();
        proof {
            if parse_all_m(toks_of(query@), 0) is Ok {
                let es = parse_all_m(toks_of(query@), 0)->Ok_0;
                assert(Seq::<ExprModel>::empty().add(es) =~= es);
            }
        }
        r
    }

    /// Parses everything still pending, then takes the first parsed
    /// expression out of the session and differentiates it with respect to
    /// the named variable. An empty token stream or an empty session is a
    /// `SyntaxError`.
    pub fn differentiate(&mut self, var: &str) -> (res: Result<Rc<Expr>, EngineError>)
        requires
            old(self).wf(),
        ensures
            old(self).toks().len() == 0 ==> res == Err::<Rc<Expr>, EngineError>(
                EngineError::SyntaxError,
            ),
            old(self).toks().len() > 0 && (parse_all_m(old(self).toks(), old(self).cursor())
                is Err) ==> res == Err::<Rc<Expr>, EngineError>(
                parse_all_m(old(self).toks(), old(self).cursor())->Err_0,
            ),
            old(self).toks().len() > 0 && (parse_all_m(old(self).toks(), old(self).cursor())
                is Ok) ==> ({
                let all = old(self).ast_models().add(
                    parse_all_m(old(self).toks(), old(self).cursor())->Ok_0,
                );
                if all.len() == 0 {
                    res == Err::<Rc<Expr>, EngineError>(EngineError::SyntaxError)
                } else {
                    (res matches Ok(e) ==> d_m(all[0], var@) == Ok::<ExprModel, EngineError>(e@))
                        && (res matches Err(er) ==> d_m(all[0], var@) == Err::<
                        ExprModel,
                        EngineError,
                    >(er)) && final(self).ast_models() == all.drop_first()
                }
            }),
    {
        match self.eval() {
            Ok(()) => {},
            Err(e) => {
                return Err(e);
            },
        }
        if self.ast.len() == 0 {
            proof {
                assert(self.ast_models() =~= Seq::<ExprModel>::empty());
            }
            return Err(EngineError::SyntaxError);
        }
        let ghost pre = self.ast@;
        let v = self.ast.remove(0);
        proof {
            assert(self.ast@ =~= pre.drop_first());
            assert(expr_views(pre.drop_first()) =~= expr_views(pre).drop_first());
            assert(v@ == expr_views(pre)[0]);
        }
        differentiate(&v, var)
    }

    /// Parses everything still pending, then folds every parsed
    /// expression down to one number and renders each, keeping the
    /// expressions. An expression that has no numeric value — a free
    /// variable inside it, a division by zero, or a fold outside the
    /// machine's integers — is an `EvaluationError`.
    #[verifier::loop_isolation(false)]
    pub fn simplify(&mut self) -> (r: Result<Vec<String>, EngineError>)
        requires
            old(self).wf(),
        ensures
            old(self).toks().len() == 0 ==> (r matches Err(e) && e == EngineError::SyntaxError),
            old(self).toks().len() > 0 && (parse_all_m(old(self).toks(), old(self).cursor())
                is Err) ==> (r matches Err(e) && e == parse_all_m(
                old(self).toks(),
                old(self).cursor(),
            )->Err_0),
            old(self).toks().len() > 0 && (parse_all_m(old(self).toks(), old(self).cursor())
                is Ok) ==> ({
                let all = old(self).ast_models().add(
                    parse_all_m(old(self).toks(), old(self).cursor())->Ok_0,
                );
                &&& final(self).ast_models() == all
                &&& (r matches Ok(vs) ==> simplify_all_m(all) == Ok::<
                    Seq<Seq<char>>,
                    EngineError,
                >(vs.deep_view()))
                &&& (r matches Err(e) ==> simplify_all_m(all) == Err::<
                    Seq<Seq<char>>,
                    EngineError,
                >(e))
            }),
    {
        match self.eval() {
            Ok(()) => {},
            Err(e) => {
                return Err(e);
            },
        }
        let ghost all = self.ast_models();
        let mut out: Vec<String> = Vec::new();
        let n = self.ast.len();
        let mut i: usize = 0;
        proof {
            assert(out.deep_view() =~~= Seq::<Seq<char>>::empty());
            assert(all.skip(0) =~= all);
            assert(prepend_rendered(out.deep_view(), simplify_all_m(all.skip(0)))
                == simplify_all_m(all));
        }
        while i < n
            invariant
                n == self.ast@.len(),
                i <= n,
                all == self.ast_models(),
                prepend_rendered(out.deep_view(), simplify_all_m(all.skip(i as int)))
                    == simplify_all_m(all),
            decreases n - i,
        {
            proof {
                assert(all.skip(i as int)[0] == all[i as int]);
                assert(all.skip(i as int).drop_first() =~= all.skip(i + 1));
            }
            let v = match self.ast[i].numeric_value() {
                Ok(v) => v,
                Err(e) => {
                    return Err(e);
                },
            };
            let mut text = i64_to_string(v);
            push_char(&mut text, ' ');
            let ghost out_before = out.deep_view();
            out.push(text);
            proof {
                assert(out.deep_view() =~~= out_before.push(dec_str(v as int).push(' ')));
                if simplify_all_m(all.skip(i + 1)) is Ok {
                    let rest = simplify_all_m(all.skip(i + 1))->Ok_0;
                    assert(simplify_all_m(all.skip(i as int)) == Ok::<
                        Seq<Seq<char>>,
                        EngineError,
                    >(seq![dec_str(v as int).push(' ')].add(rest)));
                    assert(out_before.add(seq![dec_str(v as int).push(' ')].add(rest))
                        =~= out_before.push(dec_str(v as int).push(' ')).add(rest));
                }
            }
            i = i + 1;
        }
        proof {
            assert(all.skip(n as int) =~= Seq::<ExprModel>::empty());
            assert(out.deep_view().add(Seq::<Seq<char>>::empty()) =~= out.deep_view());
        }
        Ok(out)
    }

    /// Renders every parsed expression in order, with one final line break.
    pub fn display(&self) -> (r: String)
        ensures
            r@ == render_all_m(self.ast_models()).push('\n'),
    {
        let mut out = String::new();
        let mut i: usize = 0;
        proof {
            assert(render_all_m(self.ast_models().take(0)) =~= Seq::<char>::empty());
            assert(out@ =~= render_all_m(self.ast_models().take(0)));
        }
        while i < self.ast.len()
            invariant
                i <= self.ast@.len(),
                out@ == render_all_m(self.ast_models().take(i as int)),
            decreases self.ast@.len() - i,
        {
            let piece = self.ast[i].render();
            let merged = out.concat(piece.as_str());
            out = merged;
            i = i + 1;
            proof {
                lemma_render_all_snoc(self.ast_models(), i as int);
            }
        }
        proof {
            assert(self.ast_models().take(self.ast_models().len() as int) =~= self.ast_models());
        }
        push_char(&mut out, '\n');
        out
    }
}

/// Rendering one more expression appends its rendering.
proof fn lemma_render_all_snoc(es: Seq<ExprModel>, i: int)
    requires
        0 < i <= es.len(),
    ensures
        render_all_m(es.take(i)) == render_all_m(es.take(i - 1)).add(render_m(es[i - 1])),
    decreases i,
{
    if i == 1 {
        assert(es.take(1).drop_first() =~= Seq::<ExprModel>::empty());
        assert(render_all_m(es.take(1)) == render_m(es.take(1)[0]).add(
            render_all_m(es.take(1).drop_first()),
        ));
        assert(render_m(es[0]).add(Seq::<char>::empty()) =~= render_m(es[0]));
        assert(render_all_m(es.take(0)) =~= Seq::<char>::empty());
        assert(Seq::<char>::empty().add(render_m(es[0])) =~= render_m(es[0]));
    } else {
        lemma_render_all_snoc(es.drop_first(), i - 1);
        assert(es.take(i).drop_first() =~= es.drop_first().take(i - 1));
        assert(es.take(i - 1).drop_first() =~= es.drop_first().take(i - 2));
        assert(es.take(i)[0] == es[0]);
        assert(es.take(i - 1)[0] == es[0]);
        assert(es.drop_first()[i - 2] == es[i - 1]);
        assert(render_all_m(es.take(i)) == render_m(es[0]).add(
            render_all_m(es.drop_first().take(i - 1)),
        ));
        assert(render_all_m(es.take(i - 1)) == render_m(es[0]).add(
            render_all_m(es.drop_first().take(i - 2)),
        ));
        assert(render_m(es[0]).add(
            render_all_m(es.drop_first().take(i - 2)).add(render_m(es[i - 1])),
        ) =~= render_m(es[0]).add(render_all_m(es.drop_first().take(i - 2))).add(
            render_m(es[i - 1]),
        ));
    }
}

} // verus!
