use vstd::prelude::*;
use crate::ast::Expr;
use crate::ast::count_numbers;
use crate::laws::{count_literals, lemma_gen_count, lemma_leaves_match_literals, lemma_primary_count};
use crate::parser::{
    Cursor, Failure, advance, binary, climb, combine, cursor_wf, expect, gen, lemma_advance,
    lemma_climb_shrinks, lemma_combine_shrinks, lemma_gen_shrinks, lemma_primary_shrinks, measure,
    parse_spec, primary, start, unable,
};
use crate::token::{OperPrec, Token, spec_prec_of, spec_rhs_prec};

verus! {

// The grammar of expressions, one function per rule:
//   expr    := term (('+' | '-') term)*
//   term    := factor (('*' | '/') factor)*
//   factor  := power ('^' factor)?
//   power   := '-' factor | primary
//   primary := number | '(' expr ')' ('(' expr ')')?
// Each returns the tree of the phrase that starts at the cursor, and the
// cursor after it. As in the parser, recursive steps are guarded by a drop of
// `measure`.

pub open spec fn g_expr(s: Seq<char>, c: Cursor) -> Result<(Expr, Cursor), Failure>
    decreases measure(s, c), 4nat,
{
    match g_term(s, c) {
        Ok((l, c1)) => if measure(s, c1) < measure(s, c) {
            g_expr_rest(s, l, c1)
        } else {
            Err(unable())
        },
        Err(f) => Err(f),
    }
}

pub open spec fn g_expr_rest(s: Seq<char>, l: Expr, c: Cursor) -> Result<(Expr, Cursor), Failure>
    decreases measure(s, c), 4nat,
{
    if c.cur is Add || c.cur is Subtract {
        match advance(s, c) {
            Ok(c1) => if measure(s, c1) < measure(s, c) {
                match g_term(s, c1) {
                    Ok((r, c2)) => if measure(s, c2) < measure(s, c) {
                        g_expr_rest(s, binary(c.cur, l, r), c2)
                    } else {
                        Err(unable())
                    },
                    Err(f) => Err(f),
                }
            } else {
                Err(unable())
            },
            Err(f) => Err(f),
        }
    } else {
        Ok((l, c))
    }
}

pub open spec fn g_term(s: Seq<char>, c: Cursor) -> Result<(Expr, Cursor), Failure>
    decreases measure(s, c), 3nat,
{
    match g_factor(s, c) {
        Ok((l, c1)) => if measure(s, c1) < measure(s, c) {
            g_term_rest(s, l, c1)
        } else {
            Err(unable())
        },
        Err(f) => Err(f),
    }
}

pub open spec fn g_term_rest(s: Seq<char>, l: Expr, c: Cursor) -> Result<(Expr, Cursor), Failure>
    decreases measure(s, c), 3nat,
{
    if c.cur is Multiply || c.cur is Divide {
        match advance(s, c) {
            Ok(c1) => if measure(s, c1) < measure(s, c) {
                match g_factor(s, c1) {
                    Ok((r, c2)) => if measure(s, c2) < measure(s, c) {
                        g_term_rest(s, binary(c.cur, l, r), c2)
                    } else {
                        Err(unable())
                    },
                    Err(f) => Err(f),
                }
            } else {
                Err(unable())
            },
            Err(f) => Err(f),
        }
    } else {
        Ok((l, c))
    }
}

pub open spec fn g_factor(s: Seq<char>, c: Cursor) -> Result<(Expr, Cursor), Failure>
    decreases measure(s, c), 2nat,
{
    match g_power(s, c) {
        Ok((l, c1)) => if c1.cur is Caret {
            match advance(s, c1) {
                Ok(c2) => if measure(s, c2) < measure(s, c) {
                    match g_factor(s, c2) {
                        Ok((r, c3)) => Ok((Expr::Caret(Box::new(l), Box::new(r)), c3)),
                        Err(f) => Err(f),
                    }
                } else {
                    Err(unable())
                },
                Err(f) => Err(f),
            }
        } else {
            Ok((l, c1))
        },
        Err(f) => Err(f),
    }
}

pub open spec fn g_power(s: Seq<char>, c: Cursor) -> Result<(Expr, Cursor), Failure>
    decreases measure(s, c), 1nat,
{
    if c.cur is Subtract {
        match advance(s, c) {
            Ok(c1) => if measure(s, c1) < measure(s, c) {
                match g_factor(s, c1) {
                    Ok((e, c2)) => Ok((Expr::Negative(Box::new(e)), c2)),
                    Err(f) => Err(f),
                }
            } else {
                Err(unable())
            },
            Err(f) => Err(f),
        }
    } else {
        g_primary(s, c)
    }
}

pub open spec fn g_primary(s: Seq<char>, c: Cursor) -> Result<(Expr, Cursor), Failure>
    decreases measure(s, c), 0nat,
{
    match c.cur {
        Token::Num(a, b) => match advance(s, c) {
            Ok(c1) => Ok((Expr::Number(s.subrange(a as int, b as int)), c1)),
            Err(f) => Err(f),
        },
        Token::LeftParen => match advance(s, c) {
            Ok(c1) => if measure(s, c1) < measure(s, c) {
                match g_expr(s, c1) {
                    Ok((e, c2)) => match expect(s, c2, Token::RightParen) {
                        Ok(c3) => if !(c3.cur is LeftParen) {
                            Ok((e, c3))
                        } else {
                            match advance(s, c3) {
                                Ok(c4) => if measure(s, c4) < measure(s, c) {
                                    match g_expr(s, c4) {
                                        Ok((r, c5)) => match expect(s, c5, Token::RightParen) {
                                            Ok(c6) => Ok(
                                                (Expr::Multiply(Box::new(e), Box::new(r)), c6),
                                            ),
                                            Err(f) => Err(f),
                                        },
                                        Err(f) => Err(f),
                                    }
                                } else {
                                    Err(unable())
                                },
                                Err(f) => Err(f),
                            }
                        },
                        Err(f) => Err(f),
                    },
                    Err(f) => Err(f),
                }
            } else {
                Err(unable())
            },
            Err(f) => Err(f),
        },
        _ => Err(unable()),
    }
}

/// Extending at `p` is extending at a tighter `q` first, then at `p`.
proof fn lemma_climb_split(s: Seq<char>, l: Expr, c: Cursor, p: OperPrec, q: OperPrec)
    requires
        p.spec_level() <= q.spec_level(),
    ensures
        climb(s, l, c, p) == match climb(s, l, c, q) {
            Ok((l1, c1)) => climb(s, l1, c1, p),
            Err(f) => Err(f),
        },
    decreases measure(s, c),
{
    if !(c.cur is EndOfInput || spec_prec_of(c.cur).spec_level() <= q.spec_level()) {
        if let Ok((e, c1)) = combine(s, l, c) {
            if measure(s, c1) < measure(s, c) {
                lemma_climb_split(s, e, c1, p, q);
            }
        }
    }
}

/// Extending at `p` stops at the end or at an operator no tighter than `p`.
proof fn lemma_climb_stops(s: Seq<char>, l: Expr, c: Cursor, p: OperPrec)
    ensures
        climb(s, l, c, p) matches Ok((e, c1)) ==> c1.cur is EndOfInput || spec_prec_of(
            c1.cur,
        ).spec_level() <= p.spec_level(),
    decreases measure(s, c),
{
    if !(c.cur is EndOfInput || spec_prec_of(c.cur).spec_level() <= p.spec_level()) {
        if let Ok((e, c1)) = combine(s, l, c) {
            if measure(s, c1) < measure(s, c) {
                lemma_climb_stops(s, e, c1, p);
            }
        }
    }
}

proof fn lemma_gen_stops(s: Seq<char>, c: Cursor, p: OperPrec)
    ensures
        gen(s, c, p) matches Ok((e, c1)) ==> c1.cur is EndOfInput || spec_prec_of(
            c1.cur,
        ).spec_level() <= p.spec_level(),
{
    if let Ok((l, c1)) = primary(s, c) {
        lemma_climb_stops(s, l, c1, p);
    }
}

proof fn lemma_expr(s: Seq<char>, c: Cursor)
    requires
        cursor_wf(s, c),
    ensures
        gen(s, c, OperPrec::DefaultZero) == g_expr(s, c),
    decreases measure(s, c), 4nat,
{
    lemma_term(s, c);
    lemma_primary_shrinks(s, c);
    lemma_primary_count(s, c);
    if let Ok((l, c1)) = primary(s, c) {
        lemma_climb_split(s, l, c1, OperPrec::DefaultZero, OperPrec::AddSub);
        lemma_gen_shrinks(s, c, OperPrec::AddSub);
        lemma_gen_count(s, c, OperPrec::AddSub);
        lemma_gen_stops(s, c, OperPrec::AddSub);
        if let Ok((l1, c2)) = gen(s, c, OperPrec::AddSub) {
            lemma_expr_rest(s, l1, c2);
        }
    }
}

proof fn lemma_expr_rest(s: Seq<char>, l: Expr, c: Cursor)
    requires
        cursor_wf(s, c),
        c.cur is EndOfInput || spec_prec_of(c.cur).spec_level() <= 1,
    ensures
        climb(s, l, c, OperPrec::DefaultZero) == g_expr_rest(s, l, c),
    decreases measure(s, c), 4nat,
{
    if c.cur is Add || c.cur is Subtract {
        lemma_advance(s, c);
        lemma_combine_shrinks(s, l, c);
        if let Ok(c1) = advance(s, c) {
            lemma_term(s, c1);
            lemma_gen_count(s, c1, OperPrec::AddSub);
            lemma_gen_stops(s, c1, OperPrec::AddSub);
            assert(spec_rhs_prec(c.cur) == OperPrec::AddSub);
            if let Ok((r, c2)) = gen(s, c1, OperPrec::AddSub) {
                lemma_expr_rest(s, binary(c.cur, l, r), c2);
            }
        }
    }
}

proof fn lemma_term(s: Seq<char>, c: Cursor)
    requires
        cursor_wf(s, c),
    ensures
        gen(s, c, OperPrec::AddSub) == g_term(s, c),
    decreases measure(s, c), 3nat,
{
    lemma_factor(s, c);
    lemma_primary_shrinks(s, c);
    lemma_primary_count(s, c);
    if let Ok((l, c1)) = primary(s, c) {
        lemma_climb_split(s, l, c1, OperPrec::AddSub, OperPrec::MulDiv);
        lemma_gen_shrinks(s, c, OperPrec::MulDiv);
        lemma_gen_count(s, c, OperPrec::MulDiv);
        lemma_gen_stops(s, c, OperPrec::MulDiv);
        if let Ok((l1, c2)) = gen(s, c, OperPrec::MulDiv) {
            lemma_term_rest(s, l1, c2);
        }
    }
}

proof fn lemma_term_rest(s: Seq<char>, l: Expr, c: Cursor)
    requires
        cursor_wf(s, c),
        c.cur is EndOfInput || spec_prec_of(c.cur).spec_level() <= 2,
    ensures
        climb(s, l, c, OperPrec::AddSub) == g_term_rest(s, l, c),
    decreases measure(s, c), 3nat,
{
    if c.cur is Multiply || c.cur is Divide {
        lemma_advance(s, c);
        lemma_combine_shrinks(s, l, c);
        if let Ok(c1) = advance(s, c) {
            lemma_factor(s, c1);
            lemma_gen_count(s, c1, OperPrec::MulDiv);
            lemma_gen_stops(s, c1, OperPrec::MulDiv);
            assert(spec_rhs_prec(c.cur) == OperPrec::MulDiv);
            if let Ok((r, c2)) = gen(s, c1, OperPrec::MulDiv) {
                lemma_term_rest(s, binary(c.cur, l, r), c2);
            }
        }
    }
}

proof fn lemma_factor(s: Seq<char>, c: Cursor)
    requires
        cursor_wf(s, c),
    ensures
        gen(s, c, OperPrec::MulDiv) == g_factor(s, c),
    decreases measure(s, c), 2nat,
{
    lemma_power(s, c);
    lemma_primary_shrinks(s, c);
    lemma_primary_count(s, c);
    if let Ok((l, c1)) = primary(s, c) {
        if c1.cur is Caret {
            lemma_advance(s, c1);
            lemma_combine_shrinks(s, l, c1);
            if let Ok(c2) = advance(s, c1) {
                lemma_factor(s, c2);
                lemma_gen_shrinks(s, c2, OperPrec::MulDiv);
                lemma_gen_stops(s, c2, OperPrec::MulDiv);
                if let Ok((r, c3)) = gen(s, c2, OperPrec::MulDiv) {
                    let e = Expr::Caret(Box::new(l), Box::new(r));
                    assert(combine(s, l, c1) == Ok::<(Expr, Cursor), Failure>((e, c3)));
                    assert(climb(s, e, c3, OperPrec::MulDiv) == Ok::<(Expr, Cursor), Failure>(
                        (e, c3),
                    ));
                }
            }
        }
    }
}

proof fn lemma_power(s: Seq<char>, c: Cursor)
    requires
        cursor_wf(s, c),
    ensures
        primary(s, c) == g_power(s, c),
    decreases measure(s, c), 1nat,
{
    lemma_advance(s, c);
    if let Ok(c1) = advance(s, c) {
        if c.cur is Subtract {
            lemma_factor(s, c1);
        } else if c.cur is LeftParen {
            lemma_expr(s, c1);
            lemma_gen_count(s, c1, OperPrec::DefaultZero);
            if let Ok((e, c2)) = gen(s, c1, OperPrec::DefaultZero) {
                lemma_advance(s, c2);
                if let Ok(c3) = expect(s, c2, Token::RightParen) {
                    lemma_advance(s, c3);
                    if let Ok(c4) = advance(s, c3) {
                        if c3.cur is LeftParen && measure(s, c4) < measure(s, c) {
                            lemma_expr(s, c4);
                        }
                    }
                }
            }
        }
    }
}

/// The parser builds exactly the tree that the rules of the grammar give,
/// applied from the first token of the input, and stops where they stop.
pub proof fn lemma_parse_follows_grammar(s: Seq<char>)
    requires
        s.len() <= usize::MAX,
    ensures
        parse_spec(s) == match start(s) {
            Ok(c) => g_expr(s, c),
            Err(f) => Err(f),
        },
{
    crate::tokenizer::lemma_lex_step(s, 0);
    if let Ok(c) = start(s) {
        lemma_expr(s, c);
    }
}

/// For an input that is one `expr` of the grammar, read to its end, the tree
/// has one `Number` leaf for each numeric literal of the input.
pub proof fn lemma_sentence_leaves(s: Seq<char>)
    requires
        s.len() <= usize::MAX,
        start(s) matches Ok(c0) && g_expr(s, c0) matches Ok((e, c)) && c.cur is EndOfInput,
    ensures
        parse_spec(s) matches Ok((e, c)) && c.cur is EndOfInput && count_numbers(e)
            == count_literals(s),
{
    lemma_parse_follows_grammar(s);
    lemma_leaves_match_literals(s);
}

} // verus!
