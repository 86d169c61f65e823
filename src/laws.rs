use vstd::prelude::*;
use crate::ast::{Expr, Node, count_numbers};
use crate::parser::{
    Cursor, ParserError, advance, binary, climb, combine, cursor_wf, expect, gen, is_binary_op,
    lemma_advance, measure, parse_spec, parses_as, primary, start,
};
use crate::token::{OperPrec, Token, spec_prec_of, spec_rhs_prec};
use crate::tokenizer::{
    Lexed, is_literal, is_num_char, lemma_lex_step, lex_step, run_end, single_char_token,
    skip_spaces,
};

verus! {

/// Numeric literals among the tokens from the cursor on, up to the end
/// marker or the first token that cannot be read.
pub open spec fn literals_from(s: Seq<char>, c: Cursor) -> nat
    decreases measure(s, c),
{
    let here: nat = if c.cur is Num { 1 } else { 0 };
    if c.cur is EndOfInput {
        0
    } else {
        match advance(s, c) {
            Ok(c1) => if measure(s, c1) < measure(s, c) {
                here + literals_from(s, c1)
            } else {
                here
            },
            Err(_) => here,
        }
    }
}

/// Numeric literals in the token stream of `s`.
pub open spec fn count_literals(s: Seq<char>) -> nat {
    match start(s) {
        Ok(c) => literals_from(s, c),
        Err(_) => 0,
    }
}

proof fn lemma_step_literals(s: Seq<char>, c: Cursor)
    requires
        cursor_wf(s, c),
        !(c.cur is EndOfInput),
    ensures
        advance(s, c) matches Ok(c1) ==> cursor_wf(s, c1) && literals_from(s, c) == (if c.cur is Num {
            1nat
        } else {
            0nat
        }) + literals_from(s, c1),
{
    lemma_advance(s, c);
}

proof fn lemma_binary_count(t: Token, l: Expr, r: Expr)
    ensures
        count_numbers(binary(t, l, r)) == count_numbers(l) + count_numbers(r),
{
}

pub proof fn lemma_gen_count(s: Seq<char>, c: Cursor, p: OperPrec)
    requires
        cursor_wf(s, c),
    ensures
        gen(s, c, p) matches Ok((e, c1)) ==> cursor_wf(s, c1) && literals_from(s, c)
            == count_numbers(e) + literals_from(s, c1),
    decreases measure(s, c), 1nat,
{
    lemma_primary_count(s, c);
    if let Ok((l, c1)) = primary(s, c) {
        if measure(s, c1) < measure(s, c) {
            lemma_climb_count(s, l, c1, p);
        }
    }
}

proof fn lemma_climb_count(s: Seq<char>, l: Expr, c: Cursor, p: OperPrec)
    requires
        cursor_wf(s, c),
    ensures
        climb(s, l, c, p) matches Ok((e, c1)) ==> cursor_wf(s, c1) && literals_from(s, c)
            + count_numbers(l) == count_numbers(e) + literals_from(s, c1),
    decreases measure(s, c), 1nat,
{
    if !(c.cur is EndOfInput || spec_prec_of(c.cur).spec_level() <= p.spec_level()) {
        lemma_combine_count(s, l, c);
        if let Ok((e, c1)) = combine(s, l, c) {
            if measure(s, c1) < measure(s, c) {
                lemma_climb_count(s, e, c1, p);
            }
        }
    }
}

proof fn lemma_combine_count(s: Seq<char>, l: Expr, c: Cursor)
    requires
        cursor_wf(s, c),
    ensures
        combine(s, l, c) matches Ok((e, c1)) ==> cursor_wf(s, c1) && literals_from(s, c)
            + count_numbers(l) == count_numbers(e) + literals_from(s, c1),
    decreases measure(s, c), 0nat,
{
    if is_binary_op(c.cur) {
        lemma_step_literals(s, c);
        if let Ok(c1) = advance(s, c) {
            if measure(s, c1) < measure(s, c) {
                lemma_gen_count(s, c1, spec_rhs_prec(c.cur));
                if let Ok((r, c2)) = gen(s, c1, spec_rhs_prec(c.cur)) {
                    lemma_binary_count(c.cur, l, r);
                }
            }
        }
    }
}

pub proof fn lemma_primary_count(s: Seq<char>, c: Cursor)
    requires
        cursor_wf(s, c),
    ensures
        primary(s, c) matches Ok((e, c1)) ==> cursor_wf(s, c1) && literals_from(s, c)
            == count_numbers(e) + literals_from(s, c1),
    decreases measure(s, c), 0nat,
{
    if c.cur is Subtract || c.cur is Num || c.cur is LeftParen {
        lemma_step_literals(s, c);
    }
    if let Ok(c1) = advance(s, c) {
        if measure(s, c1) < measure(s, c) {
            match c.cur {
                Token::Subtract => lemma_gen_count(s, c1, OperPrec::MulDiv),
                Token::LeftParen => {
                    lemma_gen_count(s, c1, OperPrec::DefaultZero);
                    if let Ok((e, c2)) = gen(s, c1, OperPrec::DefaultZero) {
                        if c2.cur is RightParen {
                            lemma_step_literals(s, c2);
                            if let Ok(c3) = expect(s, c2, Token::RightParen) {
                                if c3.cur is LeftParen {
                                    lemma_step_literals(s, c3);
                                    if let Ok(c4) = advance(s, c3) {
                                        if measure(s, c4) < measure(s, c) {
                                            lemma_gen_count(s, c4, OperPrec::DefaultZero);
                                            if let Ok((r, c5)) = gen(s, c4, OperPrec::DefaultZero) {
                                                if c5.cur is RightParen {
                                                    lemma_step_literals(s, c5);
                                                }
                                            }
                                        }
                                    }
                                }
                            }
                        }
                    }
                },
                _ => {},
            }
        }
    }
}

/// When a parse reads its input to the end, the tree has one `Number` leaf
/// for each numeric literal of the input.
pub proof fn lemma_leaves_match_literals(s: Seq<char>)
    requires
        s.len() <= usize::MAX,
        parse_spec(s) matches Ok((e, c)) && c.cur is EndOfInput,
    ensures
        parse_spec(s) matches Ok((e, c)) && count_numbers(e) == count_literals(s),
{
    lemma_lex_step(s, 0);
    let c0 = start(s)->Ok_0;
    lemma_gen_count(s, c0, OperPrec::DefaultZero);
}

/// Parsing is a function of the input alone: two parses of one string agree,
/// on the tree or on the error and its message.
pub proof fn lemma_parse_deterministic(
    s: Seq<char>,
    r1: Result<Node, ParserError>,
    r2: Result<Node, ParserError>,
)
    requires
        parses_as(s, r1),
        parses_as(s, r2),
    ensures
        r1 is Ok <==> r2 is Ok,
        r1 matches Ok(n1) ==> r2 matches Ok(n2) && n1@ == n2@,
        r1 matches Err(e1) ==> r2 matches Err(e2) && e1@ == e2@,
{
}

proof fn lemma_run_to(s: Seq<char>, i: nat, e: nat)
    requires
        i <= e <= s.len(),
        forall|k: int| i <= k < e ==> is_num_char(#[trigger] s[k]),
        e == s.len() || !is_num_char(s[e as int]),
    ensures
        run_end(s, i) == e,
    decreases e - i,
{
    if i < e {
        lemma_run_to(s, i + 1, e);
    }
}

/// A literal of length `n` at position `i`, not followed by a literal character, is one token.
proof fn lemma_lex_literal(s: Seq<char>, i: nat, n: nat)
    requires
        i + n <= s.len() <= usize::MAX,
        is_literal(s.subrange(i as int, (i + n) as int)),
        i + n == s.len() || !is_num_char(s[(i + n) as int]),
    ensures
        lex_step(s, i) == Lexed::Tok(Token::Num(i as usize, (i + n) as usize), i + n),
{
    let x = s.subrange(i as int, (i + n) as int);
    assert(x[0] == s[i as int]);
    assert(skip_spaces(s, i) == i);
    assert forall|k: int| i <= k < i + n implies is_num_char(#[trigger] s[k]) by {
        assert(s[k] == x[k - i]);
    }
    lemma_run_to(s, i, i + n);
}

/// An operator or parenthesis character at position `i` is one token.
proof fn lemma_lex_symbol(s: Seq<char>, i: nat)
    requires
        i < s.len(),
        single_char_token(s[i as int]) is Some,
    ensures
        lex_step(s, i) == Lexed::Tok(single_char_token(s[i as int])->Some_0, i + 1),
{
    assert(skip_spaces(s, i) == i);
}

/// The end of the input gives the end marker.
proof fn lemma_lex_end(s: Seq<char>)
    ensures
        lex_step(s, s.len()) == Lexed::Tok(Token::EndOfInput, s.len()),
{
    assert(skip_spaces(s, s.len()) == s.len());
}

/// A numeric literal alone parses to that number, and with a minus sign
/// before it to the negation of that number; either way the whole input is read.
pub proof fn lemma_literal_parses(x: Seq<char>)
    requires
        is_literal(x),
        x.len() < usize::MAX,
    ensures
        parse_spec(x) matches Ok((e, c)) && e == Expr::Number(x) && c.cur is EndOfInput,
        parse_spec(seq!['-'] + x) matches Ok((e, c)) && e == Expr::Negative(
            Box::new(Expr::Number(x)),
        ) && c.cur is EndOfInput,
{
    let n = x.len();
    assert(x.subrange(0, n as int) =~= x);
    lemma_lex_literal(x, 0, n);
    lemma_lex_end(x);
    let c1 = Cursor { cur: Token::Num(0, n as usize), pos: n, done: false };
    let c2 = Cursor { cur: Token::EndOfInput, pos: n, done: true };
    assert(start(x) == Ok::<Cursor, crate::parser::Failure>(c1));
    assert(advance(x, c1) == Ok::<Cursor, crate::parser::Failure>(c2));
    assert(primary(x, c1) == Ok::<(Expr, Cursor), crate::parser::Failure>((Expr::Number(x), c2)));
    assert(climb(x, Expr::Number(x), c2, OperPrec::DefaultZero) == Ok::<
        (Expr, Cursor),
        crate::parser::Failure,
    >((Expr::Number(x), c2)));
    assert(gen(x, c1, OperPrec::DefaultZero) == Ok::<(Expr, Cursor), crate::parser::Failure>(
        (Expr::Number(x), c2),
    ));

    let y = seq!['-'] + x;
    assert(y.subrange(1, (n + 1) as int) =~= x);
    assert(y[0] == '-');
    lemma_lex_symbol(y, 0);
    lemma_lex_literal(y, 1, n);
    lemma_lex_end(y);
    let d1 = Cursor { cur: Token::Subtract, pos: 1, done: false };
    let d2 = Cursor { cur: Token::Num(1, (n + 1) as usize), pos: n + 1, done: false };
    let d3 = Cursor { cur: Token::EndOfInput, pos: n + 1, done: true };
    assert(start(y) == Ok::<Cursor, crate::parser::Failure>(d1));
    assert(advance(y, d1) == Ok::<Cursor, crate::parser::Failure>(d2));
    assert(advance(y, d2) == Ok::<Cursor, crate::parser::Failure>(d3));
    assert(primary(y, d2) == Ok::<(Expr, Cursor), crate::parser::Failure>((Expr::Number(x), d3)));
    assert(climb(y, Expr::Number(x), d3, OperPrec::MulDiv) == Ok::<
        (Expr, Cursor),
        crate::parser::Failure,
    >((Expr::Number(x), d3)));
    assert(gen(y, d2, OperPrec::MulDiv) == Ok::<(Expr, Cursor), crate::parser::Failure>(
        (Expr::Number(x), d3),
    ));
    let neg = Expr::Negative(Box::new(Expr::Number(x)));
    assert(primary(y, d1) == Ok::<(Expr, Cursor), crate::parser::Failure>((neg, d3)));
    assert(climb(y, neg, d3, OperPrec::DefaultZero) == Ok::<(Expr, Cursor), crate::parser::Failure>(
        (neg, d3),
    ));
}

/// The text of a list of operator and literal pairs, written one after another.
pub open spec fn chain_text(rest: Seq<(char, Seq<char>)>) -> Seq<char>
    decreases rest.len(),
{
    if rest.len() == 0 {
        seq![]
    } else {
        seq![rest[0].0] + rest[0].1 + chain_text(rest.drop_first())
    }
}

/// `acc` combined with each pair in turn, each result becoming the left operand of the next.
pub open spec fn fold_chain(acc: Expr, rest: Seq<(char, Seq<char>)>) -> Expr
    decreases rest.len(),
{
    if rest.len() == 0 {
        acc
    } else {
        fold_chain(
            binary(single_char_token(rest[0].0)->Some_0, acc, Expr::Number(rest[0].1)),
            rest.drop_first(),
        )
    }
}

/// Every pair holds a binary operator of precedence `level` and a literal.
pub open spec fn one_level(rest: Seq<(char, Seq<char>)>, level: OperPrec) -> bool {
    forall|k: int|
        0 <= k < rest.len() ==> {
            &&& #[trigger] single_char_token(rest[k].0) matches Some(t)
            &&& is_binary_op(t)
            &&& spec_prec_of(t) == level
            &&& is_literal(rest[k].1)
        }
}

/// The cursor after reading the token at `j`, where the chain `r` starts.
pub open spec fn chain_cursor(s: Seq<char>, j: nat, r: Seq<(char, Seq<char>)>) -> Cursor {
    if r.len() == 0 {
        Cursor { cur: Token::EndOfInput, pos: s.len(), done: true }
    } else {
        Cursor { cur: single_char_token(r[0].0)->Some_0, pos: j + 1, done: false }
    }
}

proof fn lemma_split(s: Seq<char>, j: nat, x: Seq<char>, y: Seq<char>)
    requires
        j <= s.len(),
        s.subrange(j as int, s.len() as int) == x + y,
    ensures
        j + x.len() <= s.len(),
        s.subrange(j as int, (j + x.len()) as int) == x,
        s.subrange((j + x.len()) as int, s.len() as int) == y,
        y.len() > 0 ==> s[(j + x.len()) as int] == y[0],
{
    let t = s.subrange(j as int, s.len() as int);
    assert(t.len() == x.len() + y.len());
    assert(s.subrange(j as int, (j + x.len()) as int) =~= x) by {
        assert forall|k: int| 0 <= k < x.len() implies s[j + k] == x[k] by {
            assert(t[k] == (x + y)[k]);
        }
    }
    assert(s.subrange((j + x.len()) as int, s.len() as int) =~= y) by {
        assert forall|k: int| 0 <= k < y.len() implies s[j + x.len() + k] == y[k] by {
            assert(t[x.len() + k] == (x + y)[x.len() + k]);
        }
    }
    if y.len() > 0 {
        assert(t[x.len() as int] == (x + y)[x.len() as int]);
    }
}

/// Where the chain `r` starts at `j`, its first token is read as `chain_cursor` says.
proof fn lemma_chain_step(s: Seq<char>, j: nat, r: Seq<(char, Seq<char>)>, level: OperPrec)
    requires
        j <= s.len() <= usize::MAX,
        s.subrange(j as int, s.len() as int) == chain_text(r),
        one_level(r, level),
    ensures
        lex_step(s, j) == (match chain_cursor(s, j, r) {
            c => Lexed::Tok(c.cur, c.pos),
        }),
        r.len() > 0 ==> s.subrange((j + 1) as int, s.len() as int) == r[0].1 + chain_text(
            r.drop_first(),
        ),
        r.len() == 0 ==> j == s.len(),
{
    if r.len() == 0 {
        lemma_lex_end(s);
    } else {
        let rest = r[0].1 + chain_text(r.drop_first());
        assert(chain_text(r) =~= seq![r[0].0] + rest);
        lemma_split(s, j, seq![r[0].0], rest);
        assert(s.subrange(j as int, (j + 1) as int)[0] == s[j as int]);
        assert(s[j as int] == r[0].0);
        assert(single_char_token(r[0].0) is Some);
        lemma_lex_symbol(s, j);
    }
}

/// Reading the literal of the first pair and then extending at `p`, no
/// looser than the operators that follow: the literal alone comes back, and
/// the cursor stops at the next operator of the chain.
proof fn lemma_chain_operand(
    s: Seq<char>,
    j: nat,
    r: Seq<(char, Seq<char>)>,
    level: OperPrec,
    p: OperPrec,
)
    requires
        j < s.len() <= usize::MAX,
        r.len() > 0,
        s.subrange((j + 1) as int, s.len() as int) == r[0].1 + chain_text(r.drop_first()),
        is_literal(r[0].1),
        one_level(r.drop_first(), level),
        level.spec_level() <= p.spec_level(),
    ensures
        ({
            let n = r[0].1.len();
            let c1 = Cursor { cur: Token::Num((j + 1) as usize, (j + 1 + n) as usize), pos: j + 1 + n, done: false };
            &&& lex_step(s, j + 1) == Lexed::Tok(c1.cur, c1.pos)
            &&& gen(s, c1, p) == Ok::<(Expr, Cursor), crate::parser::Failure>(
                (Expr::Number(r[0].1), chain_cursor(s, j + 1 + n, r.drop_first())),
            )
            &&& s.subrange((j + 1 + n) as int, s.len() as int) == chain_text(r.drop_first())
        }),
{
    let lit = r[0].1;
    let n = lit.len();
    let r1 = r.drop_first();
    lemma_split(s, j + 1, lit, chain_text(r1));
    if r1.len() > 0 {
        assert(chain_text(r1)[0] == r1[0].0);
        assert(single_char_token(r1[0].0) is Some);
    }
    lemma_lex_literal(s, j + 1, n);
    lemma_chain_step(s, j + 1 + n, r1, level);
    let c1 = Cursor { cur: Token::Num((j + 1) as usize, (j + 1 + n) as usize), pos: j + 1 + n, done: false };
    let c2 = chain_cursor(s, j + 1 + n, r1);
    assert(advance(s, c1) == Ok::<Cursor, crate::parser::Failure>(c2));
    assert(primary(s, c1) == Ok::<(Expr, Cursor), crate::parser::Failure>((Expr::Number(lit), c2)));
    if r1.len() > 0 {
        assert(single_char_token(r1[0].0) matches Some(t) && spec_prec_of(t) == level);
    }
    assert(climb(s, Expr::Number(lit), c2, p) == Ok::<(Expr, Cursor), crate::parser::Failure>(
        (Expr::Number(lit), c2),
    ));
}

proof fn lemma_climb_chain(
    s: Seq<char>,
    j: nat,
    r: Seq<(char, Seq<char>)>,
    acc: Expr,
    level: OperPrec,
)
    requires
        j <= s.len() <= usize::MAX,
        level is AddSub || level is MulDiv,
        s.subrange(j as int, s.len() as int) == chain_text(r),
        one_level(r, level),
    ensures
        climb(s, acc, chain_cursor(s, j, r), OperPrec::DefaultZero) == Ok::<
            (Expr, Cursor),
            crate::parser::Failure,
        >((fold_chain(acc, r), Cursor { cur: Token::EndOfInput, pos: s.len(), done: true })),
    decreases r.len(),
{
    lemma_chain_step(s, j, r, level);
    if r.len() > 0 {
        let c = chain_cursor(s, j, r);
        let op = c.cur;
        let n = r[0].1.len();
        let r1 = r.drop_first();
        assert(single_char_token(r[0].0) matches Some(t) && is_binary_op(t) && spec_prec_of(t)
            == level);
        assert(spec_rhs_prec(op) == level);
        assert(one_level(r1, level)) by {
            assert forall|k: int| 0 <= k < r1.len() implies #[trigger] single_char_token(r1[k].0) matches Some(t) && is_binary_op(t) && spec_prec_of(t) == level && is_literal(r1[k].1) by {
                assert(r1[k] == r[k + 1]);
            }
        }
        lemma_chain_operand(s, j, r, level, level);
        let c1 = Cursor { cur: Token::Num((j + 1) as usize, (j + 1 + n) as usize), pos: j + 1 + n, done: false };
        let c2 = chain_cursor(s, j + 1 + n, r1);
        assert(advance(s, c) == Ok::<Cursor, crate::parser::Failure>(c1));
        let e = binary(op, acc, Expr::Number(r[0].1));
        assert(combine(s, acc, c) == Ok::<(Expr, Cursor), crate::parser::Failure>((e, c2)));
        lemma_climb_chain(s, j + 1 + n, r1, e, level);
    }
}

/// Operators of one precedence level (`+` and `-`, or `*` and `/`) group to
/// the left: `a - b - c` reads as `(a - b) - c`, and so on for any number of
/// operands.
pub proof fn lemma_left_associative(
    first: Seq<char>,
    rest: Seq<(char, Seq<char>)>,
    level: OperPrec,
)
    requires
        is_literal(first),
        level is AddSub || level is MulDiv,
        one_level(rest, level),
        first.len() + chain_text(rest).len() <= usize::MAX,
    ensures
        parse_spec(first + chain_text(rest)) matches Ok((e, c)) && c.cur is EndOfInput && e
            == fold_chain(Expr::Number(first), rest),
{
    let s = first + chain_text(rest);
    let n = first.len();
    assert(s.subrange(0, s.len() as int) =~= s);
    lemma_split(s, 0, first, chain_text(rest));
    if rest.len() > 0 {
        assert(chain_text(rest)[0] == rest[0].0);
        assert(single_char_token(rest[0].0) is Some);
    }
    lemma_lex_literal(s, 0, n);
    lemma_chain_step(s, n, rest, level);
    let c0 = Cursor { cur: Token::Num(0, n as usize), pos: n, done: false };
    let c1 = chain_cursor(s, n, rest);
    assert(start(s) == Ok::<Cursor, crate::parser::Failure>(c0));
    assert(advance(s, c0) == Ok::<Cursor, crate::parser::Failure>(c1));
    assert(primary(s, c0) == Ok::<(Expr, Cursor), crate::parser::Failure>((Expr::Number(first), c1)));
    lemma_climb_chain(s, n, rest, Expr::Number(first), level);
}

/// A minus sign binds tighter than `+`, `-`, `*` and `/`: `-x o y` reads as
/// `(-x) o y` for literals `x` and `y`.
pub proof fn lemma_negation_binds_tighter(x: Seq<char>, o: char, y: Seq<char>)
    requires
        is_literal(x),
        is_literal(y),
        o == '+' || o == '-' || o == '*' || o == '/',
        x.len() + y.len() + 2 <= usize::MAX,
    ensures
        parse_spec(seq!['-'] + x + seq![o] + y) matches Ok((e, c)) && c.cur is EndOfInput && e
            == binary(
            single_char_token(o)->Some_0,
            Expr::Negative(Box::new(Expr::Number(x))),
            Expr::Number(y),
        ),
{
    let tail: Seq<(char, Seq<char>)> = seq![(o, y)];
    let r: Seq<(char, Seq<char>)> = seq![('-', x), (o, y)];
    let s = seq!['-'] + x + seq![o] + y;
    let level = spec_prec_of(single_char_token(o)->Some_0);
    let n = x.len();
    assert(r.drop_first() =~= tail);
    assert(tail.drop_first() =~= Seq::<(char, Seq<char>)>::empty());
    assert(tail.len() == 1 && tail[0] == (o, y));
    assert(chain_text(tail.drop_first()) == Seq::<char>::empty());
    assert(chain_text(tail) =~= seq![o] + y);
    assert(r.len() == 2 && r[0] == ('-', x));
    assert(chain_text(r) == seq!['-'] + x + chain_text(tail));
    assert(chain_text(r) =~= s);
    assert(s =~= seq!['-'] + (x + chain_text(tail)));
    assert(one_level(tail, level)) by {
        assert forall|k: int| 0 <= k < tail.len() implies #[trigger] single_char_token(tail[k].0) matches Some(t) && is_binary_op(t) && spec_prec_of(t) == level && is_literal(tail[k].1) by {
            assert(tail[k] == (o, y));
        }
    }
    assert(s.subrange(0, s.len() as int) =~= s);
    lemma_split(s, 0, seq!['-'], x + chain_text(tail));
    assert(s.subrange(0, 1)[0] == s[0]);
    lemma_lex_symbol(s, 0);
    lemma_chain_operand(s, 0, r, level, OperPrec::MulDiv);
    let d0 = Cursor { cur: Token::Subtract, pos: 1, done: false };
    let c1 = Cursor { cur: Token::Num(1, (1 + n) as usize), pos: 1 + n, done: false };
    let c2 = chain_cursor(s, 1 + n, tail);
    let neg = Expr::Negative(Box::new(Expr::Number(x)));
    assert(start(s) == Ok::<Cursor, crate::parser::Failure>(d0));
    assert(advance(s, d0) == Ok::<Cursor, crate::parser::Failure>(c1));
    assert(primary(s, d0) == Ok::<(Expr, Cursor), crate::parser::Failure>((neg, c2)));
    lemma_climb_chain(s, 1 + n, tail, neg, level);
    let e = binary(single_char_token(o)->Some_0, neg, Expr::Number(y));
    assert(fold_chain(e, tail.drop_first()) == e);
    assert(fold_chain(neg, tail) == e);
    assert(gen(s, d0, OperPrec::DefaultZero) == climb(s, neg, c2, OperPrec::DefaultZero));
}

/// `first` raised to the tower of the literals in `rest`, grouped to the right.
pub open spec fn fold_power(first: Seq<char>, rest: Seq<(char, Seq<char>)>) -> Expr
    decreases rest.len(),
{
    if rest.len() == 0 {
        Expr::Number(first)
    } else {
        Expr::Caret(
            Box::new(Expr::Number(first)),
            Box::new(fold_power(rest[0].1, rest.drop_first())),
        )
    }
}

proof fn lemma_tower(s: Seq<char>, i: nat, first: Seq<char>, rest: Seq<(char, Seq<char>)>, p: OperPrec)
    requires
        i <= s.len() <= usize::MAX,
        s.subrange(i as int, s.len() as int) == first + chain_text(rest),
        is_literal(first),
        one_level(rest, OperPrec::Power),
        p.spec_level() <= 2,
    ensures
        ({
            let n = first.len();
            let c = Cursor { cur: Token::Num(i as usize, (i + n) as usize), pos: i + n, done: false };
            &&& lex_step(s, i) == Lexed::Tok(c.cur, c.pos)
            &&& gen(s, c, p) == Ok::<(Expr, Cursor), crate::parser::Failure>(
                (fold_power(first, rest), Cursor { cur: Token::EndOfInput, pos: s.len(), done: true }),
            )
        }),
    decreases rest.len(),
{
    let n = first.len();
    lemma_split(s, i, first, chain_text(rest));
    if rest.len() > 0 {
        assert(chain_text(rest)[0] == rest[0].0);
        assert(single_char_token(rest[0].0) is Some);
    }
    lemma_lex_literal(s, i, n);
    lemma_chain_step(s, i + n, rest, OperPrec::Power);
    let c = Cursor { cur: Token::Num(i as usize, (i + n) as usize), pos: i + n, done: false };
    let c2 = chain_cursor(s, i + n, rest);
    let end = Cursor { cur: Token::EndOfInput, pos: s.len(), done: true };
    assert(advance(s, c) == Ok::<Cursor, crate::parser::Failure>(c2));
    assert(primary(s, c) == Ok::<(Expr, Cursor), crate::parser::Failure>((Expr::Number(first), c2)));
    if rest.len() > 0 {
        let r1 = rest.drop_first();
        let lit = rest[0].1;
        assert(single_char_token(rest[0].0) matches Some(t) && is_binary_op(t) && spec_prec_of(t)
            == OperPrec::Power && is_literal(lit));
        assert(c2.cur is Caret);
        assert(one_level(r1, OperPrec::Power)) by {
            assert forall|k: int| 0 <= k < r1.len() implies #[trigger] single_char_token(r1[k].0) matches Some(t) && is_binary_op(t) && spec_prec_of(t) == OperPrec::Power && is_literal(r1[k].1) by {
                assert(r1[k] == rest[k + 1]);
            }
        }
        lemma_tower(s, i + n + 1, lit, r1, OperPrec::MulDiv);
        let c1 = Cursor { cur: Token::Num((i + n + 1) as usize, (i + n + 1 + lit.len()) as usize), pos: i + n + 1 + lit.len(), done: false };
        assert(advance(s, c2) == Ok::<Cursor, crate::parser::Failure>(c1));
        let e = fold_power(first, rest);
        assert(combine(s, Expr::Number(first), c2) == Ok::<(Expr, Cursor), crate::parser::Failure>(
            (e, end),
        ));
        assert(climb(s, e, end, p) == Ok::<(Expr, Cursor), crate::parser::Failure>((e, end)));
        assert(climb(s, Expr::Number(first), c2, p) == Ok::<(Expr, Cursor), crate::parser::Failure>(
            (e, end),
        ));
    }
}

/// Powers group to the right: `a ^ b ^ c` reads as `a ^ (b ^ c)`, and so on
/// for any number of operands.
pub proof fn lemma_power_right_associative(first: Seq<char>, rest: Seq<(char, Seq<char>)>)
    requires
        is_literal(first),
        one_level(rest, OperPrec::Power),
        first.len() + chain_text(rest).len() <= usize::MAX,
    ensures
        parse_spec(first + chain_text(rest)) matches Ok((e, c)) && c.cur is EndOfInput && e
            == fold_power(first, rest),
{
    let s = first + chain_text(rest);
    assert(s.subrange(0, s.len() as int) =~= s);
    lemma_tower(s, 0, first, rest, OperPrec::DefaultZero);
    let c0 = Cursor { cur: Token::Num(0, first.len() as usize), pos: first.len(), done: false };
    assert(start(s) == Ok::<Cursor, crate::parser::Failure>(c0));
}

} // verus!
