use vstd::prelude::*;
use vstd::string::*;
use crate::ast::{Expr, Node};
use crate::token::{OperPrec, Token, spec_prec_of, spec_rhs_prec, token_name};
use crate::tokenizer::{Lexed, Tokenizer, lex_step, lemma_lex_step};

verus! {

/// What went wrong, without the message.
#[derive(Clone, Copy, Debug, PartialEq, Eq, Structural)]
pub enum Fault {
    UnableToParse,
    InvalidOperator,
    InvalidCharacter(char),
}

#[derive(Debug, PartialEq)]
pub enum ParserError {
    UnableToParse(String),
    InvalidOperator(String),
    InvalidCharacter(char),
}

/// The mathematical model of a `ParserError`: its kind and its message.
pub enum Failure {
    UnableToParse(Seq<char>),
    InvalidOperator(Seq<char>),
    InvalidCharacter(char),
}

impl View for ParserError {
    type V = Failure;

    open spec fn view(&self) -> Failure {
        match self {
            ParserError::UnableToParse(m) => Failure::UnableToParse(m@),
            ParserError::InvalidOperator(m) => Failure::InvalidOperator(m@),
            ParserError::InvalidCharacter(c) => Failure::InvalidCharacter(*c),
        }
    }
}

/// The error of an operand that cannot start with the current token.
pub open spec fn unable() -> Failure {
    Failure::UnableToParse("Unable to parse"@)
}

/// The error of a token found where `expected` must stand.
pub open spec fn mismatch(expected: Token, found: Token) -> Failure {
    Failure::InvalidOperator("Expected "@ + token_name(expected) + " got "@ + token_name(found))
}

/// The error of a token that stands where a binary operator must.
pub open spec fn not_an_operator(found: Token) -> Failure {
    Failure::InvalidOperator("Please enter valid operator "@ + token_name(found))
}

impl ParserError {
    pub open spec fn spec_kind(&self) -> Fault {
        match self {
            ParserError::UnableToParse(_) => Fault::UnableToParse,
            ParserError::InvalidOperator(_) => Fault::InvalidOperator,
            ParserError::InvalidCharacter(c) => Fault::InvalidCharacter(*c),
        }
    }

    /// The kind of this error.
    #[verifier::when_used_as_spec(spec_kind)]
    pub fn kind(&self) -> (r: Fault)
        ensures
            r == self.spec_kind(),
    {
        match self {
            ParserError::UnableToParse(_) => Fault::UnableToParse,
            ParserError::InvalidOperator(_) => Fault::InvalidOperator,
            ParserError::InvalidCharacter(c) => Fault::InvalidCharacter(*c),
        }
    }
}

/// The parser's position: the current token, the scan position after it, and
/// whether the end marker has been handed out.
pub struct Cursor {
    pub cur: Token,
    pub pos: nat,
    pub done: bool,
}

pub open spec fn cursor_wf(s: Seq<char>, c: Cursor) -> bool {
    &&& s.len() <= usize::MAX
    &&& c.pos <= s.len()
    &&& (c.cur matches Token::Num(a, b) ==> a <= b <= s.len())
}

/// Decreases with every token taken.
pub open spec fn measure(s: Seq<char>, c: Cursor) -> nat {
    if c.pos <= s.len() {
        (2 * (s.len() - c.pos) + if c.done { 0int } else { 1int }) as nat
    } else {
        0
    }
}

/// Position of the first token of `s`. Input without any token is refused.
pub open spec fn start(s: Seq<char>) -> Result<Cursor, Failure> {
    match lex_step(s, 0) {
        Lexed::Tok(Token::EndOfInput, _) => Err(Failure::InvalidOperator("Invalid Character"@)),
        Lexed::Tok(t, p) => Ok(Cursor { cur: t, pos: p, done: false }),
        Lexed::Bad(ch) => Err(Failure::InvalidCharacter(ch)),
    }
}

/// Move to the next token.
pub open spec fn advance(s: Seq<char>, c: Cursor) -> Result<Cursor, Failure> {
    if c.done {
        Err(Failure::InvalidOperator("Invalid character"@))
    } else {
        match lex_step(s, c.pos) {
            Lexed::Tok(t, p) => Ok(Cursor { cur: t, pos: p, done: t is EndOfInput }),
            Lexed::Bad(ch) => Err(Failure::InvalidCharacter(ch)),
        }
    }
}

/// Take the current token if it is `t`.
pub open spec fn expect(s: Seq<char>, c: Cursor, t: Token) -> Result<Cursor, Failure> {
    if c.cur == t {
        advance(s, c)
    } else {
        Err(mismatch(t, c.cur))
    }
}

pub open spec fn is_binary_op(t: Token) -> bool {
    t is Add || t is Subtract || t is Multiply || t is Divide || t is Caret
}

pub open spec fn binary(t: Token, l: Expr, r: Expr) -> Expr {
    match t {
        Token::Add => Expr::Add(Box::new(l), Box::new(r)),
        Token::Subtract => Expr::Subtract(Box::new(l), Box::new(r)),
        Token::Multiply => Expr::Multiply(Box::new(l), Box::new(r)),
        Token::Divide => Expr::Divide(Box::new(l), Box::new(r)),
        _ => Expr::Caret(Box::new(l), Box::new(r)),
    }
}

// In the functions below each recursive step is guarded by a drop of
// `measure`. From a cursor that satisfies `cursor_wf` the guards always hold
// (see the `lemma_*_shrinks` lemmas), so their `UnableToParse` branches are
// never taken.

/// An expression whose operators bind tighter than `p`, followed by the cursor after it.
pub open spec fn gen(s: Seq<char>, c: Cursor, p: OperPrec) -> Result<(Expr, Cursor), Failure>
    decreases measure(s, c), 1nat,
{
    match primary(s, c) {
        Ok((l, c1)) => if measure(s, c1) < measure(s, c) {
            climb(s, l, c1, p)
        } else {
            Err(unable())
        },
        Err(f) => Err(f),
    }
}

/// Extends `l` with operators that bind tighter than `p`.
pub open spec fn climb(s: Seq<char>, l: Expr, c: Cursor, p: OperPrec) -> Result<
    (Expr, Cursor),
    Failure,
>
    decreases measure(s, c), 1nat,
{
    if c.cur is EndOfInput || spec_prec_of(c.cur).spec_level() <= p.spec_level() {
        Ok((l, c))
    } else {
        match combine(s, l, c) {
            Ok((e, c1)) => if measure(s, c1) < measure(s, c) {
                climb(s, e, c1, p)
            } else {
                Err(unable())
            },
            Err(f) => Err(f),
        }
    }
}

/// Applies the current operator to `l` and the operand that follows it.
pub open spec fn combine(s: Seq<char>, l: Expr, c: Cursor) -> Result<(Expr, Cursor), Failure>
    decreases measure(s, c), 0nat,
{
    if !is_binary_op(c.cur) {
        Err(not_an_operator(c.cur))
    } else {
        match advance(s, c) {
            Ok(c1) => if measure(s, c1) < measure(s, c) {
                match gen(s, c1, spec_rhs_prec(c.cur)) {
                    Ok((r, c2)) => Ok((binary(c.cur, l, r), c2)),
                    Err(f) => Err(f),
                }
            } else {
                Err(unable())
            },
            Err(f) => Err(f),
        }
    }
}

/// A negation, a number, or a parenthesised expression; a second group right
/// after the first is multiplied with it, and the product is one operand. The operand of a negation takes powers but no other operator,
/// so a minus sign binds tighter than `*`, `/`, `+`, `-` and looser than `^`.
pub open spec fn primary(s: Seq<char>, c: Cursor) -> Result<(Expr, Cursor), Failure>
    decreases measure(s, c), 0nat,
{
    match c.cur {
        Token::Subtract => match advance(s, c) {
            Ok(c1) => if measure(s, c1) < measure(s, c) {
                match gen(s, c1, OperPrec::MulDiv) {
                    Ok((e, c2)) => Ok((Expr::Negative(Box::new(e)), c2)),
                    Err(f) => Err(f),
                }
            } else {
                Err(unable())
            },
            Err(f) => Err(f),
        },
        Token::Num(a, b) => match advance(s, c) {
            Ok(c1) => Ok((Expr::Number(s.subrange(a as int, b as int)), c1)),
            Err(f) => Err(f),
        },
        Token::LeftParen => match advance(s, c) {
            Ok(c1) => if measure(s, c1) < measure(s, c) {
                match gen(s, c1, OperPrec::DefaultZero) {
                    Ok((e, c2)) => match expect(s, c2, Token::RightParen) {
                        Ok(c3) => if !(c3.cur is LeftParen) {
                            Ok((e, c3))
                        } else {
                            match advance(s, c3) {
                                Ok(c4) => if measure(s, c4) < measure(s, c) {
                                    match gen(s, c4, OperPrec::DefaultZero) {
                                        Ok((r, c5)) => match expect(s, c5, Token::RightParen) {
                                            Ok(c6) => Ok(
                                                (Expr::Multiply(Box::new(e), Box::new(r)), c6),
                                            ),
                                            Err(f) => Err(f),
                                        },
                                        Err(f) => Err(f),
                                    }
                                } else {
                                    Err(unable())
                                },
                                Err(f) => Err(f),
                            }
                        },
                        Err(f) => Err(f),
                    },
                    Err(f) => Err(f),
                }
            } else {
                Err(unable())
            },
            Err(f) => Err(f),
        },
        _ => Err(unable()),
    }
}

/// The parse of a whole input: its first token, then an expression at the lowest precedence.
pub open spec fn parse_spec(s: Seq<char>) -> Result<(Expr, Cursor), Failure> {
    match start(s) {
        Ok(c) => gen(s, c, OperPrec::DefaultZero),
        Err(f) => Err(f),
    }
}

pub proof fn lemma_advance(s: Seq<char>, c: Cursor)
    requires
        cursor_wf(s, c),
    ensures
        advance(s, c) matches Ok(c1) ==> cursor_wf(s, c1) && measure(s, c1) < measure(s, c),
{
    if !c.done {
        lemma_lex_step(s, c.pos);
    }
}

/// Without any assumption on the cursor, a step never raises the measure above zero.
pub proof fn lemma_advance_any(s: Seq<char>, c: Cursor)
    ensures
        advance(s, c) matches Ok(c1) ==> measure(s, c1) < measure(s, c) || measure(s, c1) == 0,
{
    if !c.done && c.pos <= s.len() {
        lemma_lex_step(s, c.pos);
    }
}

pub proof fn lemma_climb_shrinks(s: Seq<char>, l: Expr, c: Cursor, p: OperPrec)
    ensures
        climb(s, l, c, p) matches Ok((e, c1)) ==> measure(s, c1) <= measure(s, c),
    decreases measure(s, c),
{
    if !(c.cur is EndOfInput || spec_prec_of(c.cur).spec_level() <= p.spec_level()) {
        if let Ok((e, c1)) = combine(s, l, c) {
            if measure(s, c1) < measure(s, c) {
                lemma_climb_shrinks(s, e, c1, p);
            }
        }
    }
}

pub proof fn lemma_gen_shrinks(s: Seq<char>, c: Cursor, p: OperPrec)
    ensures
        gen(s, c, p) matches Ok((e, c1)) ==> measure(s, c1) < measure(s, c),
{
    if let Ok((l, c1)) = primary(s, c) {
        lemma_climb_shrinks(s, l, c1, p);
    }
}

pub proof fn lemma_combine_shrinks(s: Seq<char>, l: Expr, c: Cursor)
    ensures
        combine(s, l, c) matches Ok((e, c1)) ==> measure(s, c1) < measure(s, c),
{
    if is_binary_op(c.cur) {
        if let Ok(c1) = advance(s, c) {
            lemma_gen_shrinks(s, c1, spec_rhs_prec(c.cur));
        }
    }
}

pub proof fn lemma_primary_shrinks(s: Seq<char>, c: Cursor)
    requires
        cursor_wf(s, c),
    ensures
        primary(s, c) matches Ok((e, c1)) ==> measure(s, c1) < measure(s, c),
{
    lemma_advance(s, c);
    if let Ok(c1) = advance(s, c) {
        match c.cur {
            Token::Subtract => lemma_gen_shrinks(s, c1, OperPrec::MulDiv),
            Token::LeftParen => {
                lemma_gen_shrinks(s, c1, OperPrec::DefaultZero);
                if let Ok((e, c2)) = gen(s, c1, OperPrec::DefaultZero) {
                    lemma_advance_any(s, c2);
                    if let Ok(c3) = expect(s, c2, Token::RightParen) {
                        lemma_advance_any(s, c3);
                        if let Ok(c4) = advance(s, c3) {
                            lemma_gen_shrinks(s, c4, OperPrec::DefaultZero);
                            if let Ok((r, c5)) = gen(s, c4, OperPrec::DefaultZero) {
                                lemma_advance_any(s, c5);
                            }
                        }
                    }
                }
            },
            _ => {},
        }
    }
}

/// Whether `r` is the parse of the whole input `s` as the model gives it.
pub open spec fn parses_as(s: Seq<char>, r: Result<Node, ParserError>) -> bool {
    match parse_spec(s) {
        Ok((e, _)) => r matches Ok(n) && n@ == e,
        Err(f) => r matches Err(err) && err@ == f,
    }
}

/// Parses `expr` into a tree: the first expression of the input, at the
/// lowest precedence. Tokens after that expression are ignored.
pub fn parse_expression(expr: &str) -> (r: Result<Node, ParserError>)
    ensures
        parses_as(expr@, r),
{
    let mut math_parser = match Parser::new(expr) {
        Ok(p) => p,
        Err(e) => return Err(e),
    };
    math_parser.parse()
}

/// Whether an executable result and final parser state are the ones the model gives.
pub open spec fn agrees(r: Result<Node, ParserError>, p: Parser, m: Result<(Expr, Cursor), Failure>) -> bool {
    match m {
        Ok((e, c)) => r matches Ok(n) && n@ == e && p.cursor() == c,
        Err(f) => r matches Err(err) && err@ == f,
    }
}

pub struct Parser {
    tokenizer: Tokenizer,
    current_token: Token,
}

impl Parser {
    pub closed spec fn input(&self) -> Seq<char> {
        self.tokenizer.chars@
    }

    pub closed spec fn cursor(&self) -> Cursor {
        Cursor {
            cur: self.current_token,
            pos: self.tokenizer.pos as nat,
            done: self.tokenizer.done,
        }
    }

    pub closed spec fn wf(&self) -> bool {
        &&& self.tokenizer.wf()
        &&& cursor_wf(self.input(), self.cursor())
    }

    /// Reads the first token of `expresion`.
    pub fn new(expresion: &str) -> (r: Result<Parser, ParserError>)
        ensures
            match start(expresion@) {
                Ok(c) => r matches Ok(p) && p.wf() && p.input() == expresion@ && p.cursor() == c,
                Err(f) => r matches Err(e) && e@ == f,
            },
    {
        let mut lexer = Tokenizer::new(expresion);
        proof {
            lemma_lex_step(expresion@, 0);
        }
        let cur_token = match lexer.next() {
            Some(Ok(Token::EndOfInput)) | None => {
                return Err(ParserError::InvalidOperator(String::from_str("Invalid Character")));
            },
            Some(Ok(token)) => token,
            Some(Err(c)) => {
                return Err(ParserError::InvalidCharacter(c));
            },
        };
        Ok(Parser { tokenizer: lexer, current_token: cur_token })
    }

    /// Parses one expression from the current token on. Tokens after it are left unread.
    pub fn parse(&mut self) -> (r: Result<Node, ParserError>)
        requires
            old(self).wf(),
        ensures
            final(self).wf(),
            final(self).input() == old(self).input(),
            agrees(r, *final(self), gen(old(self).input(), old(self).cursor(), OperPrec::DefaultZero)),
    {
        self.generate_ast(OperPrec::DefaultZero)
    }

    fn generate_ast(&mut self, oper_prec: OperPrec) -> (r: Result<Node, ParserError>)
        requires
            old(self).wf(),
        ensures
            final(self).wf(),
            final(self).input() == old(self).input(),
            agrees(r, *final(self), gen(old(self).input(), old(self).cursor(), oper_prec)),
        decreases measure(old(self).input(), old(self).cursor()), 1nat,
    {
        let ghost s = self.input();
        let ghost c0 = self.cursor();
        proof {
            lemma_primary_shrinks(s, c0);
        }
        let mut left_expr = match self.parse_number() {
            Ok(n) => n,
            Err(e) => return Err(e),
        };
        while oper_prec.level() < self.current_token.get_oper_prec().level()
            && self.current_token != Token::EndOfInput
            invariant
                s == old(self).input(),
                c0 == old(self).cursor(),
                self.wf(),
                self.input() == s,
                measure(s, self.cursor()) < measure(s, c0),
                climb(s, left_expr@, self.cursor(), oper_prec) == gen(s, c0, oper_prec),
            decreases measure(s, self.cursor()),
        {
            let ghost c = self.cursor();
            let ghost l = left_expr@;
            proof {
                lemma_combine_shrinks(s, l, c);
            }
            left_expr = match self.convert_token_to_node(left_expr) {
                Ok(n) => n,
                Err(e) => return Err(e),
            };
        }
        Ok(left_expr)
    }

    fn parse_number(&mut self) -> (r: Result<Node, ParserError>)
        requires
            old(self).wf(),
        ensures
            final(self).wf(),
            final(self).input() == old(self).input(),
            agrees(r, *final(self), primary(old(self).input(), old(self).cursor())),
            !(old(self).cursor().cur is Subtract || old(self).cursor().cur is Num
                || old(self).cursor().cur is LeftParen) ==> final(self).cursor() == old(
                self,
            ).cursor(),
        decreases measure(old(self).input(), old(self).cursor()), 0nat,
    {
        let ghost s = self.input();
        let ghost c0 = self.cursor();
        proof {
            lemma_advance(s, c0);
        }
        let token = self.current_token;
        match token {
            Token::Subtract => {
                if let Err(e) = self.get_next_token() {
                    return Err(e);
                }
                let expr = match self.generate_ast(OperPrec::MulDiv) {
                    Ok(n) => n,
                    Err(e) => return Err(e),
                };
                Ok(Node::Negative(Box::new(expr)))
            },
            Token::Num(a, b) => {
                if let Err(e) = self.get_next_token() {
                    return Err(e);
                }
                Ok(Node::Number(self.tokenizer.literal(a, b)))
            },
            Token::LeftParen => {
                if let Err(e) = self.get_next_token() {
                    return Err(e);
                }
                let ghost c1 = self.cursor();
                proof {
                    lemma_gen_shrinks(s, c1, OperPrec::DefaultZero);
                }
                let expr = match self.generate_ast(OperPrec::DefaultZero) {
                    Ok(n) => n,
                    Err(e) => return Err(e),
                };
                let ghost c2 = self.cursor();
                proof {
                    lemma_advance(s, c2);
                }
                if let Err(e) = self.check_paren(Token::RightParen) {
                    return Err(e);
                }
                if self.current_token == Token::LeftParen {
                    let ghost c3 = self.cursor();
                    proof {
                        lemma_advance(s, c3);
                    }
                    if let Err(e) = self.get_next_token() {
                        return Err(e);
                    }
                    let right = match self.generate_ast(OperPrec::DefaultZero) {
                        Ok(n) => n,
                        Err(e) => return Err(e),
                    };
                    if let Err(e) = self.check_paren(Token::RightParen) {
                        return Err(e);
                    }
                    return Ok(Node::Multiply(Box::new(expr), Box::new(right)));
                }
                Ok(expr)
            },
            _ => Err(ParserError::UnableToParse(String::from_str("Unable to parse"))),
        }
    }

    fn convert_token_to_node(&mut self, left_expr: Node) -> (r: Result<Node, ParserError>)
        requires
            old(self).wf(),
        ensures
            final(self).wf(),
            final(self).input() == old(self).input(),
            agrees(r, *final(self), combine(old(self).input(), left_expr@, old(self).cursor())),
            !is_binary_op(old(self).cursor().cur) ==> final(self).cursor() == old(self).cursor(),
        decreases measure(old(self).input(), old(self).cursor()), 0nat,
    {
        let ghost s = self.input();
        let ghost c0 = self.cursor();
        proof {
            lemma_advance(s, c0);
        }
        let op = self.current_token;
        match op {
            Token::Add | Token::Subtract | Token::Multiply | Token::Divide | Token::Caret => {},
            _ => {
                let msg = String::from_str("Please enter valid operator ").concat(op.name());
                return Err(ParserError::InvalidOperator(msg));
            },
        }
        if let Err(e) = self.get_next_token() {
            return Err(e);
        }
        let right_expr = match self.generate_ast(op.rhs_prec()) {
            Ok(n) => n,
            Err(e) => return Err(e),
        };
        let l = Box::new(left_expr);
        let r = Box::new(right_expr);
        match op {
            Token::Add => Ok(Node::Add(l, r)),
            Token::Subtract => Ok(Node::Subtract(l, r)),
            Token::Multiply => Ok(Node::Multiply(l, r)),
            Token::Divide => Ok(Node::Divide(l, r)),
            _ => Ok(Node::Caret(l, r)),
        }
    }

    fn check_paren(&mut self, expected: Token) -> (r: Result<(), ParserError>)
        requires
            old(self).wf(),
        ensures
            final(self).wf(),
            final(self).input() == old(self).input(),
            match expect(old(self).input(), old(self).cursor(), expected) {
                Ok(c) => r is Ok && final(self).cursor() == c,
                Err(f) => r matches Err(e) && e@ == f,
            },
            old(self).cursor().cur != expected ==> final(self).cursor() == old(self).cursor(),
    {
        if expected == self.current_token {
            self.get_next_token()
        } else {
            let msg = String::from_str("Expected ").concat(expected.name()).concat(" got ").concat(
                self.current_token.name(),
            );
            Err(ParserError::InvalidOperator(msg))
        }
    }

    fn get_next_token(&mut self) -> (r: Result<(), ParserError>)
        requires
            old(self).wf(),
        ensures
            final(self).wf(),
            final(self).input() == old(self).input(),
            match advance(old(self).input(), old(self).cursor()) {
                Ok(c) => r is Ok && final(self).cursor() == c,
                Err(f) => r matches Err(e) && e@ == f,
            },
            r is Err ==> final(self).cursor() == old(self).cursor(),
    {
        proof {
            lemma_advance(self.input(), self.cursor());
        }
        let next_token = match self.tokenizer.next() {
            Some(Ok(token)) => token,
            Some(Err(c)) => return Err(ParserError::InvalidCharacter(c)),
            None => return Err(ParserError::InvalidOperator(String::from_str("Invalid character"))),
        };
        self.current_token = next_token;
        Ok(())
    }
}

} // verus!
