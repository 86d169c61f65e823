use vstd::prelude::*;

verus! {

/// Binding strength of a binary operator, from loosest to tightest.
#[derive(Clone, Copy, Debug, PartialEq, Eq, Structural)]
pub enum OperPrec {
    DefaultZero,
    AddSub,
    MulDiv,
    Power,
}

impl OperPrec {
    pub open spec fn spec_level(self) -> u8 {
        match self {
            OperPrec::DefaultZero => 0,
            OperPrec::AddSub => 1,
            OperPrec::MulDiv => 2,
            OperPrec::Power => 3,
        }
    }

    /// Numeric rank used to compare two precedences.
    #[verifier::when_used_as_spec(spec_level)]
    pub fn level(self) -> (r: u8)
        ensures
            r == self.spec_level(),
    {
        match self {
            OperPrec::DefaultZero => 0,
            OperPrec::AddSub => 1,
            OperPrec::MulDiv => 2,
            OperPrec::Power => 3,
        }
    }
}

/// A lexical unit. A number records the span `[start, end)` of its
/// literal in the input characters.
#[derive(Clone, Copy, Debug, PartialEq, Eq, Structural)]
pub enum Token {
    Num(usize, usize),
    Add,
    Subtract,
    Multiply,
    Divide,
    Caret,
    LeftParen,
    RightParen,
    EndOfInput,
}

pub open spec fn spec_prec_of(t: Token) -> OperPrec {
    match t {
        Token::Add | Token::Subtract => OperPrec::AddSub,
        Token::Multiply | Token::Divide => OperPrec::MulDiv,
        Token::Caret => OperPrec::Power,
        _ => OperPrec::DefaultZero,
    }
}

/// Precedence at which the operand to the right of an operator is parsed.
/// A power takes its right operand one level lower, so that a further `^`
/// is absorbed into it: powers group to the right.
pub open spec fn spec_rhs_prec(t: Token) -> OperPrec {
    match t {
        Token::Caret => OperPrec::MulDiv,
        _ => spec_prec_of(t),
    }
}

/// The name of a token as error messages show it.
pub open spec fn token_name(t: Token) -> Seq<char> {
    match t {
        Token::Num(_, _) => "number"@,
        Token::Add => "'+'"@,
        Token::Subtract => "'-'"@,
        Token::Multiply => "'*'"@,
        Token::Divide => "'/'"@,
        Token::Caret => "'^'"@,
        Token::LeftParen => "'('"@,
        Token::RightParen => "')'"@,
        Token::EndOfInput => "end of input"@,
    }
}

impl Token {
    /// Precedence of the token when it stands as a binary operator;
    /// anything that is not an operator has the lowest one.
    pub fn get_oper_prec(&self) -> (r: OperPrec)
        ensures
            r == spec_prec_of(*self),
    {
        match self {
            Token::Add | Token::Subtract => OperPrec::AddSub,
            Token::Multiply | Token::Divide => OperPrec::MulDiv,
            Token::Caret => OperPrec::Power,
            _ => OperPrec::DefaultZero,
        }
    }

    pub fn rhs_prec(&self) -> (r: OperPrec)
        ensures
            r == spec_rhs_prec(*self),
    {
        match self {
            Token::Caret => OperPrec::MulDiv,
            _ => self.get_oper_prec(),
        }
    }

    /// A short human-readable name, used in error messages.
    pub fn name(&self) -> (r: &'static str)
        ensures
            r@ == token_name(*self),
    {
        match self {
            Token::Num(_, _) => "number",
            Token::Add => "'+'",
            Token::Subtract => "'-'",
            Token::Multiply => "'*'",
            Token::Divide => "'/'",
            Token::Caret => "'^'",
            Token::LeftParen => "'('",
            Token::RightParen => "')'",
            Token::EndOfInput => "end of input",
        }
    }
}

} // verus!
