use vstd::prelude::*;
use vstd::string::*;
use crate::token::Token;

verus! {

pub open spec fn is_digit(c: char) -> bool {
    '0' <= c && c <= '9'
}

/// Characters that may occur inside a numeric literal.
pub open spec fn is_num_char(c: char) -> bool {
    is_digit(c) || c == '.'
}

pub open spec fn is_space(c: char) -> bool {
    c == ' ' || c == '\t' || c == '\n' || c == '\r'
}

/// Number of decimal points in `x`.
pub open spec fn dots(x: Seq<char>) -> nat
    decreases x.len(),
{
    if x.len() == 0 {
        0
    } else {
        dots(x.drop_last()) + if x.last() == '.' { 1nat } else { 0nat }
    }
}

/// A numeric literal: digits with at most one decimal point, and at least one digit.
pub open spec fn is_literal(x: Seq<char>) -> bool {
    &&& x.len() > 0
    &&& forall|k: int| 0 <= k < x.len() ==> is_num_char(#[trigger] x[k])
    &&& dots(x) <= 1
    &&& dots(x) < x.len()
}

/// First position at or after `i` that does not hold whitespace.
pub open spec fn skip_spaces(s: Seq<char>, i: nat) -> nat
    decreases s.len() - i,
{
    if i < s.len() && is_space(s[i as int]) {
        skip_spaces(s, i + 1)
    } else {
        i
    }
}

/// End of the maximal run of literal characters that starts at `i`.
pub open spec fn run_end(s: Seq<char>, i: nat) -> nat
    decreases s.len() - i,
{
    if i < s.len() && is_num_char(s[i as int]) {
        run_end(s, i + 1)
    } else {
        i
    }
}

/// The outcome of scanning one token.
pub enum Lexed {
    /// A token, and the position just after it.
    Tok(Token, nat),
    /// A character that cannot start or continue a token.
    Bad(char),
}

pub open spec fn single_char_token(c: char) -> Option<Token> {
    if c == '+' {
        Some(Token::Add)
    } else if c == '-' {
        Some(Token::Subtract)
    } else if c == '*' {
        Some(Token::Multiply)
    } else if c == '/' {
        Some(Token::Divide)
    } else if c == '^' {
        Some(Token::Caret)
    } else if c == '(' {
        Some(Token::LeftParen)
    } else if c == ')' {
        Some(Token::RightParen)
    } else {
        None
    }
}

/// The token that starts at position `i` of `s`, whitespace skipped.
pub open spec fn lex_step(s: Seq<char>, i: nat) -> Lexed {
    let j = skip_spaces(s, i);
    if j >= s.len() {
        Lexed::Tok(Token::EndOfInput, j)
    } else if is_num_char(s[j as int]) {
        let e = run_end(s, j);
        if is_literal(s.subrange(j as int, e as int)) {
            Lexed::Tok(Token::Num(j as usize, e as usize), e)
        } else {
            Lexed::Bad('.')
        }
    } else {
        match single_char_token(s[j as int]) {
            Some(t) => Lexed::Tok(t, j + 1),
            None => Lexed::Bad(s[j as int]),
        }
    }
}

pub proof fn lemma_skip_spaces(s: Seq<char>, i: nat)
    requires
        i <= s.len(),
    ensures
        i <= skip_spaces(s, i) <= s.len(),
        skip_spaces(s, i) < s.len() ==> !is_space(s[skip_spaces(s, i) as int]),
    decreases s.len() - i,
{
    if i < s.len() && is_space(s[i as int]) {
        lemma_skip_spaces(s, i + 1);
    }
}

pub proof fn lemma_run_end(s: Seq<char>, i: nat)
    requires
        i <= s.len(),
    ensures
        i <= run_end(s, i) <= s.len(),
        forall|k: int| i <= k < run_end(s, i) ==> is_num_char(#[trigger] s[k]),
    decreases s.len() - i,
{
    if i < s.len() && is_num_char(s[i as int]) {
        lemma_run_end(s, i + 1);
    }
}

/// Every token but the end marker moves past at least one character.
pub proof fn lemma_lex_step(s: Seq<char>, i: nat)
    requires
        i <= s.len(),
    ensures
        match lex_step(s, i) {
            Lexed::Tok(t, p) => p <= s.len() && (t is EndOfInput ==> p == s.len()) && (
            !(t is EndOfInput) ==> i < p) && (s.len() <= usize::MAX ==> (t matches Token::Num(
                a,
                b,
            ) ==> a <= b == p)),
            Lexed::Bad(_) => true,
        },
{
    lemma_skip_spaces(s, i);
    let j = skip_spaces(s, i);
    if j < s.len() && is_num_char(s[j as int]) {
        lemma_run_end(s, j);
    }
}

/// A pull-based scanner over the characters of an expression.
pub struct Tokenizer {
    pub text: String,
    pub chars: Vec<char>,
    pub pos: usize,
    pub done: bool,
}

impl Tokenizer {
    pub open spec fn wf(&self) -> bool {
        &&& self.chars@ == self.text@
        &&& self.chars@.len() <= usize::MAX
        &&& self.pos <= self.chars@.len()
    }

    pub fn new(expr: &str) -> (r: Tokenizer)
        ensures
            r.wf(),
            r.chars@ == expr@,
            r.pos == 0,
            !r.done,
    {
        let n = expr.unicode_len();
        let mut chars: Vec<char> = Vec::new();
        let mut i: usize = 0;
        while i < n
            invariant
                n == expr@.len(),
                i <= n,
                chars@ == expr@.subrange(0, i as int),
            decreases n - i,
        {
            chars.push(expr.get_char(i));
            i = i + 1;
        }
        assert(chars@ =~= expr@);
        Tokenizer { text: String::from_str(expr), chars, pos: 0, done: false }
    }

    /// The characters of the literal spanning `[start, end)`.
    pub fn literal(&self, start: usize, end: usize) -> (r: String)
        requires
            self.wf(),
            start <= end <= self.chars@.len(),
        ensures
            r@ == self.chars@.subrange(start as int, end as int),
    {
        String::from_str(self.text.as_str().substring_char(start, end))
    }

    fn skip_spaces_from(&self, i: usize) -> (r: usize)
        requires
            self.wf(),
            i <= self.chars@.len(),
        ensures
            r == skip_spaces(self.chars@, i as nat),
    {
        let ghost s = self.chars@;
        let mut j = i;
        while j < self.chars.len() && is_space_char(self.chars[j])
            invariant
                s == self.chars@,
                i <= j <= s.len(),
                skip_spaces(s, j as nat) == skip_spaces(s, i as nat),
            decreases s.len() - j,
        {
            j = j + 1;
        }
        j
    }

    /// Returns the end of the run of literal characters starting at `i`, and
    /// the number of decimal points in it.
    fn scan_run(&self, i: usize) -> (r: (usize, usize))
        requires
            self.wf(),
            i <= self.chars@.len(),
        ensures
            r.0 == run_end(self.chars@, i as nat),
            r.1 == dots(self.chars@.subrange(i as int, r.0 as int)),
    {
        let ghost s = self.chars@;
        let mut j = i;
        let mut n: usize = 0;
        while j < self.chars.len() && is_num_char_exec(self.chars[j])
            invariant
                s == self.chars@,
                i <= j <= s.len(),
                run_end(s, j as nat) == run_end(s, i as nat),
                n == dots(s.subrange(i as int, j as int)),
                n <= j - i,
            decreases s.len() - j,
        {
            assert(s.subrange(i as int, j + 1).drop_last() =~= s.subrange(i as int, j as int));
            if self.chars[j] == '.' {
                n = n + 1;
            }
            j = j + 1;
        }
        (j, n)
    }

    /// Pulls the next token. `None` once the end marker has been handed
    /// out; `Some(Err(c))` on a character `c` that starts no token.
    pub fn next(&mut self) -> (r: Option<Result<Token, char>>)
        requires
            old(self).wf(),
        ensures
            final(self).wf(),
            final(self).chars@ == old(self).chars@,
            old(self).done ==> r is None && *final(self) == *old(self),
            !old(self).done ==> match lex_step(old(self).chars@, old(self).pos as nat) {
                Lexed::Tok(t, p) => r == Some(Ok::<Token, char>(t)) && final(self).pos == p
                    && final(self).done == (t is EndOfInput),
                Lexed::Bad(c) => r == Some(Err::<Token, char>(c)) && *final(self) == *old(self),
            },
    {
        if self.done {
            return None;
        }
        let ghost s = self.chars@;
        proof {
            lemma_skip_spaces(s, self.pos as nat);
        }
        let j = self.skip_spaces_from(self.pos);
        if j >= self.chars.len() {
            self.pos = j;
            self.done = true;
            return Some(Ok(Token::EndOfInput));
        }
        let c = self.chars[j];
        if is_num_char_exec(c) {
            let (e, n) = self.scan_run(j);
            proof {
                lemma_run_end(s, j as nat);
                let x = s.subrange(j as int, e as int);
                assert forall|k: int| 0 <= k < x.len() implies is_num_char(#[trigger] x[k]) by {
                    assert(x[k] == s[j + k]);
                }
            }
            if n <= 1 && n < e - j {
                self.pos = e;
                return Some(Ok(Token::Num(j, e)));
            } else {
                return Some(Err('.'));
            }
        }
        let t = if c == '+' {
            Token::Add
        } else if c == '-' {
            Token::Subtract
        } else if c == '*' {
            Token::Multiply
        } else if c == '/' {
            Token::Divide
        } else if c == '^' {
            Token::Caret
        } else if c == '(' {
            Token::LeftParen
        } else if c == ')' {
            Token::RightParen
        } else {
            return Some(Err(c));
        };
        self.pos = j + 1;
        Some(Ok(t))
    }
}

fn is_space_char(c: char) -> (r: bool)
    ensures
        r == is_space(c),
{
    c == ' ' || c == '\t' || c == '\n' || c == '\r'
}

fn is_num_char_exec(c: char) -> (r: bool)
    ensures
        r == is_num_char(c),
{
    ('0' <= c && c <= '9') || c == '.'
}

} // verus!
