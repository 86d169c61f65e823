use vstd::prelude::*;

verus! {

/// A parsed expression. A number keeps the text of its literal.
#[derive(Debug, PartialEq)]
pub enum Node {
    Number(String),
    Negative(Box<Node>),
    Add(Box<Node>, Box<Node>),
    Subtract(Box<Node>, Box<Node>),
    Multiply(Box<Node>, Box<Node>),
    Divide(Box<Node>, Box<Node>),
    Caret(Box<Node>, Box<Node>),
}

/// The mathematical model of a `Node`: the same tree, literals as character sequences.
pub enum Expr {
    Number(Seq<char>),
    Negative(Box<Expr>),
    Add(Box<Expr>, Box<Expr>),
    Subtract(Box<Expr>, Box<Expr>),
    Multiply(Box<Expr>, Box<Expr>),
    Divide(Box<Expr>, Box<Expr>),
    Caret(Box<Expr>, Box<Expr>),
}

impl View for Node {
    type V = Expr;

    open spec fn view(&self) -> Expr
        decreases self,
    {
        match self {
            Node::Number(s) => Expr::Number(s@),
            Node::Negative(a) => Expr::Negative(Box::new((**a).view())),
            Node::Add(a, b) => Expr::Add(Box::new((**a).view()), Box::new((**b).view())),
            Node::Subtract(a, b) => Expr::Subtract(Box::new((**a).view()), Box::new((**b).view())),
            Node::Multiply(a, b) => Expr::Multiply(Box::new((**a).view()), Box::new((**b).view())),
            Node::Divide(a, b) => Expr::Divide(Box::new((**a).view()), Box::new((**b).view())),
            Node::Caret(a, b) => Expr::Caret(Box::new((**a).view()), Box::new((**b).view())),
        }
    }
}

/// Number of `Number` leaves in a tree.
pub open spec fn count_numbers(e: Expr) -> nat
    decreases e,
{
    match e {
        Expr::Number(_) => 1,
        Expr::Negative(a) => count_numbers(*a),
        Expr::Add(a, b) => count_numbers(*a) + count_numbers(*b),
        Expr::Subtract(a, b) => count_numbers(*a) + count_numbers(*b),
        Expr::Multiply(a, b) => count_numbers(*a) + count_numbers(*b),
        Expr::Divide(a, b) => count_numbers(*a) + count_numbers(*b),
        Expr::Caret(a, b) => count_numbers(*a) + count_numbers(*b),
    }
}

} // verus!
