//! Dice expressions: their syntax tree, their text, and `Dice`, an expression with the text
//! it was written as.
//!
//! The grammar (read by `crate::parser`), with blanks (spaces and tabs) allowed between any
//! two tokens:
//!
//! ```text
//! expression = expr
//! expr       = prefix* primary (infix prefix* primary)*
//! primary    = integer | "(" expr ")"
//! integer    = digit+
//! prefix     = "-" (unary minus) | "=" (collect)
//! infix      = "++" | "--" | "**" | "//" | "kh" | "kl" | "dh" | "dl"
//!            | "+" | "-" | "*" | "/" | "d" | "," | "@"
//! ```
//!
//! Operators bind, from loosest to tightest: `,`; `@`; prefix `=`; `++ -- ** //`;
//! `+ -`; `* / d kh kl dh dl`; prefix `-`. All infix operators group to the left.

use vstd::prelude::*;
use crate::text::{decimal, push_decimal, string_from_chars};
use crate::parser::{DiceParser, ParseOutcome, dice_grammar};
use crate::roll::{Roll, RollError, rolled_from_draws, result_view};

verus! {

/// A binary operator of the dice language.
#[derive(Debug, Clone, Copy, PartialEq, Eq, Structural)]
pub enum Op {
    Add,
    Subtract,
    Multiply,
    Divide,
    MultiAdd,
    MultiSubtract,
    MultiMultiply,
    MultiDivide,
    Dice,
    KeepHighest,
    KeepLowest,
    DropHighest,
    DropLowest,
    Comma,
    Repeat,
}

/// A parsed dice expression.
#[derive(Debug)]
pub enum Expr {
    Integer(i32),
    UnaryMinus(Box<Expr>),
    Collect(Box<Expr>),
    BinOp { lhs: Box<Expr>, op: Op, rhs: Box<Expr> },
}

/// The syntax tree that the grammar gives an expression, with literals as mathematical integers.
pub enum Term {
    Integer(int),
    UnaryMinus(Box<Term>),
    Collect(Box<Term>),
    BinOp { lhs: Box<Term>, op: Op, rhs: Box<Term> },
}

impl Term {
    /// Every literal lies in the range of `i32`.
    pub open spec fn fits(self) -> bool
        decreases self,
    {
        match self {
            Term::Integer(v) => i32::MIN <= v <= i32::MAX,
            Term::UnaryMinus(e) => e.fits(),
            Term::Collect(e) => e.fits(),
            Term::BinOp { lhs, op, rhs } => lhs.fits() && rhs.fits(),
        }
    }

    /// The tree with each literal above `i32::MAX` lowered to `i32::MAX`.
    pub open spec fn clamped(self) -> Term
        decreases self,
    {
        match self {
            Term::Integer(v) => Term::Integer(if v > i32::MAX { i32::MAX as int } else { v }),
            Term::UnaryMinus(e) => Term::UnaryMinus(Box::new(e.clamped())),
            Term::Collect(e) => Term::Collect(Box::new(e.clamped())),
            Term::BinOp { lhs, op, rhs } => Term::BinOp {
                lhs: Box::new(lhs.clamped()),
                op,
                rhs: Box::new(rhs.clamped()),
            },
        }
    }
}

/// A tree whose literals fit is its own clamped form.
pub proof fn lemma_clamped_fits(t: Term)
    requires
        t.fits(),
    ensures
        t.clamped() == t,
    decreases t,
{
    match t {
        Term::Integer(v) => {},
        Term::UnaryMinus(e) => { lemma_clamped_fits(*e); },
        Term::Collect(e) => { lemma_clamped_fits(*e); },
        Term::BinOp { lhs, op, rhs } => {
            lemma_clamped_fits(*lhs);
            lemma_clamped_fits(*rhs);
        },
    }
}

impl Expr {
    /// The tree of this expression, literals read as mathematical integers.
    pub open spec fn term(self) -> Term
        decreases self,
    {
        match self {
            Expr::Integer(i) => Term::Integer(i as int),
            Expr::UnaryMinus(e) => Term::UnaryMinus(Box::new(e.term())),
            Expr::Collect(e) => Term::Collect(Box::new(e.term())),
            Expr::BinOp { lhs, op, rhs } => Term::BinOp {
                lhs: Box::new(lhs.term()),
                op,
                rhs: Box::new(rhs.term()),
            },
        }
    }
}

impl View for Expr {
    type V = Term;

    open spec fn view(&self) -> Term {
        self.term()
    }
}

// ---------------------------------------------------------------------------
// Rendering

impl Op {
    /// How the operator is written.
    pub open spec fn spec_symbol(self) -> Seq<char> {
        match self {
            Op::Add => seq!['+'],
            Op::Subtract => seq!['-'],
            Op::Multiply => seq!['*'],
            Op::Divide => seq!['/'],
            Op::MultiAdd => seq!['+', '+'],
            Op::MultiSubtract => seq!['-', '-'],
            Op::MultiMultiply => seq!['*', '*'],
            Op::MultiDivide => seq!['/', '/'],
            Op::Dice => seq!['d'],
            Op::KeepHighest => seq!['k', 'h'],
            Op::KeepLowest => seq!['k', 'l'],
            Op::DropHighest => seq!['d', 'h'],
            Op::DropLowest => seq!['d', 'l'],
            Op::Comma => seq![','],
            Op::Repeat => seq!['@'],
        }
    }

    /// Appends how the operator is written.
    pub fn push_symbol(&self, out: &mut Vec<char>)
        ensures
            final(out)@ == old(out)@ + self.spec_symbol(),
    {
        match self {
            Op::Add => { out.push('+'); },
            Op::Subtract => { out.push('-'); },
            Op::Multiply => { out.push('*'); },
            Op::Divide => { out.push('/'); },
            Op::MultiAdd => { out.push('+'); out.push('+'); },
            Op::MultiSubtract => { out.push('-'); out.push('-'); },
            Op::MultiMultiply => { out.push('*'); out.push('*'); },
            Op::MultiDivide => { out.push('/'); out.push('/'); },
            Op::Dice => { out.push('d'); },
            Op::KeepHighest => { out.push('k'); out.push('h'); },
            Op::KeepLowest => { out.push('k'); out.push('l'); },
            Op::DropHighest => { out.push('d'); out.push('h'); },
            Op::DropLowest => { out.push('d'); out.push('l'); },
            Op::Comma => { out.push(','); },
            Op::Repeat => { out.push('@'); },
        }
        assert(out@ =~= old(out)@ + self.spec_symbol());
    }

    /// The operator as text.
    pub fn symbol(&self) -> (s: String)
        ensures
            s@ == self.spec_symbol(),
    {
        let mut out: Vec<char> = Vec::new();
        self.push_symbol(&mut out);
        assert(out@ =~= self.spec_symbol());
        string_from_chars(&out)
    }
}

impl Expr {
    /// The text of an expression: literals and operators in order, without
    /// parentheses, and with prefix operators left out.
    pub open spec fn spec_text(self) -> Seq<char>
        decreases self,
    {
        match self {
            Expr::Integer(i) => decimal(i as int),
            Expr::UnaryMinus(e) => e.spec_text(),
            Expr::Collect(e) => e.spec_text(),
            Expr::BinOp { lhs, op, rhs } => lhs.spec_text() + op.spec_symbol() + rhs.spec_text(),
        }
    }

    /// Appends the text of the expression.
    pub fn push_text(&self, out: &mut Vec<char>)
        ensures
            final(out)@ == old(out)@ + self.spec_text(),
        decreases self,
    {
        match self {
            Expr::Integer(i) => { push_decimal(out, *i); },
            Expr::UnaryMinus(e) => { e.push_text(out); },
            Expr::Collect(e) => { e.push_text(out); },
            Expr::BinOp { lhs, op, rhs } => {
                lhs.push_text(out);
                op.push_symbol(out);
                rhs.push_text(out);
                assert(out@ =~= old(out)@ + self.spec_text());
            },
        }
    }

    /// The text of the expression (see `spec_text`).
    pub fn text(&self) -> (s: String)
        ensures
            s@ == self.spec_text(),
    {
        let mut out: Vec<char> = Vec::new();
        self.push_text(&mut out);
        assert(out@ =~= self.spec_text());
        string_from_chars(&out)
    }
}


// ---------------------------------------------------------------------------
// Dice

/// Why a dice expression was refused.
#[derive(Debug, Clone, Copy, PartialEq, Eq, Structural)]
pub enum DiceError {
    /// The text is not a dice expression.
    Syntax,
}

/// A dice expression together with the text it was written as.
#[derive(Debug)]
pub struct Dice {
    pub literal: String,
    pub expr: Expr,
}

impl Dice {
    /// A dice expression whose text is the expression's own text (see `Expr::spec_text`).
    pub fn _new(expr: Expr) -> (d: Dice)
        ensures
            d.literal@ == expr.spec_text(),
            d.expr == expr,
    {
        let literal = expr.text();
        Dice { literal, expr }
    }

    /// Parses a dice expression; the text is kept as the literal.
    pub fn parse(expression: &str) -> (r: Result<Dice, DiceError>)
        requires
            dice_grammar(expression@) matches Some(t) ==> t.fits(),
        ensures
            match dice_grammar(expression@) {
                Some(t) => r matches Ok(d) && d.expr@ == t && d.literal@ == expression@,
                None => r == Err::<Dice, DiceError>(DiceError::Syntax),
            },
    {
        match DiceParser::parse_expression(expression) {
            ParseOutcome::Parsed(expr) => Ok(Dice { literal: String::from_str(expression), expr }),
            _ => Err(DiceError::Syntax),
        }
    }
}


impl Dice {
    /// Rolls the expression (see `Roll::new`).
    pub fn roll(&self) -> (r: Result<Roll, RollError>)
        ensures
            rolled_from_draws(self.expr, result_view(r)),
    {
        Roll::new(&self.expr)
    }
}

} // verus!
