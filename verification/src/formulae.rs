//! The formula term algebra and its normalizer.
//!
//! A formula is a closed, exclusively owned tree.  `MBox` (necessity) and
//! `Implication` are surface syntax only: `preprocess` rewrites them away, and
//! the sequent engine only ever receives normal formulas.

use vstd::prelude::*;

verus! {

/// The syntactic category of a formula node, used to rank binding strength
/// when parsing or printing.  `Outside` stands for the absence of an
/// enclosing operator.
#[derive(Clone, Copy, PartialEq, Eq, Structural, Debug)]
pub enum FormulaType {
    Letter,
    Negation,
    Conjunction,
    Disjunction,
    MDiamond,
    MBox,
    Implication,
    Outside,
    Top,
    Bottom,
}

/// Binding strength of each category: atoms bind tightest, implication
/// loosest.
pub open spec fn spec_bind_strength(t: FormulaType) -> u8 {
    match t {
        FormulaType::Outside => 99,
        FormulaType::Top => 99,
        FormulaType::Bottom => 99,
        FormulaType::Letter => 99,
        FormulaType::Negation => 3,
        FormulaType::Conjunction => 2,
        FormulaType::Disjunction => 2,
        FormulaType::MDiamond => 3,
        FormulaType::MBox => 3,
        FormulaType::Implication => 1,
    }
}

impl FormulaType {
    /// How tightly this category binds; a renderer parenthesizes a child
    /// whose operator binds no tighter than its parent.
    pub fn bind_strength(&self) -> (r: u8)
        ensures
            r == spec_bind_strength(*self),
    {
        match self {
            FormulaType::Outside => 99,
            FormulaType::Top => 99,
            FormulaType::Bottom => 99,
            FormulaType::Letter => 99,
            FormulaType::Negation => 3,
            FormulaType::Conjunction => 2,
            FormulaType::Disjunction => 2,
            FormulaType::MDiamond => 3,
            FormulaType::MBox => 3,
            FormulaType::Implication => 1,
        }
    }
}

/// A modal formula.  Atoms are single characters; `MDiamond` is possibility
/// and `MBox` necessity.  `MBox` and `Implication` never occur inside a
/// sequent: `preprocess` eliminates both.
#[derive(Debug)]
pub enum Formula {
    Top,
    Bottom,
    Letter(char),
    Negation(Box<Formula>),
    Conjunction(Box<Formula>, Box<Formula>),
    Disjunction(Box<Formula>, Box<Formula>),
    MDiamond(Box<Formula>),
    MBox(Box<Formula>),
    Implication(Box<Formula>, Box<Formula>),
}

/// The syntactic category of a formula's root node.
pub open spec fn spec_formula_type(f: Formula) -> FormulaType {
    match f {
        Formula::Top => FormulaType::Top,
        Formula::Bottom => FormulaType::Bottom,
        Formula::Letter(_) => FormulaType::Letter,
        Formula::Negation(_) => FormulaType::Negation,
        Formula::Conjunction(_, _) => FormulaType::Conjunction,
        Formula::Disjunction(_, _) => FormulaType::Disjunction,
        Formula::MDiamond(_) => FormulaType::MDiamond,
        Formula::MBox(_) => FormulaType::MBox,
        Formula::Implication(_, _) => FormulaType::Implication,
    }
}

/// Number of nodes in a formula tree; the engine's termination measure
/// builds on it.
pub open spec fn fsize(f: Formula) -> nat
    decreases f,
{
    match f {
        Formula::Top => 1,
        Formula::Bottom => 1,
        Formula::Letter(_) => 1,
        Formula::Negation(x) => 1 + fsize(*x),
        Formula::Conjunction(x, y) => 1 + fsize(*x) + fsize(*y),
        Formula::Disjunction(x, y) => 1 + fsize(*x) + fsize(*y),
        Formula::MDiamond(x) => 1 + fsize(*x),
        Formula::MBox(x) => 1 + fsize(*x),
        Formula::Implication(x, y) => 1 + fsize(*x) + fsize(*y),
    }
}

/// A formula is normal when no `MBox` or `Implication` node occurs anywhere
/// in it.
pub open spec fn is_normal(f: Formula) -> bool
    decreases f,
{
    match f {
        Formula::Top => true,
        Formula::Bottom => true,
        Formula::Letter(_) => true,
        Formula::Negation(x) => is_normal(*x),
        Formula::Conjunction(x, y) => is_normal(*x) && is_normal(*y),
        Formula::Disjunction(x, y) => is_normal(*x) && is_normal(*y),
        Formula::MDiamond(x) => is_normal(*x),
        Formula::MBox(_) => false,
        Formula::Implication(_, _) => false,
    }
}

/// The normal form of a formula: `MBox(a)` becomes `¬◇¬a` and
/// `Implication(a, b)` becomes `¬a ∨ b`; every other node keeps its shape.
pub open spec fn normalize(f: Formula) -> Formula
    decreases f,
{
    match f {
        Formula::Top => Formula::Top,
        Formula::Bottom => Formula::Bottom,
        Formula::Letter(c) => Formula::Letter(c),
        Formula::Negation(x) => Formula::Negation(Box::new(normalize(*x))),
        Formula::Conjunction(x, y) => Formula::Conjunction(
            Box::new(normalize(*x)),
            Box::new(normalize(*y)),
        ),
        Formula::Disjunction(x, y) => Formula::Disjunction(
            Box::new(normalize(*x)),
            Box::new(normalize(*y)),
        ),
        Formula::MDiamond(x) => Formula::MDiamond(Box::new(normalize(*x))),
        Formula::MBox(x) => Formula::Negation(
            Box::new(
                Formula::MDiamond(Box::new(Formula::Negation(Box::new(normalize(*x))))),
            ),
        ),
        Formula::Implication(x, y) => Formula::Disjunction(
            Box::new(Formula::Negation(Box::new(normalize(*x)))),
            Box::new(normalize(*y)),
        ),
    }
}

/// Normalization is total and leaves no `MBox` or `Implication` behind.
pub proof fn lemma_normalize_is_normal(f: Formula)
    ensures
        is_normal(normalize(f)),
    decreases f,
{
    match f {
        Formula::Negation(x) => {
            lemma_normalize_is_normal(*x);
            assert(*Box::new(normalize(*x)) == normalize(*x));
        },
        Formula::Conjunction(x, y) => {
            lemma_normalize_is_normal(*x);
            lemma_normalize_is_normal(*y);
            assert(*Box::new(normalize(*x)) == normalize(*x));
            assert(*Box::new(normalize(*y)) == normalize(*y));
        },
        Formula::Disjunction(x, y) => {
            lemma_normalize_is_normal(*x);
            lemma_normalize_is_normal(*y);
            assert(*Box::new(normalize(*x)) == normalize(*x));
            assert(*Box::new(normalize(*y)) == normalize(*y));
        },
        Formula::MDiamond(x) => {
            lemma_normalize_is_normal(*x);
            assert(*Box::new(normalize(*x)) == normalize(*x));
        },
        Formula::MBox(x) => {
            lemma_normalize_is_normal(*x);
            let inner = Formula::Negation(Box::new(normalize(*x)));
            assert(*Box::new(normalize(*x)) == normalize(*x));
            assert(is_normal(inner));
            let mid = Formula::MDiamond(Box::new(inner));
            assert(*Box::new(inner) == inner);
            assert(is_normal(mid));
            assert(*Box::new(mid) == mid);
            assert(is_normal(Formula::Negation(Box::new(mid))));
        },
        Formula::Implication(x, y) => {
            lemma_normalize_is_normal(*x);
            lemma_normalize_is_normal(*y);
            let nl = Formula::Negation(Box::new(normalize(*x)));
            assert(*Box::new(normalize(*x)) == normalize(*x));
            assert(is_normal(nl));
            assert(*Box::new(nl) == nl);
            assert(*Box::new(normalize(*y)) == normalize(*y));
            assert(is_normal(Formula::Disjunction(Box::new(nl), Box::new(normalize(*y)))));
        },
        _ => (),
    }
}

/// A normal formula is a fixpoint of normalization, so normalizing twice
/// gives the same tree as normalizing once.
pub proof fn lemma_normalize_of_normal(f: Formula)
    requires
        is_normal(f),
    ensures
        normalize(f) == f,
    decreases f,
{
    match f {
        Formula::Negation(x) => lemma_normalize_of_normal(*x),
        Formula::Conjunction(x, y) => {
            lemma_normalize_of_normal(*x);
            lemma_normalize_of_normal(*y);
        },
        Formula::Disjunction(x, y) => {
            lemma_normalize_of_normal(*x);
            lemma_normalize_of_normal(*y);
        },
        Formula::MDiamond(x) => lemma_normalize_of_normal(*x),
        _ => (),
    }
}

/// Normalization is idempotent.
pub proof fn lemma_normalize_idempotent(f: Formula)
    ensures
        normalize(normalize(f)) == normalize(f),
{
    lemma_normalize_is_normal(f);
    lemma_normalize_of_normal(normalize(f));
}

impl Clone for Formula {
    /// A clone is structurally equal to the original tree.
    fn clone(&self) -> (r: Self)
        ensures
            r == *self,
        decreases self,
    {
        match self {
            Formula::Top => Formula::Top,
            Formula::Bottom => Formula::Bottom,
            Formula::Letter(c) => Formula::Letter(*c),
            Formula::Negation(x) => Formula::Negation(Box::new((**x).clone())),
            Formula::Conjunction(x, y) => Formula::Conjunction(
                Box::new((**x).clone()),
                Box::new((**y).clone()),
            ),
            Formula::Disjunction(x, y) => Formula::Disjunction(
                Box::new((**x).clone()),
                Box::new((**y).clone()),
            ),
            Formula::MDiamond(x) => Formula::MDiamond(Box::new((**x).clone())),
            Formula::MBox(x) => Formula::MBox(Box::new((**x).clone())),
            Formula::Implication(x, y) => Formula::Implication(
                Box::new((**x).clone()),
                Box::new((**y).clone()),
            ),
        }
    }
}

/// Structural equality of two formula trees.
pub fn formula_eq(a: &Formula, b: &Formula) -> (r: bool)
    ensures
        r == (*a == *b),
    decreases a,
{
    match (a, b) {
        (Formula::Top, Formula::Top) => true,
        (Formula::Bottom, Formula::Bottom) => true,
        (Formula::Letter(x), Formula::Letter(y)) => *x == *y,
        (Formula::Negation(x), Formula::Negation(y)) => formula_eq(x, y),
        (Formula::Conjunction(x1, y1), Formula::Conjunction(x2, y2)) => formula_eq(x1, x2)
            && formula_eq(y1, y2),
        (Formula::Disjunction(x1, y1), Formula::Disjunction(x2, y2)) => formula_eq(x1, x2)
            && formula_eq(y1, y2),
        (Formula::MDiamond(x), Formula::MDiamond(y)) => formula_eq(x, y),
        (Formula::MBox(x), Formula::MBox(y)) => formula_eq(x, y),
        (Formula::Implication(x1, y1), Formula::Implication(x2, y2)) => formula_eq(x1, x2)
            && formula_eq(y1, y2),
        _ => false,
    }
}

impl PartialEq for Formula {
    fn eq(&self, other: &Self) -> (r: bool)
        ensures
            r == (*self == *other),
    {
        formula_eq(self, other)
    }
}

impl vstd::std_specs::cmp::PartialEqSpecImpl for Formula {
    open spec fn obeys_eq_spec() -> bool {
        true
    }

    open spec fn eq_spec(&self, other: &Self) -> bool {
        *self == *other
    }
}

/// Rewrites a formula to its normal form: necessity becomes
/// negation-possibility-negation and implication becomes a disjunction with a
/// negated left side, while all other nodes keep their shape.
pub fn preprocess(f: Formula) -> (r: Formula)
    ensures
        r == normalize(f),
    decreases f,
{
    match f {
        Formula::Top => Formula::Top,
        Formula::Bottom => Formula::Bottom,
        Formula::Letter(c) => Formula::Letter(c),
        Formula::Negation(x) => Formula::Negation(Box::new(preprocess(*x))),
        Formula::Conjunction(x, y) => Formula::Conjunction(
            Box::new(preprocess(*x)),
            Box::new(preprocess(*y)),
        ),
        Formula::Disjunction(x, y) => Formula::Disjunction(
            Box::new(preprocess(*x)),
            Box::new(preprocess(*y)),
        ),
        Formula::MDiamond(x) => Formula::MDiamond(Box::new(preprocess(*x))),
        Formula::MBox(x) => Formula::Negation(
            Box::new(
                Formula::MDiamond(Box::new(Formula::Negation(Box::new(preprocess(*x))))),
            ),
        ),
        Formula::Implication(x, y) => Formula::Disjunction(
            Box::new(Formula::Negation(Box::new(preprocess(*x)))),
            Box::new(preprocess(*y)),
        ),
    }
}

} // verus!

