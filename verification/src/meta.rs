//! A reduced sequent engine over constant-free formulas.
//!
//! This engine predates the full one in `sequents`: its formulas have no
//! `Top` or `Bottom`, its axiom check knows only shared letters, it has no
//! conjunctive branching on the goal side, and its modal rule is gated — it
//! fires only when the goal side holds at least one possibility.  It is kept
//! alongside the full engine as the reference for the gated modal behavior,
//! which changes the shape of derivations (see the design note on the modal
//! rule in `sequents`).

use vstd::prelude::*;

verus! {

/// The syntactic category of a formula node; `Outside` stands for the
/// absence of an enclosing operator.
#[derive(Clone, Copy, PartialEq, Eq, Structural, Debug)]
pub enum FormulaType {
    Letter,
    Negation,
    Conjunction,
    Disjunction,
    MDiamond,
    MBox,
    Implication,
    Outside,
}

/// Binding strength of each category.
pub open spec fn spec_bind_strength(t: FormulaType) -> u8 {
    match t {
        FormulaType::Outside => 99,
        FormulaType::Letter => 99,
        FormulaType::Negation => 3,
        FormulaType::Conjunction => 2,
        FormulaType::Disjunction => 2,
        FormulaType::MDiamond => 3,
        FormulaType::MBox => 3,
        FormulaType::Implication => 1,
    }
}

impl FormulaType {
    /// How tightly this category binds.
    pub fn bind_strength(&self) -> (r: u8)
        ensures
            r == spec_bind_strength(*self),
    {
        match self {
            FormulaType::Outside => 99,
            FormulaType::Letter => 99,
            FormulaType::Negation => 3,
            FormulaType::Conjunction => 2,
            FormulaType::Disjunction => 2,
            FormulaType::MDiamond => 3,
            FormulaType::MBox => 3,
            FormulaType::Implication => 1,
        }
    }
}

/// A constant-free modal formula.  `MBox` and `Implication` are surface
/// syntax: `preprocess` rewrites both away before the engine runs.
#[derive(Debug)]
pub enum Formula {
    Letter(char),
    Negation(Box<Formula>),
    Conjunction(Box<Formula>, Box<Formula>),
    Disjunction(Box<Formula>, Box<Formula>),
    MDiamond(Box<Formula>),
    MBox(Box<Formula>),
    Implication(Box<Formula>, Box<Formula>),
}

/// The syntactic category of a formula's root node.
pub open spec fn spec_formula_type(f: Formula) -> FormulaType {
    match f {
        Formula::Letter(_) => FormulaType::Letter,
        Formula::Negation(_) => FormulaType::Negation,
        Formula::Conjunction(_, _) => FormulaType::Conjunction,
        Formula::Disjunction(_, _) => FormulaType::Disjunction,
        Formula::MDiamond(_) => FormulaType::MDiamond,
        Formula::MBox(_) => FormulaType::MBox,
        Formula::Implication(_, _) => FormulaType::Implication,
    }
}

/// A formula is normal when no `MBox` or `Implication` node occurs in it.
pub open spec fn is_normal(f: Formula) -> bool
    decreases f,
{
    match f {
        Formula::Letter(_) => true,
        Formula::Negation(x) => is_normal(*x),
        Formula::Conjunction(x, y) => is_normal(*x) && is_normal(*y),
        Formula::Disjunction(x, y) => is_normal(*x) && is_normal(*y),
        Formula::MDiamond(x) => is_normal(*x),
        Formula::MBox(_) => false,
        Formula::Implication(_, _) => false,
    }
}

/// The normal form of a formula: `MBox(a)` becomes `¬◇¬a` and
/// `Implication(a, b)` becomes `¬a ∨ b`.
pub open spec fn normalize(f: Formula) -> Formula
    decreases f,
{
    match f {
        Formula::Letter(c) => Formula::Letter(c),
        Formula::Negation(x) => Formula::Negation(Box::new(normalize(*x))),
        Formula::Conjunction(x, y) => Formula::Conjunction(
            Box::new(normalize(*x)),
            Box::new(normalize(*y)),
        ),
        Formula::Disjunction(x, y) => Formula::Disjunction(
            Box::new(normalize(*x)),
            Box::new(normalize(*y)),
        ),
        Formula::MDiamond(x) => Formula::MDiamond(Box::new(normalize(*x))),
        Formula::MBox(x) => Formula::Negation(
            Box::new(
                Formula::MDiamond(Box::new(Formula::Negation(Box::new(normalize(*x))))),
            ),
        ),
        Formula::Implication(x, y) => Formula::Disjunction(
            Box::new(Formula::Negation(Box::new(normalize(*x)))),
            Box::new(normalize(*y)),
        ),
    }
}

/// Normalization is total and leaves no `MBox` or `Implication` behind.
pub proof fn lemma_normalize_is_normal(f: Formula)
    ensures
        is_normal(normalize(f)),
    decreases f,
{
    match f {
        Formula::Negation(x) => {
            lemma_normalize_is_normal(*x);
            assert(*Box::new(normalize(*x)) == normalize(*x));
        },
        Formula::Conjunction(x, y) => {
            lemma_normalize_is_normal(*x);
            lemma_normalize_is_normal(*y);
            assert(*Box::new(normalize(*x)) == normalize(*x));
            assert(*Box::new(normalize(*y)) == normalize(*y));
        },
        Formula::Disjunction(x, y) => {
            lemma_normalize_is_normal(*x);
            lemma_normalize_is_normal(*y);
            assert(*Box::new(normalize(*x)) == normalize(*x));
            assert(*Box::new(normalize(*y)) == normalize(*y));
        },
        Formula::MDiamond(x) => {
            lemma_normalize_is_normal(*x);
            assert(*Box::new(normalize(*x)) == normalize(*x));
        },
        Formula::MBox(x) => {
            lemma_normalize_is_normal(*x);
            let inner = Formula::Negation(Box::new(normalize(*x)));
            assert(*Box::new(normalize(*x)) == normalize(*x));
            assert(is_normal(inner));
            let mid = Formula::MDiamond(Box::new(inner));
            assert(*Box::new(inner) == inner);
            assert(is_normal(mid));
            assert(*Box::new(mid) == mid);
            assert(is_normal(Formula::Negation(Box::new(mid))));
        },
        Formula::Implication(x, y) => {
            lemma_normalize_is_normal(*x);
            lemma_normalize_is_normal(*y);
            let nl = Formula::Negation(Box::new(normalize(*x)));
            assert(*Box::new(normalize(*x)) == normalize(*x));
            assert(is_normal(nl));
            assert(*Box::new(nl) == nl);
            assert(*Box::new(normalize(*y)) == normalize(*y));
            assert(is_normal(Formula::Disjunction(Box::new(nl), Box::new(normalize(*y)))));
        },
        _ => (),
    }
}

impl Clone for Formula {
    /// A clone is structurally equal to the original tree.
    fn clone(&self) -> (r: Self)
        ensures
            r == *self,
        decreases self,
    {
        match self {
            Formula::Letter(c) => Formula::Letter(*c),
            Formula::Negation(x) => Formula::Negation(Box::new((**x).clone())),
            Formula::Conjunction(x, y) => Formula::Conjunction(
                Box::new((**x).clone()),
                Box::new((**y).clone()),
            ),
            Formula::Disjunction(x, y) => Formula::Disjunction(
                Box::new((**x).clone()),
                Box::new((**y).clone()),
            ),
            Formula::MDiamond(x) => Formula::MDiamond(Box::new((**x).clone())),
            Formula::MBox(x) => Formula::MBox(Box::new((**x).clone())),
            Formula::Implication(x, y) => Formula::Implication(
                Box::new((**x).clone()),
                Box::new((**y).clone()),
            ),
        }
    }
}

/// Rewrites a formula to its normal form.
pub fn preprocess(f: Formula) -> (r: Formula)
    ensures
        r == normalize(f),
    decreases f,
{
    match f {
        Formula::Letter(c) => Formula::Letter(c),
        Formula::Negation(x) => Formula::Negation(Box::new(preprocess(*x))),
        Formula::Conjunction(x, y) => Formula::Conjunction(
            Box::new(preprocess(*x)),
            Box::new(preprocess(*y)),
        ),
        Formula::Disjunction(x, y) => Formula::Disjunction(
            Box::new(preprocess(*x)),
            Box::new(preprocess(*y)),
        ),
        Formula::MDiamond(x) => Formula::MDiamond(Box::new(preprocess(*x))),
        Formula::MBox(x) => Formula::Negation(
            Box::new(
                Formula::MDiamond(Box::new(Formula::Negation(Box::new(preprocess(*x))))),
            ),
        ),
        Formula::Implication(x, y) => Formula::Disjunction(
            Box::new(Formula::Negation(Box::new(preprocess(*x)))),
            Box::new(preprocess(*y)),
        ),
    }
}

/// Index of the first formula of syntactic category `t`, or `-1` if none
/// occurs.
pub open spec fn first_of(s: Seq<Formula>, t: FormulaType) -> int
    decreases s.len(),
{
    if s.len() == 0 {
        -1
    } else if spec_formula_type(s[0]) == t {
        0
    } else if first_of(s.drop_first(), t) == -1 {
        -1
    } else {
        1 + first_of(s.drop_first(), t)
    }
}

/// `first_of` returns `-1` exactly when no formula has the category, and
/// otherwise the least index of one that does.
pub proof fn lemma_first_of(s: Seq<Formula>, t: FormulaType)
    ensures
        first_of(s, t) == -1 ==> forall|j: int|
            0 <= j < s.len() ==> spec_formula_type(s[j]) != t,
        first_of(s, t) != -1 ==> 0 <= first_of(s, t) < s.len() && spec_formula_type(
            s[first_of(s, t)],
        ) == t && forall|j: int| 0 <= j < first_of(s, t) ==> spec_formula_type(s[j]) != t,
    decreases s.len(),
{
    if s.len() > 0 && spec_formula_type(s[0]) != t {
        let d = s.drop_first();
        lemma_first_of(d, t);
        if first_of(d, t) == -1 {
            assert forall|j: int| 0 <= j < s.len() implies spec_formula_type(s[j]) != t by {
                if j > 0 {
                    assert(s[j] == d[j - 1]);
                }
            }
        } else {
            let fd = first_of(d, t);
            assert(s[1 + fd] == d[fd]);
            assert forall|j: int| 0 <= j < 1 + fd implies spec_formula_type(s[j]) != t by {
                if j > 0 {
                    assert(s[j] == d[j - 1]);
                }
            }
        }
    }
}

/// A formula of category `t` at `i`, with none before it, pins `first_of`.
pub proof fn lemma_first_of_at(s: Seq<Formula>, t: FormulaType, i: int)
    requires
        0 <= i < s.len(),
        spec_formula_type(s[i]) == t,
        forall|j: int| 0 <= j < i ==> spec_formula_type(s[j]) != t,
    ensures
        first_of(s, t) == i,
{
    lemma_first_of(s, t);
}

/// The formula under a negation.
pub open spec fn neg_inner(f: Formula) -> Formula {
    match f {
        Formula::Negation(x) => *x,
        _ => arbitrary(),
    }
}

/// The formula under a possibility.
pub open spec fn dia_inner(f: Formula) -> Formula {
    match f {
        Formula::MDiamond(x) => *x,
        _ => arbitrary(),
    }
}

/// The left operand of a binary connective.
pub open spec fn bin_lhs(f: Formula) -> Formula {
    match f {
        Formula::Conjunction(x, _) => *x,
        Formula::Disjunction(x, _) => *x,
        Formula::Implication(x, _) => *x,
        _ => arbitrary(),
    }
}

/// The right operand of a binary connective.
pub open spec fn bin_rhs(f: Formula) -> Formula {
    match f {
        Formula::Conjunction(_, y) => *y,
        Formula::Disjunction(_, y) => *y,
        Formula::Implication(_, y) => *y,
        _ => arbitrary(),
    }
}

/// The axiom check of the reduced engine: some letter occurs on both sides.
pub open spec fn shared_letter(l: Seq<Formula>, r: Seq<Formula>) -> bool {
    exists|i: int, j: int|
        0 <= i < l.len() && 0 <= j < r.len() && l[i] is Letter && l[i] == r[j]
}

/// The inner formulas of the possibility nodes of a sequence, in order.
pub open spec fn diamond_inners(s: Seq<Formula>) -> Seq<Formula>
    decreases s.len(),
{
    if s.len() == 0 {
        Seq::empty()
    } else {
        let tail = if s.last() is MDiamond {
            seq![dia_inner(s.last())]
        } else {
            Seq::empty()
        };
        diamond_inners(s.drop_last()) + tail
    }
}

/// Extending a prefix by one formula extends its diamond inners exactly when
/// that formula is a possibility.
pub proof fn lemma_diamond_inners_take_step(s: Seq<Formula>, j: int)
    requires
        0 <= j < s.len(),
    ensures
        s[j] is MDiamond ==> diamond_inners(s.take(j + 1)) == diamond_inners(s.take(j)).push(
            dia_inner(s[j]),
        ),
        !(s[j] is MDiamond) ==> diamond_inners(s.take(j + 1)) == diamond_inners(s.take(j)),
{
    let p = s.take(j + 1);
    assert(p.drop_last() =~= s.take(j));
    assert(p.last() == s[j]);
    if s[j] is MDiamond {
        assert(diamond_inners(p) =~= diamond_inners(s.take(j)).push(dia_inner(s[j])));
    } else {
        assert(diamond_inners(p) =~= diamond_inners(s.take(j)));
    }
}

/// A proof obligation of the reduced engine.
#[derive(Debug)]
pub struct MetaImpl {
    pub left: Vec<Formula>,
    pub right: Vec<Formula>,
}

/// What the axiom check of the reduced engine can say of an obligation.
#[derive(Debug, Eq, PartialEq, Structural, Copy, Clone)]
pub enum Validity {
    /// The check is not decisive.
    Indeterminate,
    /// The obligation is certainly valid.
    Valid,
    /// The obligation is certainly invalid.
    Invalid,
}

/// The two sides of an obligation as sequences.
pub open spec fn meta_pair(s: MetaImpl) -> (Seq<Formula>, Seq<Formula>) {
    (s.left@, s.right@)
}

/// One rewrite of the reduced engine: the rule number applied, if any, and
/// the successor obligations.  An axiom resolves with no successors; a gated
/// modal rule fires only when both sides hold possibilities; and an
/// obligation that no rule touches also ends with no successors.
pub open spec fn meta_step_spec(l: Seq<Formula>, r: Seq<Formula>) -> (
    Option<u8>,
    Seq<(Seq<Formula>, Seq<Formula>)>,
) {
    if shared_letter(l, r) {
        (None, Seq::empty())
    } else if first_of(l, FormulaType::Negation) >= 0 {
        let i = first_of(l, FormulaType::Negation);
        (Some(1u8), seq![(l.remove(i), r.push(neg_inner(l[i])))])
    } else if first_of(r, FormulaType::Negation) >= 0 {
        let i = first_of(r, FormulaType::Negation);
        (Some(2u8), seq![(l.push(neg_inner(r[i])), r.remove(i))])
    } else if first_of(l, FormulaType::Conjunction) >= 0 {
        let i = first_of(l, FormulaType::Conjunction);
        (
            Some(3u8),
            seq![(l.remove(i).insert(i, bin_lhs(l[i])).insert(i + 1, bin_rhs(l[i])), r)],
        )
    } else if first_of(r, FormulaType::Disjunction) >= 0 {
        let i = first_of(r, FormulaType::Disjunction);
        (
            Some(4u8),
            seq![(l, r.remove(i).insert(i, bin_lhs(r[i])).insert(i + 1, bin_rhs(r[i])))],
        )
    } else if first_of(l, FormulaType::Disjunction) >= 0 {
        let i = first_of(l, FormulaType::Disjunction);
        (
            Some(5u8),
            seq![
                (l.remove(i).push(bin_lhs(l[i])), r),
                (l.remove(i).push(bin_rhs(l[i])), r),
            ],
        )
    } else if diamond_inners(r).len() > 0 && diamond_inners(l).len() > 0 {
        (
            Some(7u8),
            diamond_inners(l).map_values(|f: Formula| (seq![f], diamond_inners(r))),
        )
    } else {
        (None, Seq::empty())
    }
}


/// A clone of a formula vector has the same mathematical sequence.
fn clone_metas(v: &Vec<Formula>) -> (r: Vec<Formula>)
    ensures
        r@ == v@,
{
    let mut r: Vec<Formula> = Vec::new();
    let mut i: usize = 0;
    while i < v.len()
        invariant
            0 <= i <= v@.len(),
            r@ == v@.take(i as int),
        decreases v@.len() - i,
    {
        r.push(v[i].clone());
        proof {
            assert(r@ =~= v@.take(i + 1));
        }
        i += 1;
    }
    proof {
        assert(v@.take(v@.len() as int) =~= v@);
    }
    r
}

impl MetaImpl {
    /// Packs the two sides of a proof obligation.
    pub fn new(left: Vec<Formula>, right: Vec<Formula>) -> (r: MetaImpl)
        ensures
            r.left@ == left@,
            r.right@ == right@,
    {
        MetaImpl { left, right }
    }

    /// The axiom check: the obligation is certainly valid when some letter
    /// occurs on both sides, and indeterminate otherwise.
    pub fn validity(&self) -> (r: Validity)
        ensures
            r == (if shared_letter(self.left@, self.right@) {
                Validity::Valid
            } else {
                Validity::Indeterminate
            }),
    {
        let mut i: usize = 0;
        while i < self.left.len()
            invariant
                0 <= i <= self.left@.len(),
                forall|k: int, m: int|
                    0 <= k < i && 0 <= m < self.right@.len() ==> !(self.left@[k] is Letter
                        && self.left@[k] == self.right@[m]),
            decreases self.left@.len() - i,
        {
            match &self.left[i] {
                Formula::Letter(c) => {
                    let mut m: usize = 0;
                    while m < self.right.len()
                        invariant
                            0 <= m <= self.right@.len(),
                            self.left@[i as int] == Formula::Letter(*c),
                            forall|k: int|
                                0 <= k < m ==> !(self.left@[i as int] == self.right@[k]),
                        decreases self.right@.len() - m,
                    {
                        match &self.right[m] {
                            Formula::Letter(d) => {
                                if *c == *d {
                                    return Validity::Valid;
                                }
                            },
                            _ => {},
                        }
                        m += 1;
                    }
                },
                _ => {},
            }
            i += 1;
        }
        Validity::Indeterminate
    }

    /// Moves the first negation on the left to the right, unwrapped.
    pub fn try_rule_1(&mut self) -> (r: bool)
        ensures
            ({
                let l = old(self).left@;
                let i = first_of(l, FormulaType::Negation);
                if i >= 0 {
                    r && final(self).left@ == l.remove(i) && final(self).right@ == old(
                        self,
                    ).right@.push(neg_inner(l[i]))
                } else {
                    !r && *final(self) == *old(self)
                }
            }),
    {
        let mut i: usize = 0;
        while i < self.left.len()
            invariant
                0 <= i <= self.left@.len(),
                *self == *old(self),
                forall|j: int|
                    0 <= j < i ==> spec_formula_type(self.left@[j]) != FormulaType::Negation,
            decreases self.left@.len() - i,
        {
            if matches!(&self.left[i], Formula::Negation(_)) {
                proof {
                    lemma_first_of_at(self.left@, FormulaType::Negation, i as int);
                }
                let n = self.left.remove(i);
                match n {
                    Formula::Negation(x) => {
                        self.right.push(*x);
                    },
                    _ => {
                        proof {
                            assert(false);
                        }
                    },
                }
                return true;
            }
            i += 1;
        }
        proof {
            lemma_first_of(self.left@, FormulaType::Negation);
        }
        false
    }

    /// Moves the first negation on the right to the left, unwrapped.
    pub fn try_rule_2(&mut self) -> (r: bool)
        ensures
            ({
                let rr = old(self).right@;
                let i = first_of(rr, FormulaType::Negation);
                if i >= 0 {
                    r && final(self).right@ == rr.remove(i) && final(self).left@ == old(
                        self,
                    ).left@.push(neg_inner(rr[i]))
                } else {
                    !r && *final(self) == *old(self)
                }
            }),
    {
        let mut i: usize = 0;
        while i < self.right.len()
            invariant
                0 <= i <= self.right@.len(),
                *self == *old(self),
                forall|j: int|
                    0 <= j < i ==> spec_formula_type(self.right@[j]) != FormulaType::Negation,
            decreases self.right@.len() - i,
        {
            if matches!(&self.right[i], Formula::Negation(_)) {
                proof {
                    lemma_first_of_at(self.right@, FormulaType::Negation, i as int);
                }
                let n = self.right.remove(i);
                match n {
                    Formula::Negation(x) => {
                        self.left.push(*x);
                    },
                    _ => {
                        proof {
                            assert(false);
                        }
                    },
                }
                return true;
            }
            i += 1;
        }
        proof {
            lemma_first_of(self.right@, FormulaType::Negation);
        }
        false
    }

    /// Splits the first conjunction on the left into its conjuncts, in place.
    pub fn try_rule_3(&mut self) -> (r: bool)
        ensures
            ({
                let l = old(self).left@;
                let i = first_of(l, FormulaType::Conjunction);
                if i >= 0 {
                    r && final(self).left@ == l.remove(i).insert(i, bin_lhs(l[i])).insert(
                        i + 1,
                        bin_rhs(l[i]),
                    ) && final(self).right@ == old(self).right@
                } else {
                    !r && *final(self) == *old(self)
                }
            }),
    {
        let mut i: usize = 0;
        while i < self.left.len()
            invariant
                0 <= i <= self.left@.len(),
                *self == *old(self),
                forall|j: int|
                    0 <= j < i ==> spec_formula_type(self.left@[j])
                        != FormulaType::Conjunction,
            decreases self.left@.len() - i,
        {
            if matches!(&self.left[i], Formula::Conjunction(_, _)) {
                proof {
                    lemma_first_of_at(self.left@, FormulaType::Conjunction, i as int);
                }
                let n = self.left.remove(i);
                match n {
                    Formula::Conjunction(x, y) => {
                        self.left.insert(i, *x);
                        self.left.insert(i + 1, *y);
                    },
                    _ => {
                        proof {
                            assert(false);
                        }
                    },
                }
                return true;
            }
            i += 1;
        }
        proof {
            lemma_first_of(self.left@, FormulaType::Conjunction);
        }
        false
    }

    /// Splits the first disjunction on the right into its disjuncts, in
    /// place.
    pub fn try_rule_4(&mut self) -> (r: bool)
        ensures
            ({
                let rr = old(self).right@;
                let i = first_of(rr, FormulaType::Disjunction);
                if i >= 0 {
                    r && final(self).right@ == rr.remove(i).insert(i, bin_lhs(rr[i])).insert(
                        i + 1,
                        bin_rhs(rr[i]),
                    ) && final(self).left@ == old(self).left@
                } else {
                    !r && *final(self) == *old(self)
                }
            }),
    {
        let mut i: usize = 0;
        while i < self.right.len()
            invariant
                0 <= i <= self.right@.len(),
                *self == *old(self),
                forall|j: int|
                    0 <= j < i ==> spec_formula_type(self.right@[j])
                        != FormulaType::Disjunction,
            decreases self.right@.len() - i,
        {
            if matches!(&self.right[i], Formula::Disjunction(_, _)) {
                proof {
                    lemma_first_of_at(self.right@, FormulaType::Disjunction, i as int);
                }
                let n = self.right.remove(i);
                match n {
                    Formula::Disjunction(x, y) => {
                        self.right.insert(i, *x);
                        self.right.insert(i + 1, *y);
                    },
                    _ => {
                        proof {
                            assert(false);
                        }
                    },
                }
                return true;
            }
            i += 1;
        }
        proof {
            lemma_first_of(self.right@, FormulaType::Disjunction);
        }
        false
    }

    /// Branches on the first disjunction on the left: two obligations, one
    /// with each disjunct appended in place of the disjunction.
    pub fn try_rule_5(&mut self) -> (r: Option<(MetaImpl, MetaImpl)>)
        ensures
            *final(self) == *old(self),
            ({
                let l = old(self).left@;
                let i = first_of(l, FormulaType::Disjunction);
                if i >= 0 {
                    r matches Some((a, b)) && a.left@ == l.remove(i).push(bin_lhs(l[i]))
                        && a.right@ == old(self).right@ && b.left@ == l.remove(i).push(
                        bin_rhs(l[i]),
                    ) && b.right@ == old(self).right@
                } else {
                    r is None
                }
            }),
    {
        let mut i: usize = 0;
        while i < self.left.len()
            invariant
                0 <= i <= self.left@.len(),
                *self == *old(self),
                forall|j: int|
                    0 <= j < i ==> spec_formula_type(self.left@[j])
                        != FormulaType::Disjunction,
            decreases self.left@.len() - i,
        {
            match &self.left[i] {
                Formula::Disjunction(x, y) => {
                    proof {
                        lemma_first_of_at(self.left@, FormulaType::Disjunction, i as int);
                    }
                    let xf = (**x).clone();
                    let yf = (**y).clone();
                    let mut la = clone_metas(&self.left);
                    la.remove(i);
                    let mut lb = clone_metas(&la);
                    la.push(xf);
                    lb.push(yf);
                    return Some(
                        (
                            MetaImpl::new(la, clone_metas(&self.right)),
                            MetaImpl::new(lb, clone_metas(&self.right)),
                        ),
                    );
                },
                _ => {},
            }
            i += 1;
        }
        proof {
            lemma_first_of(self.left@, FormulaType::Disjunction);
        }
        None
    }

    /// The gated modal rule: when the goal side holds at least one
    /// possibility, every possibility on the left yields a candidate
    /// successor obligation; with none on the goal side the rule yields
    /// nothing.
    pub fn rule_diamond(&mut self) -> (r: Vec<MetaImpl>)
        ensures
            *final(self) == *old(self),
            diamond_inners(old(self).right@).len() == 0 ==> r@.len() == 0,
            diamond_inners(old(self).right@).len() > 0 ==> r@.len() == diamond_inners(
                old(self).left@,
            ).len() && (forall|k: int|
                0 <= k < r@.len() ==> (#[trigger] r@[k]).left@ == seq![
                    diamond_inners(old(self).left@)[k],
                ] && r@[k].right@ == diamond_inners(old(self).right@)),
    {
        let mut rhs: Vec<Formula> = Vec::new();
        let mut j: usize = 0;
        while j < self.right.len()
            invariant
                0 <= j <= self.right@.len(),
                *self == *old(self),
                rhs@ == diamond_inners(self.right@.take(j as int)),
            decreases self.right@.len() - j,
        {
            proof {
                lemma_diamond_inners_take_step(self.right@, j as int);
            }
            match &self.right[j] {
                Formula::MDiamond(q) => {
                    rhs.push((**q).clone());
                },
                _ => {},
            }
            j += 1;
        }
        proof {
            assert(self.right@.take(self.right@.len() as int) =~= self.right@);
        }
        let mut r: Vec<MetaImpl> = Vec::new();
        if rhs.len() == 0 {
            return r;
        }
        let mut i: usize = 0;
        while i < self.left.len()
            invariant
                0 <= i <= self.left@.len(),
                *self == *old(self),
                rhs@ == diamond_inners(self.right@),
                r@.len() == diamond_inners(self.left@.take(i as int)).len(),
                forall|k: int|
                    0 <= k < r@.len() ==> (#[trigger] r@[k]).left@ == seq![
                        diamond_inners(self.left@.take(i as int))[k],
                    ] && r@[k].right@ == diamond_inners(self.right@),
            decreases self.left@.len() - i,
        {
            let ghost pre = r@;
            let ghost din = diamond_inners(self.left@.take(i as int));
            proof {
                lemma_diamond_inners_take_step(self.left@, i as int);
            }
            match &self.left[i] {
                Formula::MDiamond(inner) => {
                    let mut single: Vec<Formula> = Vec::new();
                    single.push((**inner).clone());
                    proof {
                        assert(single@ =~= seq![dia_inner(self.left@[i as int])]);
                    }
                    r.push(MetaImpl::new(single, clone_metas(&rhs)));
                    proof {
                        let dn = diamond_inners(self.left@.take(i + 1));
                        assert(dn == din.push(dia_inner(self.left@[i as int])));
                        assert forall|k: int| 0 <= k < r@.len() implies (
                        #[trigger] r@[k]).left@ == seq![dn[k]] && r@[k].right@
                            == diamond_inners(self.right@) by {
                            if k < pre.len() {
                                assert(r@[k] == pre[k]);
                                assert(dn[k] == din[k]);
                            } else {
                                assert(dn[k] == dia_inner(self.left@[i as int]));
                            }
                        }
                    }
                },
                _ => {},
            }
            i += 1;
        }
        proof {
            assert(self.left@.take(self.left@.len() as int) =~= self.left@);
        }
        r
    }

    /// One rewrite of the reduced engine, applied to an owned obligation:
    /// the rule number applied, if any, and the successor obligations.
    pub fn step(self) -> (res: (Option<u8>, Vec<MetaImpl>))
        ensures
            (res.0, res.1@.map_values(|s: MetaImpl| meta_pair(s))) == meta_step_spec(
                self.left@,
                self.right@,
            ),
    {
        let ghost l = self.left@;
        let ghost rr = self.right@;
        let mut m = self;
        if matches!(m.validity(), Validity::Valid) {
            let r: Vec<MetaImpl> = Vec::new();
            proof {
                assert(r@.map_values(|s: MetaImpl| meta_pair(s)) =~= Seq::<
                    (Seq<Formula>, Seq<Formula>),
                >::empty());
            }
            return (None, r);
        }
        if m.try_rule_1() {
            let r = vec![m];
            proof {
                assert(r@.map_values(|s: MetaImpl| meta_pair(s)) =~= meta_step_spec(
                    l,
                    rr,
                ).1);
            }
            return (Some(1), r);
        }
        if m.try_rule_2() {
            let r = vec![m];
            proof {
                assert(r@.map_values(|s: MetaImpl| meta_pair(s)) =~= meta_step_spec(
                    l,
                    rr,
                ).1);
            }
            return (Some(2), r);
        }
        if m.try_rule_3() {
            let r = vec![m];
            proof {
                assert(r@.map_values(|s: MetaImpl| meta_pair(s)) =~= meta_step_spec(
                    l,
                    rr,
                ).1);
            }
            return (Some(3), r);
        }
        if m.try_rule_4() {
            let r = vec![m];
            proof {
                assert(r@.map_values(|s: MetaImpl| meta_pair(s)) =~= meta_step_spec(
                    l,
                    rr,
                ).1);
            }
            return (Some(4), r);
        }
        if let Some((a, b)) = m.try_rule_5() {
            let r = vec![a, b];
            proof {
                assert(r@.map_values(|s: MetaImpl| meta_pair(s)) =~= meta_step_spec(
                    l,
                    rr,
                ).1);
            }
            return (Some(5), r);
        }
        let r7 = m.rule_diamond();
        if r7.len() > 0 {
            proof {
                assert(diamond_inners(rr).len() > 0);
                assert(r7@.map_values(|s: MetaImpl| meta_pair(s)) =~= meta_step_spec(
                    l,
                    rr,
                ).1);
            }
            return (Some(7), r7);
        }
        let r: Vec<MetaImpl> = Vec::new();
        proof {
            assert(r@.map_values(|s: MetaImpl| meta_pair(s)) =~= Seq::<
                (Seq<Formula>, Seq<Formula>),
            >::empty());
        }
        (None, r)
    }
}

} // verus!
