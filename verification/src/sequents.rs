//! The sequent rewrite engine.
//!
//! A sequent `left ⇒ right` claims that the conjunction of `left` entails the
//! disjunction of `right` in every Kripke model.  `step` applies the first of
//! ten rewrite rules, in a fixed priority order, and yields either a successor
//! sequent, a conjunctive or disjunctive branching, or a verdict.  Every rule
//! strictly shrinks the total node count of the sequent, which bounds the
//! search.

use vstd::prelude::*;

use crate::atoms::AtomSet;
use crate::formulae::Formula;
use crate::formulae::FormulaType;
use crate::formulae::fsize;
use crate::formulae::spec_formula_type;

verus! {

/// The rewrite rule applied by one step of the engine.
#[derive(Clone, Copy, PartialEq, Eq, Structural, Debug)]
pub enum Rule {
    /// Drop a `Top` from the left.
    LTop,
    /// Drop a `Bottom` from the right.
    RBot,
    /// Move a negated left formula to the right, unwrapped.
    LNeg,
    /// Move a negated right formula to the left, unwrapped.
    RNeg,
    /// Split a left conjunction into its two conjuncts, in place.
    LAnd,
    /// Split a right disjunction into its two disjuncts, in place.
    ROr,
    /// Branch on a left disjunction; both branches must hold.
    LOr,
    /// Branch on a right conjunction; both branches must hold.
    RAnd,
    /// Step into accessible worlds; some branch must hold.
    Diam,
}

/// A proof obligation: the conjunction of `left` entails the disjunction of
/// `right`.
#[derive(Debug, PartialEq)]
pub struct Sequent {
    pub left: Vec<Formula>,
    pub right: Vec<Formula>,
}

/// The outcome of one rewrite on a sequent.  The atom sets record the letters
/// present on the left at the moment the engine resolved; the
/// counter-model synthesizer later turns them into valuations.
#[derive(Debug)]
pub enum StepResult {
    /// The rule rewrote the sequent into a single successor.
    Indeterminate(Rule, Sequent),
    /// The sequent is valid if and only if some branch is valid.
    ValidIfAny(Rule, Vec<Sequent>, AtomSet),
    /// The sequent is valid if and only if both branches are valid.
    ValidIfBoth(Rule, Sequent, Sequent, AtomSet),
    /// The sequent is an axiom.
    Valid(AtomSet),
    /// No rule applies and the sequent is not an axiom.
    Invalid(AtomSet),
}

/// The mathematical value of a `StepResult`: sequents become pairs of
/// sequences and atom sets become character sets.
#[verifier::ext_equal]
pub enum StepModel {
    Indeterminate(Rule, Seq<Formula>, Seq<Formula>),
    ValidIfAny(Rule, Seq<(Seq<Formula>, Seq<Formula>)>, Set<char>),
    ValidIfBoth(Rule, (Seq<Formula>, Seq<Formula>), (Seq<Formula>, Seq<Formula>), Set<char>),
    Valid(Set<char>),
    Invalid(Set<char>),
}

/// The two sides of a sequent as sequences.
pub open spec fn seq_pair(s: Sequent) -> (Seq<Formula>, Seq<Formula>) {
    (s.left@, s.right@)
}

/// The mathematical value of a step result.
pub open spec fn step_view(r: StepResult) -> StepModel {
    match r {
        StepResult::Indeterminate(rule, s) => StepModel::Indeterminate(rule, s.left@, s.right@),
        StepResult::ValidIfAny(rule, v, a) => StepModel::ValidIfAny(
            rule,
            v@.map_values(|s: Sequent| seq_pair(s)),
            a@,
        ),
        StepResult::ValidIfBoth(rule, s1, s2, a) => StepModel::ValidIfBoth(
            rule,
            seq_pair(s1),
            seq_pair(s2),
            a@,
        ),
        StepResult::Valid(a) => StepModel::Valid(a@),
        StepResult::Invalid(a) => StepModel::Invalid(a@),
    }
}

/// Index of the first formula of syntactic category `t`, or `-1` if none
/// occurs.
pub open spec fn first_of(s: Seq<Formula>, t: FormulaType) -> int
    decreases s.len(),
{
    if s.len() == 0 {
        -1
    } else if spec_formula_type(s[0]) == t {
        0
    } else if first_of(s.drop_first(), t) == -1 {
        -1
    } else {
        1 + first_of(s.drop_first(), t)
    }
}

/// `first_of` returns `-1` exactly when no formula has the category, and
/// otherwise the least index of one that does.
pub proof fn lemma_first_of(s: Seq<Formula>, t: FormulaType)
    ensures
        first_of(s, t) == -1 ==> forall|j: int|
            0 <= j < s.len() ==> spec_formula_type(s[j]) != t,
        first_of(s, t) != -1 ==> 0 <= first_of(s, t) < s.len() && spec_formula_type(
            s[first_of(s, t)],
        ) == t && forall|j: int| 0 <= j < first_of(s, t) ==> spec_formula_type(s[j]) != t,
    decreases s.len(),
{
    if s.len() > 0 && spec_formula_type(s[0]) != t {
        let d = s.drop_first();
        lemma_first_of(d, t);
        if first_of(d, t) == -1 {
            assert(first_of(s, t) == -1);
            assert forall|j: int| 0 <= j < s.len() implies spec_formula_type(s[j]) != t by {
                if j > 0 {
                    assert(s[j] == d[j - 1]);
                }
            }
        } else {
            let fd = first_of(d, t);
            assert(first_of(s, t) == 1 + fd);
            assert(s[1 + fd] == d[fd]);
            assert forall|j: int| 0 <= j < 1 + fd implies spec_formula_type(s[j]) != t by {
                if j > 0 {
                    assert(s[j] == d[j - 1]);
                }
            }
        }
    }
}

/// A formula of category `t` at `i`, with none before it, pins `first_of`.
pub proof fn lemma_first_of_at(s: Seq<Formula>, t: FormulaType, i: int)
    requires
        0 <= i < s.len(),
        spec_formula_type(s[i]) == t,
        forall|j: int| 0 <= j < i ==> spec_formula_type(s[j]) != t,
    ensures
        first_of(s, t) == i,
{
    lemma_first_of(s, t);
}

/// The letter under a negation.
pub open spec fn neg_inner(f: Formula) -> Formula {
    match f {
        Formula::Negation(x) => *x,
        _ => arbitrary(),
    }
}

/// The formula under a possibility.
pub open spec fn dia_inner(f: Formula) -> Formula {
    match f {
        Formula::MDiamond(x) => *x,
        _ => arbitrary(),
    }
}

/// The left operand of a binary connective.
pub open spec fn bin_lhs(f: Formula) -> Formula {
    match f {
        Formula::Conjunction(x, _) => *x,
        Formula::Disjunction(x, _) => *x,
        Formula::Implication(x, _) => *x,
        _ => arbitrary(),
    }
}

/// The right operand of a binary connective.
pub open spec fn bin_rhs(f: Formula) -> Formula {
    match f {
        Formula::Conjunction(_, y) => *y,
        Formula::Disjunction(_, y) => *y,
        Formula::Implication(_, y) => *y,
        _ => arbitrary(),
    }
}

/// The axiom check: `Top` on the right, `Bottom` on the left, or a letter on
/// both sides.
pub open spec fn cv_spec(l: Seq<Formula>, r: Seq<Formula>) -> bool {
    (exists|j: int| 0 <= j < r.len() && r[j] is Top) || (exists|i: int|
        0 <= i < l.len() && l[i] is Bottom) || (exists|i: int, j: int|
        0 <= i < l.len() && 0 <= j < r.len() && l[i] is Letter && l[i] == r[j])
}

/// The letters that occur as atoms in a sequence of formulas.
pub open spec fn left_letters(l: Seq<Formula>) -> Set<char> {
    Set::new(|c: char| l.contains(Formula::Letter(c)))
}

/// The inner formulas of the possibility nodes of a sequence, in order.
pub open spec fn diamond_inners(s: Seq<Formula>) -> Seq<Formula>
    decreases s.len(),
{
    if s.len() == 0 {
        Seq::empty()
    } else {
        let tail = if s.last() is MDiamond {
            seq![dia_inner(s.last())]
        } else {
            Seq::empty()
        };
        diamond_inners(s.drop_last()) + tail
    }
}

/// Extending a prefix by one formula extends its diamond inners by that
/// formula's inner exactly when it is a possibility.
pub proof fn lemma_diamond_inners_take_step(s: Seq<Formula>, j: int)
    requires
        0 <= j < s.len(),
    ensures
        s[j] is MDiamond ==> diamond_inners(s.take(j + 1)) == diamond_inners(s.take(j)).push(
            dia_inner(s[j]),
        ),
        !(s[j] is MDiamond) ==> diamond_inners(s.take(j + 1)) == diamond_inners(s.take(j)),
{
    let p = s.take(j + 1);
    assert(p.drop_last() =~= s.take(j));
    assert(p.last() == s[j]);
    if s[j] is MDiamond {
        assert(diamond_inners(p) =~= diamond_inners(s.take(j)).push(dia_inner(s[j])));
    } else {
        assert(diamond_inners(p) =~= diamond_inners(s.take(j)));
    }
}

/// One rewrite of the engine, as a mathematical function.  The cases are
/// tried in priority order; the first applicable one decides the result.
pub open spec fn step_spec(l: Seq<Formula>, r: Seq<Formula>) -> StepModel {
    if cv_spec(l, r) {
        StepModel::Valid(left_letters(l))
    } else if first_of(l, FormulaType::Top) >= 0 {
        StepModel::Indeterminate(Rule::LTop, l.remove(first_of(l, FormulaType::Top)), r)
    } else if first_of(r, FormulaType::Bottom) >= 0 {
        StepModel::Indeterminate(Rule::RBot, l, r.remove(first_of(r, FormulaType::Bottom)))
    } else if first_of(l, FormulaType::Negation) >= 0 {
        let i = first_of(l, FormulaType::Negation);
        StepModel::Indeterminate(Rule::LNeg, l.remove(i), r.push(neg_inner(l[i])))
    } else if first_of(r, FormulaType::Negation) >= 0 {
        let i = first_of(r, FormulaType::Negation);
        StepModel::Indeterminate(Rule::RNeg, l.push(neg_inner(r[i])), r.remove(i))
    } else if first_of(l, FormulaType::Conjunction) >= 0 {
        let i = first_of(l, FormulaType::Conjunction);
        StepModel::Indeterminate(
            Rule::LAnd,
            l.remove(i).insert(i, bin_lhs(l[i])).insert(i + 1, bin_rhs(l[i])),
            r,
        )
    } else if first_of(r, FormulaType::Disjunction) >= 0 {
        let i = first_of(r, FormulaType::Disjunction);
        StepModel::Indeterminate(
            Rule::ROr,
            l,
            r.remove(i).insert(i, bin_lhs(r[i])).insert(i + 1, bin_rhs(r[i])),
        )
    } else if first_of(l, FormulaType::Disjunction) >= 0 {
        let i = first_of(l, FormulaType::Disjunction);
        StepModel::ValidIfBoth(
            Rule::LOr,
            (l.remove(i).push(bin_lhs(l[i])), r),
            (l.remove(i).push(bin_rhs(l[i])), r),
            left_letters(l),
        )
    } else if first_of(r, FormulaType::Conjunction) >= 0 {
        let i = first_of(r, FormulaType::Conjunction);
        StepModel::ValidIfBoth(
            Rule::RAnd,
            (l, r.remove(i).push(bin_lhs(r[i]))),
            (l, r.remove(i).push(bin_rhs(r[i]))),
            left_letters(l),
        )
    } else if diamond_inners(l).len() > 0 {
        StepModel::ValidIfAny(
            Rule::Diam,
            diamond_inners(l).map_values(|f: Formula| (seq![f], diamond_inners(r))),
            left_letters(l),
        )
    } else {
        StepModel::Invalid(left_letters(l))
    }
}

/// A clone of a formula vector has the same mathematical sequence.
pub(crate) fn clone_formulas(v: &Vec<Formula>) -> (r: Vec<Formula>)
    ensures
        r@ == v@,
{
    let mut r: Vec<Formula> = Vec::new();
    let mut i: usize = 0;
    while i < v.len()
        invariant
            0 <= i <= v@.len(),
            r@ == v@.take(i as int),
        decreases v@.len() - i,
    {
        r.push(v[i].clone());
        proof {
            assert(r@ =~= v@.take(i + 1));
        }
        i += 1;
    }
    proof {
        assert(v@.take(v@.len() as int) =~= v@);
    }
    r
}

impl Clone for Sequent {
    /// A clone carries the same two sequences of formulas.
    fn clone(&self) -> (r: Self)
        ensures
            r.left@ == self.left@,
            r.right@ == self.right@,
    {
        Sequent { left: clone_formulas(&self.left), right: clone_formulas(&self.right) }
    }
}

impl Sequent {
    /// Packs the two sides of a proof obligation.
    pub fn new(left: Vec<Formula>, right: Vec<Formula>) -> (r: Sequent)
        ensures
            r.left@ == left@,
            r.right@ == right@,
    {
        Sequent { left, right }
    }

    /// The letters that occur as atoms on the left side.
    fn letters_on_left(&self) -> (r: AtomSet)
        ensures
            r@ == left_letters(self.left@),
    {
        let l = &self.left;
        let mut r = AtomSet::new();
        let mut i: usize = 0;
        while i < l.len()
            invariant
                0 <= i <= l@.len(),
                r@ == left_letters(l@.take(i as int)),
            decreases l@.len() - i,
        {
            let ghost pre = r@;
            match &l[i] {
                Formula::Letter(c) => {
                    r.insert(*c);
                },
                _ => {},
            }
            proof {
                let p1 = l@.take(i + 1);
                assert forall|c: char| r@.contains(c) implies left_letters(p1).contains(
                    c,
                ) by {
                    if pre.contains(c) {
                        let j = choose|j: int|
                            0 <= j < i && l@.take(i as int)[j] == Formula::Letter(c);
                        assert(p1[j] == Formula::Letter(c));
                        assert(p1.contains(Formula::Letter(c)));
                    } else {
                        assert(p1[i as int] == Formula::Letter(c));
                        assert(p1.contains(Formula::Letter(c)));
                    }
                }
                assert forall|c: char| left_letters(p1).contains(c) implies r@.contains(
                    c,
                ) by {
                    let j = choose|j: int| 0 <= j < p1.len() && p1[j] == Formula::Letter(c);
                    if j < i {
                        assert(l@.take(i as int)[j] == Formula::Letter(c));
                        assert(l@.take(i as int).contains(Formula::Letter(c)));
                    }
                }
                assert(r@ =~= left_letters(p1));
            }
            i += 1;
        }
        proof {
            assert(l@.take(l@.len() as int) =~= l@);
        }
        r
    }

    /// The axiom check: the sequent is certainly valid when `Top` occurs on
    /// the right, `Bottom` occurs on the left, or some letter occurs as an
    /// atom on both sides.
    pub fn certainly_valid(&self) -> (r: bool)
        ensures
            r == cv_spec(self.left@, self.right@),
    {
        let mut j: usize = 0;
        while j < self.right.len()
            invariant
                0 <= j <= self.right@.len(),
                forall|k: int| 0 <= k < j ==> !(self.right@[k] is Top),
            decreases self.right@.len() - j,
        {
            if matches!(&self.right[j], Formula::Top) {
                return true;
            }
            j += 1;
        }
        let mut i: usize = 0;
        while i < self.left.len()
            invariant
                0 <= i <= self.left@.len(),
                forall|k: int| 0 <= k < j ==> !(self.right@[k] is Top),
                j == self.right@.len(),
                forall|k: int| 0 <= k < i ==> !(self.left@[k] is Bottom),
                forall|k: int, m: int|
                    0 <= k < i && 0 <= m < self.right@.len() ==> !(self.left@[k] is Letter
                        && self.left@[k] == self.right@[m]),
            decreases self.left@.len() - i,
        {
            match &self.left[i] {
                Formula::Bottom => {
                    return true;
                },
                Formula::Letter(c) => {
                    let mut m: usize = 0;
                    while m < self.right.len()
                        invariant
                            0 <= m <= self.right@.len(),
                            self.left@[i as int] == Formula::Letter(*c),
                            forall|k: int|
                                0 <= k < m ==> !(self.left@[i as int]
                                    == self.right@[k]),
                        decreases self.right@.len() - m,
                    {
                        match &self.right[m] {
                            Formula::Letter(d) => {
                                if *c == *d {
                                    return true;
                                }
                            },
                            _ => {},
                        }
                        m += 1;
                    }
                },
                _ => {},
            }
            i += 1;
        }
        false
    }
}


impl Sequent {
    /// Removes the first `Top` on the left, if any.
    pub fn try_ltop(&mut self) -> (r: bool)
        ensures
            ({
                let l = old(self).left@;
                let i = first_of(l, FormulaType::Top);
                if i >= 0 {
                    r && final(self).left@ == l.remove(i) && final(self).right@ == old(
                        self,
                    ).right@
                } else {
                    !r && *final(self) == *old(self)
                }
            }),
    {
        let mut i: usize = 0;
        while i < self.left.len()
            invariant
                0 <= i <= self.left@.len(),
                *self == *old(self),
                forall|j: int|
                    0 <= j < i ==> spec_formula_type(self.left@[j]) != FormulaType::Top,
            decreases self.left@.len() - i,
        {
            if matches!(&self.left[i], Formula::Top) {
                proof {
                    lemma_first_of_at(self.left@, FormulaType::Top, i as int);
                }
                self.left.remove(i);
                return true;
            }
            i += 1;
        }
        proof {
            lemma_first_of(self.left@, FormulaType::Top);
        }
        false
    }

    /// Removes the first `Bottom` on the right, if any.
    pub fn try_rbot(&mut self) -> (r: bool)
        ensures
            ({
                let rr = old(self).right@;
                let i = first_of(rr, FormulaType::Bottom);
                if i >= 0 {
                    r && final(self).right@ == rr.remove(i) && final(self).left@ == old(
                        self,
                    ).left@
                } else {
                    !r && *final(self) == *old(self)
                }
            }),
    {
        let mut i: usize = 0;
        while i < self.right.len()
            invariant
                0 <= i <= self.right@.len(),
                *self == *old(self),
                forall|j: int|
                    0 <= j < i ==> spec_formula_type(self.right@[j]) != FormulaType::Bottom,
            decreases self.right@.len() - i,
        {
            if matches!(&self.right[i], Formula::Bottom) {
                proof {
                    lemma_first_of_at(self.right@, FormulaType::Bottom, i as int);
                }
                self.right.remove(i);
                return true;
            }
            i += 1;
        }
        proof {
            lemma_first_of(self.right@, FormulaType::Bottom);
        }
        false
    }

    /// Moves the first negation on the left to the right, unwrapped.
    pub fn try_lneg(&mut self) -> (r: bool)
        ensures
            ({
                let l = old(self).left@;
                let i = first_of(l, FormulaType::Negation);
                if i >= 0 {
                    r && final(self).left@ == l.remove(i) && final(self).right@ == old(
                        self,
                    ).right@.push(neg_inner(l[i]))
                } else {
                    !r && *final(self) == *old(self)
                }
            }),
    {
        let mut i: usize = 0;
        while i < self.left.len()
            invariant
                0 <= i <= self.left@.len(),
                *self == *old(self),
                forall|j: int|
                    0 <= j < i ==> spec_formula_type(self.left@[j]) != FormulaType::Negation,
            decreases self.left@.len() - i,
        {
            if matches!(&self.left[i], Formula::Negation(_)) {
                proof {
                    lemma_first_of_at(self.left@, FormulaType::Negation, i as int);
                }
                let n = self.left.remove(i);
                match n {
                    Formula::Negation(x) => {
                        self.right.push(*x);
                    },
                    _ => {
                        proof {
                            assert(false);
                        }
                    },
                }
                return true;
            }
            i += 1;
        }
        proof {
            lemma_first_of(self.left@, FormulaType::Negation);
        }
        false
    }

    /// Moves the first negation on the right to the left, unwrapped.
    pub fn try_rneg(&mut self) -> (r: bool)
        ensures
            ({
                let rr = old(self).right@;
                let i = first_of(rr, FormulaType::Negation);
                if i >= 0 {
                    r && final(self).right@ == rr.remove(i) && final(self).left@ == old(
                        self,
                    ).left@.push(neg_inner(rr[i]))
                } else {
                    !r && *final(self) == *old(self)
                }
            }),
    {
        let mut i: usize = 0;
        while i < self.right.len()
            invariant
                0 <= i <= self.right@.len(),
                *self == *old(self),
                forall|j: int|
                    0 <= j < i ==> spec_formula_type(self.right@[j]) != FormulaType::Negation,
            decreases self.right@.len() - i,
        {
            if matches!(&self.right[i], Formula::Negation(_)) {
                proof {
                    lemma_first_of_at(self.right@, FormulaType::Negation, i as int);
                }
                let n = self.right.remove(i);
                match n {
                    Formula::Negation(x) => {
                        self.left.push(*x);
                    },
                    _ => {
                        proof {
                            assert(false);
                        }
                    },
                }
                return true;
            }
            i += 1;
        }
        proof {
            lemma_first_of(self.right@, FormulaType::Negation);
        }
        false
    }

    /// Splits the first conjunction on the left into its conjuncts, in place.
    pub fn try_land(&mut self) -> (r: bool)
        ensures
            ({
                let l = old(self).left@;
                let i = first_of(l, FormulaType::Conjunction);
                if i >= 0 {
                    r && final(self).left@ == l.remove(i).insert(i, bin_lhs(l[i])).insert(
                        i + 1,
                        bin_rhs(l[i]),
                    ) && final(self).right@ == old(self).right@
                } else {
                    !r && *final(self) == *old(self)
                }
            }),
    {
        let mut i: usize = 0;
        while i < self.left.len()
            invariant
                0 <= i <= self.left@.len(),
                *self == *old(self),
                forall|j: int|
                    0 <= j < i ==> spec_formula_type(self.left@[j])
                        != FormulaType::Conjunction,
            decreases self.left@.len() - i,
        {
            if matches!(&self.left[i], Formula::Conjunction(_, _)) {
                proof {
                    lemma_first_of_at(self.left@, FormulaType::Conjunction, i as int);
                }
                let n = self.left.remove(i);
                match n {
                    Formula::Conjunction(x, y) => {
                        self.left.insert(i, *x);
                        self.left.insert(i + 1, *y);
                    },
                    _ => {
                        proof {
                            assert(false);
                        }
                    },
                }
                return true;
            }
            i += 1;
        }
        proof {
            lemma_first_of(self.left@, FormulaType::Conjunction);
        }
        false
    }

    /// Splits the first disjunction on the right into its disjuncts, in
    /// place.
    pub fn try_r_or(&mut self) -> (r: bool)
        ensures
            ({
                let rr = old(self).right@;
                let i = first_of(rr, FormulaType::Disjunction);
                if i >= 0 {
                    r && final(self).right@ == rr.remove(i).insert(i, bin_lhs(rr[i])).insert(
                        i + 1,
                        bin_rhs(rr[i]),
                    ) && final(self).left@ == old(self).left@
                } else {
                    !r && *final(self) == *old(self)
                }
            }),
    {
        let mut i: usize = 0;
        while i < self.right.len()
            invariant
                0 <= i <= self.right@.len(),
                *self == *old(self),
                forall|j: int|
                    0 <= j < i ==> spec_formula_type(self.right@[j])
                        != FormulaType::Disjunction,
            decreases self.right@.len() - i,
        {
            if matches!(&self.right[i], Formula::Disjunction(_, _)) {
                proof {
                    lemma_first_of_at(self.right@, FormulaType::Disjunction, i as int);
                }
                let n = self.right.remove(i);
                match n {
                    Formula::Disjunction(x, y) => {
                        self.right.insert(i, *x);
                        self.right.insert(i + 1, *y);
                    },
                    _ => {
                        proof {
                            assert(false);
                        }
                    },
                }
                return true;
            }
            i += 1;
        }
        proof {
            lemma_first_of(self.right@, FormulaType::Disjunction);
        }
        false
    }
}


impl Sequent {
    /// Branches on the first disjunction on the left: two sequents, one with
    /// each disjunct appended in place of the disjunction.
    pub fn try_l_or(&mut self) -> (r: Option<(Sequent, Sequent)>)
        ensures
            *final(self) == *old(self),
            ({
                let l = old(self).left@;
                let i = first_of(l, FormulaType::Disjunction);
                if i >= 0 {
                    r matches Some((a, b)) && a.left@ == l.remove(i).push(bin_lhs(l[i]))
                        && a.right@ == old(self).right@ && b.left@ == l.remove(i).push(
                        bin_rhs(l[i]),
                    ) && b.right@ == old(self).right@
                } else {
                    r is None
                }
            }),
    {
        let mut i: usize = 0;
        while i < self.left.len()
            invariant
                0 <= i <= self.left@.len(),
                *self == *old(self),
                forall|j: int|
                    0 <= j < i ==> spec_formula_type(self.left@[j])
                        != FormulaType::Disjunction,
            decreases self.left@.len() - i,
        {
            match &self.left[i] {
                Formula::Disjunction(x, y) => {
                    proof {
                        lemma_first_of_at(self.left@, FormulaType::Disjunction, i as int);
                    }
                    let xf = (**x).clone();
                    let yf = (**y).clone();
                    let mut la = clone_formulas(&self.left);
                    la.remove(i);
                    let mut lb = clone_formulas(&la);
                    la.push(xf);
                    lb.push(yf);
                    return Some(
                        (
                            Sequent::new(la, clone_formulas(&self.right)),
                            Sequent::new(lb, clone_formulas(&self.right)),
                        ),
                    );
                },
                _ => {},
            }
            i += 1;
        }
        proof {
            lemma_first_of(self.left@, FormulaType::Disjunction);
        }
        None
    }

    /// Branches on the first conjunction on the right: two sequents, one with
    /// each conjunct appended in place of the conjunction.
    pub fn try_rand(&mut self) -> (r: Option<(Sequent, Sequent)>)
        ensures
            *final(self) == *old(self),
            ({
                let rr = old(self).right@;
                let i = first_of(rr, FormulaType::Conjunction);
                if i >= 0 {
                    r matches Some((a, b)) && a.right@ == rr.remove(i).push(bin_lhs(rr[i]))
                        && a.left@ == old(self).left@ && b.right@ == rr.remove(i).push(
                        bin_rhs(rr[i]),
                    ) && b.left@ == old(self).left@
                } else {
                    r is None
                }
            }),
    {
        let mut i: usize = 0;
        while i < self.right.len()
            invariant
                0 <= i <= self.right@.len(),
                *self == *old(self),
                forall|j: int|
                    0 <= j < i ==> spec_formula_type(self.right@[j])
                        != FormulaType::Conjunction,
            decreases self.right@.len() - i,
        {
            match &self.right[i] {
                Formula::Conjunction(x, y) => {
                    proof {
                        lemma_first_of_at(self.right@, FormulaType::Conjunction, i as int);
                    }
                    let xf = (**x).clone();
                    let yf = (**y).clone();
                    let mut ra = clone_formulas(&self.right);
                    ra.remove(i);
                    let mut rb = clone_formulas(&ra);
                    ra.push(xf);
                    rb.push(yf);
                    return Some(
                        (
                            Sequent::new(clone_formulas(&self.left), ra),
                            Sequent::new(clone_formulas(&self.left), rb),
                        ),
                    );
                },
                _ => {},
            }
            i += 1;
        }
        proof {
            lemma_first_of(self.right@, FormulaType::Conjunction);
        }
        None
    }

    /// The modal rule: for every possibility on the left, a candidate
    /// successor world whose obligation pairs that formula's inner with the
    /// inners of all possibilities on the right.
    pub fn try_diam(&mut self) -> (r: Vec<Sequent>)
        ensures
            *final(self) == *old(self),
            r@.len() == diamond_inners(old(self).left@).len(),
            forall|k: int|
                0 <= k < r@.len() ==> (#[trigger] r@[k]).left@ == seq![
                    diamond_inners(old(self).left@)[k],
                ] && r@[k].right@ == diamond_inners(old(self).right@),
    {
        let mut rhs: Vec<Formula> = Vec::new();
        let mut j: usize = 0;
        while j < self.right.len()
            invariant
                0 <= j <= self.right@.len(),
                *self == *old(self),
                rhs@ == diamond_inners(self.right@.take(j as int)),
            decreases self.right@.len() - j,
        {
            proof {
                lemma_diamond_inners_take_step(self.right@, j as int);
            }
            match &self.right[j] {
                Formula::MDiamond(q) => {
                    rhs.push((**q).clone());
                },
                _ => {},
            }
            j += 1;
        }
        proof {
            assert(self.right@.take(self.right@.len() as int) =~= self.right@);
        }
        let mut r: Vec<Sequent> = Vec::new();
        let mut i: usize = 0;
        while i < self.left.len()
            invariant
                0 <= i <= self.left@.len(),
                *self == *old(self),
                rhs@ == diamond_inners(self.right@),
                r@.len() == diamond_inners(self.left@.take(i as int)).len(),
                forall|k: int|
                    0 <= k < r@.len() ==> (#[trigger] r@[k]).left@ == seq![
                        diamond_inners(self.left@.take(i as int))[k],
                    ] && r@[k].right@ == diamond_inners(self.right@),
            decreases self.left@.len() - i,
        {
            let ghost pre = r@;
            let ghost din = diamond_inners(self.left@.take(i as int));
            proof {
                lemma_diamond_inners_take_step(self.left@, i as int);
            }
            match &self.left[i] {
                Formula::MDiamond(inner) => {
                    let mut single: Vec<Formula> = Vec::new();
                    single.push((**inner).clone());
                    proof {
                        assert(single@ =~= seq![dia_inner(self.left@[i as int])]);
                    }
                    r.push(Sequent::new(single, clone_formulas(&rhs)));
                    proof {
                        let dn = diamond_inners(self.left@.take(i + 1));
                        assert(dn == din.push(dia_inner(self.left@[i as int])));
                        assert forall|k: int| 0 <= k < r@.len() implies (
                        #[trigger] r@[k]).left@ == seq![dn[k]] && r@[k].right@
                            == diamond_inners(self.right@) by {
                            if k < pre.len() {
                                assert(r@[k] == pre[k]);
                                assert(dn[k] == din[k]);
                            } else {
                                assert(dn[k] == dia_inner(self.left@[i as int]));
                            }
                        }
                    }
                },
                _ => {
                    proof {
                        assert(diamond_inners(self.left@.take(i + 1)) == din);
                        assert forall|k: int| 0 <= k < r@.len() implies (
                        #[trigger] r@[k]).left@ == seq![
                            diamond_inners(self.left@.take(i + 1))[k],
                        ] && r@[k].right@ == diamond_inners(self.right@) by {
                            assert(r@[k].left@ == seq![din[k]]);
                        }
                    }
                },
            }
            i += 1;
        }
        proof {
            assert(self.left@.take(self.left@.len() as int) =~= self.left@);
        }
        r
    }

    /// One rewrite of the engine, applied to an owned sequent: the first rule
    /// of the priority order that matches decides the outcome.
    pub fn step(self) -> (res: StepResult)
        ensures
            step_view(res) == step_spec(self.left@, self.right@),
    {
        let ghost l = self.left@;
        let ghost rr = self.right@;
        let mut m = self;
        if m.certainly_valid() {
            return StepResult::Valid(m.letters_on_left());
        }
        if m.try_ltop() {
            return StepResult::Indeterminate(Rule::LTop, m);
        }
        if m.try_rbot() {
            return StepResult::Indeterminate(Rule::RBot, m);
        }
        if m.try_lneg() {
            return StepResult::Indeterminate(Rule::LNeg, m);
        }
        if m.try_rneg() {
            return StepResult::Indeterminate(Rule::RNeg, m);
        }
        if m.try_land() {
            return StepResult::Indeterminate(Rule::LAnd, m);
        }
        if m.try_r_or() {
            return StepResult::Indeterminate(Rule::ROr, m);
        }
        if let Some((a, b)) = m.try_l_or() {
            return StepResult::ValidIfBoth(Rule::LOr, a, b, m.letters_on_left());
        }
        if let Some((a, b)) = m.try_rand() {
            return StepResult::ValidIfBoth(Rule::RAnd, a, b, m.letters_on_left());
        }
        let diam = m.try_diam();
        if diam.len() > 0 {
            let r = StepResult::ValidIfAny(Rule::Diam, diam, m.letters_on_left());
            proof {
                let want = diamond_inners(l).map_values(
                    |f: Formula| (seq![f], diamond_inners(rr)),
                );
                assert(step_view(r)->ValidIfAny_1 =~= want);
                assert(step_view(r) =~= step_spec(l, rr));
            }
            return r;
        }
        StepResult::Invalid(m.letters_on_left())
    }
}


/// Total node count of a sequence of formulas: the termination measure of
/// the engine, together with `fsize`.
pub open spec fn ssize(s: Seq<Formula>) -> nat
    decreases s.len(),
{
    if s.len() == 0 {
        0
    } else {
        ssize(s.drop_last()) + fsize(s.last())
    }
}

/// Node count of both sides of a proof obligation.
pub open spec fn pair_size(l: Seq<Formula>, r: Seq<Formula>) -> nat {
    ssize(l) + ssize(r)
}

/// Node counts add over concatenation.
pub proof fn lemma_ssize_concat(a: Seq<Formula>, b: Seq<Formula>)
    ensures
        ssize(a + b) == ssize(a) + ssize(b),
    decreases b.len(),
{
    if b.len() == 0 {
        assert(a + b =~= a);
    } else {
        lemma_ssize_concat(a, b.drop_last());
        assert((a + b).drop_last() =~= a + b.drop_last());
        assert((a + b).last() == b.last());
    }
}

/// The node count of a single formula as a one-element sequence.
pub proof fn lemma_ssize_singleton(f: Formula)
    ensures
        ssize(seq![f]) == fsize(f),
{
    assert(ssize(Seq::<Formula>::empty()) == 0);
    assert(seq![f].drop_last() =~= Seq::<Formula>::empty());
    assert(seq![f].last() == f);
}

/// Appending a formula adds its node count.
pub proof fn lemma_ssize_push(s: Seq<Formula>, f: Formula)
    ensures
        ssize(s.push(f)) == ssize(s) + fsize(f),
{
    assert(s.push(f).drop_last() =~= s);
    assert(s.push(f).last() == f);
}

/// Removing the formula at an index subtracts its node count.
pub proof fn lemma_ssize_remove(s: Seq<Formula>, i: int)
    requires
        0 <= i < s.len(),
    ensures
        ssize(s.remove(i)) + fsize(s[i]) == ssize(s),
{
    let a = s.take(i);
    let b = s.skip(i + 1);
    assert(s =~= a + seq![s[i]] + b);
    assert(s.remove(i) =~= a + b);
    lemma_ssize_concat(a + seq![s[i]], b);
    lemma_ssize_concat(a, seq![s[i]]);
    lemma_ssize_concat(a, b);
    lemma_ssize_singleton(s[i]);
}

/// Inserting a formula at an index adds its node count.
pub proof fn lemma_ssize_insert(s: Seq<Formula>, i: int, f: Formula)
    requires
        0 <= i <= s.len(),
    ensures
        ssize(s.insert(i, f)) == ssize(s) + fsize(f),
{
    let a = s.take(i);
    let b = s.skip(i);
    assert(s =~= a + b);
    assert(s.insert(i, f) =~= a + seq![f] + b);
    lemma_ssize_concat(a + seq![f], b);
    lemma_ssize_concat(a, seq![f]);
    lemma_ssize_concat(a, b);
    lemma_ssize_singleton(f);
}

/// Every formula has at least one node.
pub proof fn lemma_fsize_pos(f: Formula)
    ensures
        fsize(f) >= 1,
{
}

/// The diamond inners of a sequence weigh no more than the sequence.
pub proof fn lemma_diamond_inners_size(s: Seq<Formula>)
    ensures
        ssize(diamond_inners(s)) <= ssize(s),
    decreases s.len(),
{
    if s.len() > 0 {
        lemma_diamond_inners_size(s.drop_last());
        if s.last() is MDiamond {
            lemma_ssize_concat(diamond_inners(s.drop_last()), seq![dia_inner(s.last())]);
            lemma_ssize_singleton(dia_inner(s.last()));
        } else {
            assert(diamond_inners(s) =~= diamond_inners(s.drop_last()));
        }
    }
}

/// Each diamond inner weighs strictly less than the whole sequence it came
/// from.
pub proof fn lemma_diamond_inners_elem(s: Seq<Formula>, k: int)
    requires
        0 <= k < diamond_inners(s).len(),
    ensures
        fsize(diamond_inners(s)[k]) < ssize(s),
    decreases s.len(),
{
    let d = diamond_inners(s);
    let dd = diamond_inners(s.drop_last());
    if s.last() is MDiamond {
        if k < dd.len() {
            lemma_diamond_inners_elem(s.drop_last(), k);
            assert(d[k] == dd[k]);
            lemma_fsize_pos(s.last());
        } else {
            assert(d[k] == dia_inner(s.last()));
            assert(fsize(s.last()) == 1 + fsize(dia_inner(s.last())));
        }
    } else {
        assert(d =~= dd);
        lemma_diamond_inners_elem(s.drop_last(), k);
        lemma_fsize_pos(s.last());
    }
}

/// Every rule of the engine strictly shrinks the total node count: the
/// successor of an indeterminate step, both conjunctive branches, and every
/// modal branch weigh less than the sequent they came from.
pub proof fn lemma_step_size(l: Seq<Formula>, r: Seq<Formula>)
    ensures
        ({
            match step_spec(l, r) {
                StepModel::Indeterminate(_, l2, r2) => pair_size(l2, r2) < pair_size(l, r),
                StepModel::ValidIfBoth(_, a, b, _) => pair_size(a.0, a.1) < pair_size(l, r)
                    && pair_size(b.0, b.1) < pair_size(l, r),
                StepModel::ValidIfAny(_, bs, _) => forall|k: int|
                    0 <= k < bs.len() ==> pair_size(bs[k].0, bs[k].1) < pair_size(l, r),
                _ => true,
            }
        }),
{
    if cv_spec(l, r) {
    } else if first_of(l, FormulaType::Top) >= 0 {
        let i = first_of(l, FormulaType::Top);
        lemma_first_of(l, FormulaType::Top);
        lemma_ssize_remove(l, i);
    } else if first_of(r, FormulaType::Bottom) >= 0 {
        let i = first_of(r, FormulaType::Bottom);
        lemma_first_of(r, FormulaType::Bottom);
        lemma_ssize_remove(r, i);
    } else if first_of(l, FormulaType::Negation) >= 0 {
        let i = first_of(l, FormulaType::Negation);
        lemma_first_of(l, FormulaType::Negation);
        lemma_ssize_remove(l, i);
        lemma_ssize_push(r, neg_inner(l[i]));
        assert(fsize(l[i]) == 1 + fsize(neg_inner(l[i])));
    } else if first_of(r, FormulaType::Negation) >= 0 {
        let i = first_of(r, FormulaType::Negation);
        lemma_first_of(r, FormulaType::Negation);
        lemma_ssize_remove(r, i);
        lemma_ssize_push(l, neg_inner(r[i]));
        assert(fsize(r[i]) == 1 + fsize(neg_inner(r[i])));
    } else if first_of(l, FormulaType::Conjunction) >= 0 {
        let i = first_of(l, FormulaType::Conjunction);
        lemma_first_of(l, FormulaType::Conjunction);
        lemma_ssize_remove(l, i);
        lemma_ssize_insert(l.remove(i), i, bin_lhs(l[i]));
        lemma_ssize_insert(l.remove(i).insert(i, bin_lhs(l[i])), i + 1, bin_rhs(l[i]));
        assert(fsize(l[i]) == 1 + fsize(bin_lhs(l[i])) + fsize(bin_rhs(l[i])));
    } else if first_of(r, FormulaType::Disjunction) >= 0 {
        let i = first_of(r, FormulaType::Disjunction);
        lemma_first_of(r, FormulaType::Disjunction);
        lemma_ssize_remove(r, i);
        lemma_ssize_insert(r.remove(i), i, bin_lhs(r[i]));
        lemma_ssize_insert(r.remove(i).insert(i, bin_lhs(r[i])), i + 1, bin_rhs(r[i]));
        assert(fsize(r[i]) == 1 + fsize(bin_lhs(r[i])) + fsize(bin_rhs(r[i])));
    } else if first_of(l, FormulaType::Disjunction) >= 0 {
        let i = first_of(l, FormulaType::Disjunction);
        lemma_first_of(l, FormulaType::Disjunction);
        lemma_ssize_remove(l, i);
        lemma_ssize_push(l.remove(i), bin_lhs(l[i]));
        lemma_ssize_push(l.remove(i), bin_rhs(l[i]));
        lemma_fsize_pos(bin_lhs(l[i]));
        lemma_fsize_pos(bin_rhs(l[i]));
        assert(fsize(l[i]) == 1 + fsize(bin_lhs(l[i])) + fsize(bin_rhs(l[i])));
    } else if first_of(r, FormulaType::Conjunction) >= 0 {
        let i = first_of(r, FormulaType::Conjunction);
        lemma_first_of(r, FormulaType::Conjunction);
        lemma_ssize_remove(r, i);
        lemma_ssize_push(r.remove(i), bin_lhs(r[i]));
        lemma_ssize_push(r.remove(i), bin_rhs(r[i]));
        lemma_fsize_pos(bin_lhs(r[i]));
        lemma_fsize_pos(bin_rhs(r[i]));
        assert(fsize(r[i]) == 1 + fsize(bin_lhs(r[i])) + fsize(bin_rhs(r[i])));
    } else if diamond_inners(l).len() > 0 {
        let bs = diamond_inners(l).map_values(|f: Formula| (seq![f], diamond_inners(r)));
        assert forall|k: int| 0 <= k < bs.len() implies pair_size(bs[k].0, bs[k].1)
            < pair_size(l, r) by {
            lemma_diamond_inners_elem(l, k);
            lemma_ssize_singleton(diamond_inners(l)[k]);
            lemma_diamond_inners_size(r);
            assert(bs[k].0 == seq![diamond_inners(l)[k]]);
            assert(bs[k].1 == diamond_inners(r));
        }
    } else {
    }
}

} // verus!
