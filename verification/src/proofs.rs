//! The proof-tree builder.
//!
//! `Proof::new` drives the sequent engine until the obligation resolves,
//! recursing into branches, and keeps a structured trace line for every move
//! of the engine.  A conjunctive branching is valid when both children are; a
//! disjunctive (modal) branching is valid when at least one child is.  The whole construction is pinned by the predicate
//! `matches_build`, which determines every field of the resulting tree from
//! the input sequent alone.

use vstd::prelude::*;

use crate::atoms::AtomSet;
use crate::formulae::Formula;
use crate::sequents::Rule;
use crate::sequents::Sequent;
use crate::sequents::StepModel;
use crate::sequents::StepResult;
use crate::sequents::lemma_step_size;
use crate::sequents::pair_size;
use crate::sequents::seq_pair;
use crate::sequents::step_spec;

verus! {

/// One structured line of a proof trace.  A renderer turns these into the
/// indented textual transcript.
#[derive(Debug, PartialEq)]
pub enum TraceLine {
    /// The obligation this node set out to decide.
    Goal(Sequent),
    /// A rewrite rule turned the obligation into this successor.
    Step(Rule, Sequent),
    /// The node resolved, as valid or as invalid.
    Verdict(bool),
    /// A branching rule was applied and the children's verdicts were
    /// combined into this one.
    Branch(Rule, bool),
}

/// How a proof node was resolved.
#[derive(Debug)]
pub enum ProofResult {
    /// The sequent was an axiom.
    Valid,
    /// No rule applied and the sequent was not an axiom.
    Invalid,
    /// Modal branching: the node is valid when some child is.
    AnyValid(Vec<Proof>),
    /// Conjunctive branching: the node is valid when both children are.
    BothValid(Box<Proof>, Box<Proof>),
}

/// A finished derivation for one proof obligation: its trace, how it was
/// resolved, the letters true on its left at resolution time, and its
/// aggregated verdict.  Built bottom-up once and never mutated.
#[derive(Debug)]
pub struct Proof {
    pub steps: Vec<TraceLine>,
    pub proof_result: ProofResult,
    pub true_here: AtomSet,
    pub valid: bool,
}

/// The trace line announces the obligation `l ⇒ r`.
pub open spec fn line_is_goal(t: TraceLine, l: Seq<Formula>, r: Seq<Formula>) -> bool {
    t matches TraceLine::Goal(s) && s.left@ == l && s.right@ == r
}

/// The trace line records `rule` rewriting the obligation into `l ⇒ r`.
pub open spec fn line_is_step(t: TraceLine, rule: Rule, l: Seq<Formula>, r: Seq<Formula>) -> bool {
    t matches TraceLine::Step(ru, s) && ru == rule && s.left@ == l && s.right@ == r
}

/// Every disjunctive node of the tree has at least one child.
pub open spec fn proof_wf(p: Proof) -> bool
    decreases p,
{
    match p.proof_result {
        ProofResult::Valid => true,
        ProofResult::Invalid => true,
        ProofResult::AnyValid(cs) => cs@.len() >= 1 && (forall|i: int|
            0 <= i < cs@.len() ==> proof_wf(#[trigger] cs@[i])),
        ProofResult::BothValid(a, b) => proof_wf(*a) && proof_wf(*b),
    }
}

/// The proof node `p` describes the run of the engine on `l ⇒ r`, with its
/// trace starting at line `k`: the trace replays every indeterminate rewrite
/// and ends in the node's resolution, the children describe the branch
/// obligations, the verdict aggregates theirs, and `true_here` holds the
/// letters of the left side at resolution time.
pub open spec fn matches_from(p: Proof, l: Seq<Formula>, r: Seq<Formula>, k: int) -> bool
    decreases p, pair_size(l, r), 0nat,
{
    match step_spec(l, r) {
        StepModel::Indeterminate(rule, l2, r2) => {
            proof {
                lemma_step_size(l, r);
            }
            &&& 0 <= k < p.steps@.len()
            &&& line_is_step(p.steps@[k], rule, l2, r2)
            &&& matches_from(p, l2, r2, k + 1)
        },
        StepModel::Valid(at) => {
            &&& 0 <= k
            &&& p.steps@.len() == k + 1
            &&& p.steps@[k] == TraceLine::Verdict(true)
            &&& p.proof_result is Valid
            &&& p.valid == true
            &&& p.true_here@ == at
        },
        StepModel::Invalid(at) => {
            &&& 0 <= k
            &&& p.steps@.len() == k + 1
            &&& p.steps@[k] == TraceLine::Verdict(false)
            &&& p.proof_result is Invalid
            &&& p.valid == false
            &&& p.true_here@ == at
        },
        StepModel::ValidIfAny(rule, bs, at) => {
            proof {
                lemma_step_size(l, r);
            }
            &&& 0 <= k
            &&& p.steps@.len() == k + 1
            &&& p.steps@[k] == TraceLine::Branch(rule, p.valid)
            &&& p.proof_result matches ProofResult::AnyValid(cs)
            &&& cs@.len() == bs.len()
            &&& (forall|i: int|
                0 <= i < bs.len() ==> matches_build(#[trigger] cs@[i], bs[i].0, bs[i].1))
            &&& p.valid == (exists|i: int| 0 <= i < cs@.len() && cs@[i].valid)
            &&& p.true_here@ == at
        },
        StepModel::ValidIfBoth(rule, a, b, at) => {
            proof {
                lemma_step_size(l, r);
            }
            &&& 0 <= k
            &&& p.steps@.len() == k + 1
            &&& p.steps@[k] == TraceLine::Branch(rule, p.valid)
            &&& p.proof_result matches ProofResult::BothValid(pa, pb)
            &&& matches_build(*pa, a.0, a.1)
            &&& matches_build(*pb, b.0, b.1)
            &&& p.valid == (pa.valid && pb.valid)
            &&& p.true_here@ == at
        },
    }
}

/// The proof node `p` is the derivation that `Proof::new` builds for the
/// obligation `l ⇒ r`: its trace opens by announcing the obligation and the
/// rest of the node is determined by `matches_from`.
pub open spec fn matches_build(p: Proof, l: Seq<Formula>, r: Seq<Formula>) -> bool
    decreases p, pair_size(l, r), 1nat,
{
    &&& p.steps@.len() >= 1
    &&& line_is_goal(p.steps@[0], l, r)
    &&& matches_from(p, l, r, 1)
}


impl Proof {
    /// How this node was resolved.
    pub fn proof_result(&self) -> (r: &ProofResult)
        ensures
            r == &self.proof_result,
    {
        &self.proof_result
    }

    /// The letters true on the left side when the node resolved.
    pub fn true_here(&self) -> (r: &AtomSet)
        ensures
            r == &self.true_here,
    {
        &self.true_here
    }

    /// The node's aggregated verdict.
    pub fn valid(&self) -> (r: bool)
        ensures
            r == self.valid,
    {
        self.valid
    }

    /// Builds the full derivation for a proof obligation by driving the
    /// engine to a verdict and recursing into branches.  The result is the
    /// unique tree that `matches_build` relates to the obligation.
    pub fn new(m: Sequent) -> (p: Proof)
        ensures
            matches_build(p, m.left@, m.right@),
            proof_wf(p),
        decreases pair_size(m.left@, m.right@), 1nat,
    {
        let mut steps: Vec<TraceLine> = Vec::new();
        steps.push(TraceLine::Goal(m.clone()));
        let ghost goal_line = steps@[0];
        let p = build_from(steps, m);
        proof {
            assert(p.steps@.subrange(0, 1)[0] == p.steps@[0]);
            assert(p.steps@[0] == goal_line);
        }
        p
    }
}

/// Continues a derivation whose trace so far is `steps`: rewrites `m` until
/// it resolves, extending the trace by one line per move, and keeps the given
/// prefix untouched.
fn build_from(steps: Vec<TraceLine>, m: Sequent) -> (p: Proof)
    ensures
        p.steps@.len() > steps@.len(),
        p.steps@.subrange(0, steps@.len() as int) == steps@,
        matches_from(p, m.left@, m.right@, steps@.len() as int),
        proof_wf(p),
    decreases pair_size(m.left@, m.right@), 0nat,
{
    let ghost l = m.left@;
    let ghost r = m.right@;
    let ghost k = steps@.len() as int;
    proof {
        lemma_step_size(l, r);
    }
    match m.step() {
        StepResult::Indeterminate(rule, next) => {
            let ghost l2 = next.left@;
            let ghost r2 = next.right@;
            let mut steps2 = steps;
            steps2.push(TraceLine::Step(rule, next.clone()));
            let ghost step_line = steps2@[k];
            let p = build_from(steps2, next);
            proof {
                assert forall|j: int| 0 <= j < k + 1 implies p.steps@[j] == steps2@[j] by {
                    assert(p.steps@.subrange(0, k + 1)[j] == p.steps@[j]);
                }
                assert(p.steps@.subrange(0, k) =~= steps@);
                assert(p.steps@[k] == step_line);
                assert(line_is_step(p.steps@[k], rule, l2, r2));
            }
            p
        },
        StepResult::Valid(atoms) => {
            let mut steps2 = steps;
            steps2.push(TraceLine::Verdict(true));
            let p = Proof {
                steps: steps2,
                proof_result: ProofResult::Valid,
                true_here: atoms,
                valid: true,
            };
            proof {
                assert(p.steps@.subrange(0, k) =~= steps@);
            }
            p
        },
        StepResult::Invalid(atoms) => {
            let mut steps2 = steps;
            steps2.push(TraceLine::Verdict(false));
            let p = Proof {
                steps: steps2,
                proof_result: ProofResult::Invalid,
                true_here: atoms,
                valid: false,
            };
            proof {
                assert(p.steps@.subrange(0, k) =~= steps@);
            }
            p
        },
        StepResult::ValidIfBoth(rule, a, b, atoms) => {
            let ghost am = step_spec(l, r)->ValidIfBoth_1;
            let ghost bm = step_spec(l, r)->ValidIfBoth_2;
            let pa = Proof::new(a);
            let pb = Proof::new(b);
            let valid = pa.valid && pb.valid;
            let mut steps2 = steps;
            steps2.push(TraceLine::Branch(rule, valid));
            let p = Proof {
                steps: steps2,
                proof_result: ProofResult::BothValid(Box::new(pa), Box::new(pb)),
                true_here: atoms,
                valid,
            };
            proof {
                assert(p.steps@.subrange(0, k) =~= steps@);
                assert(matches_build(pa, am.0, am.1));
                assert(matches_build(pb, bm.0, bm.1));
            }
            p
        },
        StepResult::ValidIfAny(rule, branches, atoms) => {
            let ghost bs = step_spec(l, r)->ValidIfAny_1;
            proof {
                assert(branches@.map_values(|s: Sequent| seq_pair(s)) == bs);
            }
            let mut children: Vec<Proof> = Vec::new();
            let mut any = false;
            let mut i: usize = 0;
            while i < branches.len()
                invariant
                    0 <= i <= branches@.len(),
                    children@.len() == i,
                    forall|j: int|
                        0 <= j < i ==> matches_build(#[trigger] children@[j], bs[j].0, bs[j].1)
                            && proof_wf(children@[j]),
                    any == (exists|j: int| 0 <= j < i && children@[j].valid),
                decreases branches@.len() - i,
            {
                proof {
                    assert(seq_pair(branches@[i as int]) == bs[i as int]);
                }
                let child = Proof::new(branches[i].clone());
                let child_valid = child.valid();
                let ghost pre = children@;
                let ghost pre_any = any;
                children.push(child);
                any = any || child_valid;
                proof {
                    assert(forall|j: int| 0 <= j < i ==> children@[j] == pre[j]);
                    assert(children@[i as int] == child);
                    if pre_any {
                        let w = choose|j: int| 0 <= j < i && pre[j].valid;
                        assert(children@[w].valid);
                    }
                    if !any {
                        assert forall|j: int| 0 <= j < i + 1 implies !children@[j].valid by {
                            if j < i {
                                assert(children@[j] == pre[j]);
                            }
                        }
                    }
                }
                i += 1;
            }
            let mut steps2 = steps;
            steps2.push(TraceLine::Branch(rule, any));
            let p = Proof {
                steps: steps2,
                proof_result: ProofResult::AnyValid(children),
                true_here: atoms,
                valid: any,
            };
            proof {
                assert(p.steps@.subrange(0, k) =~= steps@);
            }
            p
        },
    }
}


/// The smaller of two depths.
pub open spec fn min2(a: nat, b: nat) -> nat {
    if a <= b {
        a
    } else {
        b
    }
}

/// Successor of a depth, capped at the machine word; no proof a machine can
/// hold comes near the cap.
pub open spec fn sat_inc(n: nat) -> nat {
    if n >= usize::MAX as nat {
        usize::MAX as nat
    } else {
        n + 1
    }
}

/// The shallowest depth among a sequence of proofs; an empty sequence counts
/// as having no path at all.
pub open spec fn seq_min_depth(cs: Seq<Proof>) -> nat
    decreases cs, 1nat,
{
    if cs.len() == 0 {
        usize::MAX as nat
    } else {
        min2(seq_min_depth(cs.drop_last()), min_depth_spec(cs.last()))
    }
}

/// Length of a shallowest chain of branchings below a proof node: leaves have
/// depth zero and a branching adds one above the shallowest child.
pub open spec fn min_depth_spec(p: Proof) -> nat
    decreases p, 0nat,
{
    match p.proof_result {
        ProofResult::Valid => 0,
        ProofResult::Invalid => 0,
        ProofResult::AnyValid(cs) => sat_inc(seq_min_depth(cs@)),
        ProofResult::BothValid(a, b) => sat_inc(min2(min_depth_spec(*a), min_depth_spec(*b))),
    }
}

impl Proof {
    /// Length of a shallowest chain of branchings below this node; the
    /// counter-model synthesizer prefers shallow witnesses.
    pub fn min_depth(&self) -> (r: usize)
        ensures
            r == min_depth_spec(*self),
        decreases self,
    {
        match &self.proof_result {
            ProofResult::Valid => 0,
            ProofResult::Invalid => 0,
            ProofResult::BothValid(a, b) => {
                let da = a.min_depth();
                let db = b.min_depth();
                let m = if da <= db {
                    da
                } else {
                    db
                };
                if m == usize::MAX {
                    m
                } else {
                    m + 1
                }
            },
            ProofResult::AnyValid(cs) => {
                let mut best: usize = usize::MAX;
                let mut i: usize = 0;
                while i < cs.len()
                    invariant
                        0 <= i <= cs@.len(),
                        best == seq_min_depth(cs@.take(i as int)),
                    decreases cs@.len() - i,
                {
                    let d = cs[i].min_depth();
                    if d < best {
                        best = d;
                    }
                    proof {
                        assert(cs@.take(i + 1).drop_last() =~= cs@.take(i as int));
                        assert(cs@.take(i + 1).last() == cs@[i as int]);
                    }
                    i += 1;
                }
                proof {
                    assert(cs@.take(cs@.len() as int) =~= cs@);
                }
                if best == usize::MAX {
                    best
                } else {
                    best + 1
                }
            },
        }
    }
}

/// Two trace lines carry the same information: the same constructor, the
/// same rule or verdict, and the same two sides of any sequent.
pub open spec fn line_like(a: TraceLine, b: TraceLine) -> bool {
    match (a, b) {
        (TraceLine::Goal(s1), TraceLine::Goal(s2)) => s1.left@ == s2.left@ && s1.right@
            == s2.right@,
        (TraceLine::Step(r1, s1), TraceLine::Step(r2, s2)) => r1 == r2 && s1.left@ == s2.left@
            && s1.right@ == s2.right@,
        (TraceLine::Verdict(v1), TraceLine::Verdict(v2)) => v1 == v2,
        (TraceLine::Branch(r1, v1), TraceLine::Branch(r2, v2)) => r1 == r2 && v1 == v2,
        _ => false,
    }
}

/// The two proofs were resolved the same way, with pairwise identical
/// children.
pub open spec fn result_like(a: Proof, b: Proof) -> bool
    decreases a, 0nat,
{
    match (a.proof_result, b.proof_result) {
        (ProofResult::Valid, ProofResult::Valid) => true,
        (ProofResult::Invalid, ProofResult::Invalid) => true,
        (ProofResult::AnyValid(cs1), ProofResult::AnyValid(cs2)) => cs1@.len() == cs2@.len()
            && (forall|i: int|
            0 <= i < cs1@.len() ==> proof_like(#[trigger] cs1@[i], cs2@[i])),
        (ProofResult::BothValid(a1, b1), ProofResult::BothValid(a2, b2)) => proof_like(*a1, *a2)
            && proof_like(*b1, *b2),
        _ => false,
    }
}

/// The two proofs are observably identical: same traces, same verdicts, same
/// atom sets, and the same tree of resolutions.
pub open spec fn proof_like(a: Proof, b: Proof) -> bool
    decreases a, 1nat,
{
    &&& a.steps@.len() == b.steps@.len()
    &&& (forall|j: int| 0 <= j < a.steps@.len() ==> line_like(#[trigger] a.steps@[j], b.steps@[j]))
    &&& a.valid == b.valid
    &&& a.true_here@ == b.true_here@
    &&& result_like(a, b)
}

/// Two derivations of the same obligation agree from trace position `k`
/// onward and in everything else.
proof fn lemma_from_deterministic(p1: Proof, p2: Proof, l: Seq<Formula>, r: Seq<Formula>, k: int)
    requires
        matches_from(p1, l, r, k),
        matches_from(p2, l, r, k),
    ensures
        p1.steps@.len() == p2.steps@.len(),
        forall|j: int|
            k <= j < p1.steps@.len() ==> line_like(#[trigger] p1.steps@[j], p2.steps@[j]),
        p1.valid == p2.valid,
        p1.true_here@ == p2.true_here@,
        result_like(p1, p2),
    decreases p1, pair_size(l, r), 0nat,
{
    lemma_step_size(l, r);
    match step_spec(l, r) {
        StepModel::Indeterminate(rule, l2, r2) => {
            lemma_from_deterministic(p1, p2, l2, r2, k + 1);
        },
        StepModel::Valid(at) => {},
        StepModel::Invalid(at) => {},
        StepModel::ValidIfAny(rule, bs, at) => {
            let cs1 = p1.proof_result->AnyValid_0;
            let cs2 = p2.proof_result->AnyValid_0;
            assert forall|i: int| 0 <= i < cs1@.len() implies proof_like(
                #[trigger] cs1@[i],
                cs2@[i],
            ) by {
                assert(matches_build(cs1@[i], bs[i].0, bs[i].1));
                assert(matches_build(cs2@[i], bs[i].0, bs[i].1));
                lemma_build_deterministic(cs1@[i], cs2@[i], bs[i].0, bs[i].1);
            }
            if p1.valid {
                let w = choose|i: int| 0 <= i < cs1@.len() && cs1@[i].valid;
                assert(cs2@[w].valid);
            }
            if p2.valid {
                let w = choose|i: int| 0 <= i < cs2@.len() && cs2@[i].valid;
                assert(cs1@[w].valid);
            }
        },
        StepModel::ValidIfBoth(rule, a, b, at) => {
            let pa1 = p1.proof_result->BothValid_0;
            let pb1 = p1.proof_result->BothValid_1;
            let pa2 = p2.proof_result->BothValid_0;
            let pb2 = p2.proof_result->BothValid_1;
            lemma_build_deterministic(*pa1, *pa2, a.0, a.1);
            lemma_build_deterministic(*pb1, *pb2, b.0, b.1);
        },
    }
}

/// Determinism of the builder: any two proof trees built from the same
/// obligation are observably identical, line for line and verdict for
/// verdict.
pub proof fn lemma_build_deterministic(
    p1: Proof,
    p2: Proof,
    l: Seq<Formula>,
    r: Seq<Formula>,
)
    requires
        matches_build(p1, l, r),
        matches_build(p2, l, r),
    ensures
        proof_like(p1, p2),
    decreases p1, pair_size(l, r), 1nat,
{
    lemma_from_deterministic(p1, p2, l, r, 1);
    assert forall|j: int| 0 <= j < p1.steps@.len() implies line_like(
        #[trigger] p1.steps@[j],
        p2.steps@[j],
    ) by {
        if j == 0 {
            assert(line_is_goal(p1.steps@[0], l, r));
            assert(line_is_goal(p2.steps@[0], l, r));
        }
    }
}


/// Each rewrite recorded from trace position `k` on consumes at least one
/// node of the obligation, so the trace cannot outgrow the node count.
proof fn lemma_trace_bounded_from(p: Proof, l: Seq<Formula>, r: Seq<Formula>, k: int)
    requires
        matches_from(p, l, r, k),
    ensures
        p.steps@.len() <= k + 1 + pair_size(l, r),
    decreases p, pair_size(l, r), 0nat,
{
    lemma_step_size(l, r);
    match step_spec(l, r) {
        StepModel::Indeterminate(rule, l2, r2) => {
            lemma_trace_bounded_from(p, l2, r2, k + 1);
        },
        _ => {},
    }
}

/// Termination, quantitatively: the engine reaches this node's resolution
/// within as many rewrites as the obligation has formula nodes, so a node's
/// trace holds at most the node count plus its opening line and its closing
/// line.
pub proof fn lemma_trace_bounded(p: Proof, l: Seq<Formula>, r: Seq<Formula>)
    requires
        matches_build(p, l, r),
    ensures
        p.steps@.len() <= 2 + pair_size(l, r),
{
    lemma_trace_bounded_from(p, l, r, 1);
}

} // verus!
