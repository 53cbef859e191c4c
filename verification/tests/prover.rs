//! Tests of the proof-tree builder and the counter-model synthesizer.

use modal_k::countermodel::build_counter_model;
use modal_k::formulae::Formula;
use modal_k::models::Model;
use modal_k::models::ModelBuilder;
use modal_k::proofs::Proof;
use modal_k::proofs::ProofResult;
use modal_k::proofs::TraceLine;
use modal_k::sequents::Rule;
use modal_k::sequents::Sequent;

fn letter(c: char) -> Formula {
    Formula::Letter(c)
}

fn neg(f: Formula) -> Formula {
    Formula::Negation(Box::new(f))
}

fn conj(a: Formula, b: Formula) -> Formula {
    Formula::Conjunction(Box::new(a), Box::new(b))
}

fn disj(a: Formula, b: Formula) -> Formula {
    Formula::Disjunction(Box::new(a), Box::new(b))
}

fn dia(f: Formula) -> Formula {
    Formula::MDiamond(Box::new(f))
}

/// Runs the counter-model synthesizer on a failed proof, as the front end
/// does: world 1 is the root and fresh worlds are numbered from 2.
fn counter_model(p: &Proof) -> Model {
    let mut builder = ModelBuilder::new();
    let mut next_avail_world = 2;
    build_counter_model(1, p, &mut next_avail_world, &mut builder);
    builder.finalize()
}

#[test]
fn axiom_resolves_in_one_step() {
    let p = Proof::new(Sequent::new(
        vec![letter('p'), conj(letter('q'), letter('r'))],
        vec![letter('p'), letter('s')],
    ));
    assert!(p.valid());
    assert!(matches!(p.proof_result(), ProofResult::Valid));
    assert!(p.true_here().contains('p'));
    assert!(!p.true_here().contains('q'));
    assert_eq!(p.true_here().len(), 1);
    assert_eq!(p.min_depth(), 0);
    // The trace announces the goal and resolves at once: no rewrite lines.
    assert_eq!(p.steps.len(), 2);
    assert!(matches!(p.steps[1], TraceLine::Verdict(true)));
}

#[test]
fn top_on_left_is_dropped_then_invalid() {
    let p = Proof::new(Sequent::new(vec![Formula::Top], vec![letter('p')]));
    assert!(!p.valid());
    assert!(matches!(p.proof_result(), ProofResult::Invalid));
    assert_eq!(p.steps.len(), 3);
    assert!(matches!(&p.steps[1], TraceLine::Step(Rule::LTop, _)));
    assert!(matches!(p.steps[2], TraceLine::Verdict(false)));
    let m = counter_model(&p);
    assert_eq!(m.num_worlds, 1);
    assert!(m.accessibility_function.is_empty());
    assert!(!m.is_true_in('p', 1));
}

#[test]
fn conjunctive_branching_requires_both_branches() {
    // ¬(¬p∧¬q) ∨ (r∨p) ∨ ¬(q∨s) is falsified by making s true and p, q, r
    // false, and the engine finds exactly that: branching on the disjunctive
    // hypothesis q∨s leaves the branch `s ⇒ r, p, p, q` with no applicable
    // rule, so one branch fails and the obligation is invalid.
    let p = Proof::new(Sequent::new(
        vec![],
        vec![
            neg(conj(neg(letter('p')), neg(letter('q')))),
            disj(letter('r'), letter('p')),
            neg(disj(letter('q'), letter('s'))),
        ],
    ));
    assert!(!p.valid());
    let m = counter_model(&p);
    assert_eq!(m.num_worlds, 1);
    assert!(m.is_true_in('s', 1));
    assert!(!m.is_true_in('p', 1));
    assert!(!m.is_true_in('q', 1));
    assert!(!m.is_true_in('r', 1));
}

#[test]
fn conjunctive_branching_valid_when_both_hold() {
    // p∨q ⇒ p, q branches on the hypothesis; each branch closes on a shared
    // letter, so the obligation is valid.
    let p = Proof::new(Sequent::new(
        vec![disj(letter('p'), letter('q'))],
        vec![letter('p'), letter('q')],
    ));
    assert!(p.valid());
    match p.proof_result() {
        ProofResult::BothValid(a, b) => {
            assert!(a.valid());
            assert!(b.valid());
        }
        _ => panic!("expected a conjunctive branching"),
    }
}

#[test]
fn excluded_middle_is_valid() {
    let p = Proof::new(Sequent::new(vec![], vec![disj(letter('p'), neg(letter('p')))]));
    assert!(p.valid());
    assert!(matches!(p.proof_result(), ProofResult::Valid));
}

#[test]
fn single_letter_goal_has_minimal_counter_model() {
    let p = Proof::new(Sequent::new(vec![], vec![letter('p')]));
    assert!(!p.valid());
    let m = counter_model(&p);
    assert_eq!(m.num_worlds, 1);
    assert!(m.accessibility_function.is_empty());
    assert!(!m.is_true_in('p', 1));
    assert!(m.valuations.is_empty());
}

#[test]
fn conflicting_possibilities_are_invalid() {
    let p = Proof::new(Sequent::new(
        vec![],
        vec![conj(dia(letter('p')), dia(neg(letter('p'))))],
    ));
    assert!(!p.valid());
    // Both conjuncts fail at the root world, which has no successors, so the
    // refutation never leaves world 1: the conjunction is already false at a
    // dead end.
    let m = counter_model(&p);
    assert_eq!(m.num_worlds, 1);
    assert!(m.accessibility_function.is_empty());
    assert!(!m.is_true_in('p', 1));
}

#[test]
fn modal_counter_model_allocates_a_successor() {
    // ◇a on the hypothesis side forces a successor world; the goal ◇c fails
    // there, so the model falsifies the obligation with an edge out of the
    // root.
    let p = Proof::new(Sequent::new(vec![dia(letter('a'))], vec![dia(letter('c'))]));
    assert!(!p.valid());
    let m = counter_model(&p);
    assert_eq!(m.num_worlds, 2);
    assert!(m.has_access(1, 2));
    assert!(m.is_true_in('a', 2));
    assert!(!m.is_true_in('c', 1));
    assert!(!m.is_true_in('c', 2));
}

#[test]
fn countermodel_prefers_shallow_witnesses() {
    // Two possibilities on the left: one leads to a deeper refutation than
    // the other.  The synthesizer follows the shallowest child and allocates
    // exactly one successor world.
    let p = Proof::new(Sequent::new(
        vec![dia(dia(letter('a'))), dia(letter('b'))],
        vec![],
    ));
    assert!(!p.valid());
    let m = counter_model(&p);
    assert_eq!(m.num_worlds, 2);
    assert!(m.has_access(1, 2));
    assert!(m.is_true_in('b', 2));
    assert!(!m.is_true_in('a', 2));
}

#[test]
fn builder_terminates_on_nested_formula() {
    // A deeply nested obligation still resolves: the engine's node-count
    // measure shrinks with every rewrite.
    let mut f = disj(letter('a'), neg(letter('a')));
    let mut i = 0;
    while i < 6 {
        f = conj(dia(f.clone()), disj(neg(f.clone()), letter('b')));
        i += 1;
    }
    let p = Proof::new(Sequent::new(vec![f], vec![letter('b')]));
    // The verdict is not the point here; reaching one is.
    let _ = p.valid();
}

#[test]
fn construction_is_deterministic() {
    let make = || {
        Proof::new(Sequent::new(
            vec![],
            vec![conj(dia(letter('p')), neg(dia(letter('q'))))],
        ))
    };
    let p1 = make();
    let p2 = make();
    assert_eq!(p1.valid(), p2.valid());
    assert_eq!(p1.steps, p2.steps);
    let m1 = counter_model(&p1);
    let m2 = counter_model(&p2);
    assert_eq!(m1, m2);
}

#[test]
fn min_depth_counts_branchings() {
    // The root branches on the conjunction; each child resolves at once.
    let p = Proof::new(Sequent::new(
        vec![],
        vec![conj(letter('p'), letter('q'))],
    ));
    assert_eq!(p.min_depth(), 1);
    match p.proof_result() {
        ProofResult::BothValid(a, b) => {
            assert_eq!(a.min_depth(), 0);
            assert_eq!(b.min_depth(), 0);
        }
        _ => panic!("expected a conjunctive branching"),
    }
}

#[test]
fn model_builder_tracks_highest_world() {
    let mut b = ModelBuilder::new();
    b.set_true_in(3, 'x');
    b.add_access(1, 4);
    b.add_access(1, 4);
    b.set_true_in(3, 'x');
    let m = b.finalize();
    assert_eq!(m.num_worlds, 4);
    assert!(m.has_access(1, 4));
    assert!(!m.has_access(4, 1));
    assert!(m.is_true_in('x', 3));
    assert!(!m.is_true_in('x', 1));
    assert_eq!(m.accessibility_function.len(), 1);
    assert_eq!(m.valuations.len(), 1);
}
