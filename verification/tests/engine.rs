//! Tests of the formula model, the normalizer, and one step of each engine.

use modal_k::formulae::Formula;
use modal_k::formulae::FormulaType;
use modal_k::formulae::preprocess;
use modal_k::meta;
use modal_k::sequents::Rule;
use modal_k::sequents::Sequent;
use modal_k::sequents::StepResult;

fn letter(c: char) -> Formula {
    Formula::Letter(c)
}

fn neg(f: Formula) -> Formula {
    Formula::Negation(Box::new(f))
}

fn conj(a: Formula, b: Formula) -> Formula {
    Formula::Conjunction(Box::new(a), Box::new(b))
}

fn disj(a: Formula, b: Formula) -> Formula {
    Formula::Disjunction(Box::new(a), Box::new(b))
}

fn dia(f: Formula) -> Formula {
    Formula::MDiamond(Box::new(f))
}

fn mbox(f: Formula) -> Formula {
    Formula::MBox(Box::new(f))
}

fn implies(a: Formula, b: Formula) -> Formula {
    Formula::Implication(Box::new(a), Box::new(b))
}

/// No `MBox` or `Implication` node anywhere in the tree.
fn normal_shape(f: &Formula) -> bool {
    match f {
        Formula::Top | Formula::Bottom | Formula::Letter(_) => true,
        Formula::Negation(x) | Formula::MDiamond(x) => normal_shape(x),
        Formula::Conjunction(x, y) | Formula::Disjunction(x, y) => {
            normal_shape(x) && normal_shape(y)
        }
        Formula::MBox(_) | Formula::Implication(_, _) => false,
    }
}

#[test]
fn preprocess_eliminates_box_and_implication() {
    let f = implies(
        disj(letter('a'), mbox(letter('b'))),
        implies(letter('b'), mbox(dia(letter('c')))),
    );
    let n = preprocess(f);
    assert!(normal_shape(&n));
}

#[test]
fn preprocess_box_expected_tree() {
    let n = preprocess(mbox(letter('a')));
    assert_eq!(n, neg(dia(neg(letter('a')))));
}

#[test]
fn preprocess_implication_expected_tree() {
    let n = preprocess(implies(letter('a'), letter('b')));
    assert_eq!(n, disj(neg(letter('a')), letter('b')));
}

#[test]
fn preprocess_idempotent() {
    let f = implies(
        disj(letter('a'), mbox(letter('b'))),
        conj(neg(letter('c')), dia(implies(letter('d'), Formula::Bottom))),
    );
    let once = preprocess(f);
    let twice = preprocess(once.clone());
    assert_eq!(once, twice);
}

#[test]
fn preprocess_keeps_leaves() {
    assert_eq!(preprocess(Formula::Top), Formula::Top);
    assert_eq!(preprocess(Formula::Bottom), Formula::Bottom);
    assert_eq!(preprocess(letter('z')), letter('z'));
}

#[test]
fn bind_strength_ranks_operators() {
    assert_eq!(FormulaType::Letter.bind_strength(), 99);
    assert_eq!(FormulaType::Top.bind_strength(), 99);
    assert_eq!(FormulaType::Bottom.bind_strength(), 99);
    assert_eq!(FormulaType::Outside.bind_strength(), 99);
    assert_eq!(FormulaType::Negation.bind_strength(), 3);
    assert_eq!(FormulaType::MDiamond.bind_strength(), 3);
    assert_eq!(FormulaType::MBox.bind_strength(), 3);
    assert_eq!(FormulaType::Conjunction.bind_strength(), 2);
    assert_eq!(FormulaType::Disjunction.bind_strength(), 2);
    assert_eq!(FormulaType::Implication.bind_strength(), 1);
}

#[test]
fn certainly_valid_on_shared_letter() {
    let s = Sequent::new(
        vec![letter('p'), conj(letter('q'), letter('r'))],
        vec![letter('p'), letter('s')],
    );
    assert!(s.certainly_valid());
}

#[test]
fn certainly_valid_on_top_right_and_bottom_left() {
    let s = Sequent::new(vec![], vec![Formula::Top]);
    assert!(s.certainly_valid());
    let s = Sequent::new(vec![Formula::Bottom], vec![]);
    assert!(s.certainly_valid());
    let s = Sequent::new(vec![letter('p')], vec![letter('q')]);
    assert!(!s.certainly_valid());
}

#[test]
fn step_drops_top_from_left_first() {
    let s = Sequent::new(vec![Formula::Top], vec![letter('p')]);
    match s.step() {
        StepResult::Indeterminate(rule, next) => {
            assert_eq!(rule, Rule::LTop);
            assert_eq!(next, Sequent::new(vec![], vec![letter('p')]));
        }
        _ => panic!("expected an indeterminate step"),
    }
}

#[test]
fn step_moves_negations_across() {
    let s = Sequent::new(vec![], vec![neg(letter('p'))]);
    match s.step() {
        StepResult::Indeterminate(rule, next) => {
            assert_eq!(rule, Rule::RNeg);
            assert_eq!(next, Sequent::new(vec![letter('p')], vec![]));
        }
        _ => panic!("expected an indeterminate step"),
    }
    let s = Sequent::new(vec![neg(letter('p'))], vec![]);
    match s.step() {
        StepResult::Indeterminate(rule, next) => {
            assert_eq!(rule, Rule::LNeg);
            assert_eq!(next, Sequent::new(vec![], vec![letter('p')]));
        }
        _ => panic!("expected an indeterminate step"),
    }
}

#[test]
fn step_splices_conjunction_in_place() {
    let s = Sequent::new(
        vec![letter('a'), conj(letter('b'), letter('c')), dia(letter('d'))],
        vec![],
    );
    match s.step() {
        StepResult::Indeterminate(rule, next) => {
            assert_eq!(rule, Rule::LAnd);
            assert_eq!(
                next,
                Sequent::new(
                    vec![letter('a'), letter('b'), letter('c'), dia(letter('d'))],
                    vec![],
                )
            );
        }
        _ => panic!("expected an indeterminate step"),
    }
}

#[test]
fn step_branches_on_left_disjunction() {
    let s = Sequent::new(
        vec![letter('a'), disj(letter('b'), letter('c'))],
        vec![letter('d')],
    );
    match s.step() {
        StepResult::ValidIfBoth(rule, a, b, atoms) => {
            assert_eq!(rule, Rule::LOr);
            assert_eq!(a, Sequent::new(vec![letter('a'), letter('b')], vec![letter('d')]));
            assert_eq!(b, Sequent::new(vec![letter('a'), letter('c')], vec![letter('d')]));
            assert!(atoms.contains('a'));
            assert!(!atoms.contains('b'));
        }
        _ => panic!("expected a conjunctive branching"),
    }
}

#[test]
fn step_modal_rule_collects_successors() {
    let s = Sequent::new(
        vec![dia(letter('a')), dia(letter('b'))],
        vec![dia(letter('c')), letter('d')],
    );
    match s.step() {
        StepResult::ValidIfAny(rule, branches, _) => {
            assert_eq!(rule, Rule::Diam);
            assert_eq!(branches.len(), 2);
            assert_eq!(branches[0], Sequent::new(vec![letter('a')], vec![letter('c')]));
            assert_eq!(branches[1], Sequent::new(vec![letter('b')], vec![letter('c')]));
        }
        _ => panic!("expected a disjunctive branching"),
    }
}

#[test]
fn step_modal_rule_is_not_gated() {
    let s = Sequent::new(vec![dia(letter('a'))], vec![letter('d')]);
    match s.step() {
        StepResult::ValidIfAny(rule, branches, _) => {
            assert_eq!(rule, Rule::Diam);
            assert_eq!(branches.len(), 1);
            assert_eq!(branches[0], Sequent::new(vec![letter('a')], vec![]));
        }
        _ => panic!("expected a disjunctive branching"),
    }
}

#[test]
fn step_invalid_when_nothing_applies() {
    let s = Sequent::new(vec![letter('p')], vec![letter('q')]);
    match s.step() {
        StepResult::Invalid(atoms) => {
            assert!(atoms.contains('p'));
            assert_eq!(atoms.len(), 1);
        }
        _ => panic!("expected an invalid verdict"),
    }
}

fn mletter(c: char) -> meta::Formula {
    meta::Formula::Letter(c)
}

fn mneg(f: meta::Formula) -> meta::Formula {
    meta::Formula::Negation(Box::new(f))
}

fn mconj(a: meta::Formula, b: meta::Formula) -> meta::Formula {
    meta::Formula::Conjunction(Box::new(a), Box::new(b))
}

fn mdisj(a: meta::Formula, b: meta::Formula) -> meta::Formula {
    meta::Formula::Disjunction(Box::new(a), Box::new(b))
}

fn mdia(f: meta::Formula) -> meta::Formula {
    meta::Formula::MDiamond(Box::new(f))
}

#[test]
fn it_works() {
    let m = meta::MetaImpl::new(
        vec![],
        vec![
            mneg(mconj(mneg(mletter('p')), mneg(mletter('r')))),
            mdisj(mletter('r'), mletter('p')),
            mdia(mdisj(mletter('r'), mletter('p'))),
            mneg(mdisj(mletter('q'), mletter('s'))),
            mneg(mdia(mletter('p'))),
            mneg(mdia(mletter('q'))),
        ],
    );
    println!("starting with: {:?}...\n", &m);
    let mut fs = vec![m];
    let mut next = vec![];

    while !fs.is_empty() {
        while let Some(m) = fs.pop() {
            let (n, v) = m.step();
            next.extend(v);

            let mut line = String::new();
            if let Some(rule) = n {
                line.push_str(&format!("rule {:?}:", rule));
            } else {
                line.push_str("       ");
            }
            for f in fs.iter().chain(next.iter()) {
                line.push_str(&format!("   \t{:?}", f));
            }
            println!("{}", line);
        }
        fs.extend(next.drain(..));
    }
}

#[test]
fn meta_modal_rule_is_gated() {
    // With no possibility on the goal side the reduced engine's modal rule
    // yields nothing, so the obligation ends with no successors.
    let m = meta::MetaImpl::new(vec![mdia(mletter('a'))], vec![mletter('d')]);
    let (n, v) = m.step();
    assert_eq!(n, None);
    assert!(v.is_empty());
    // With one, each possibility on the left yields a successor.
    let m = meta::MetaImpl::new(vec![mdia(mletter('a'))], vec![mdia(mletter('c'))]);
    let (n, v) = m.step();
    assert_eq!(n, Some(7));
    assert_eq!(v.len(), 1);
}

#[test]
fn meta_validity_shared_letter() {
    let m = meta::MetaImpl::new(vec![mletter('p')], vec![mletter('p')]);
    assert_eq!(m.validity(), meta::Validity::Valid);
    let m = meta::MetaImpl::new(vec![mletter('p')], vec![mletter('q')]);
    assert_eq!(m.validity(), meta::Validity::Indeterminate);
}

#[test]
fn meta_preprocess_eliminates_box_and_implication() {
    let f = meta::Formula::Implication(
        Box::new(meta::Formula::MBox(Box::new(mletter('a')))),
        Box::new(mletter('b')),
    );
    let n = meta::preprocess(f);
    assert!(meta_normal_shape(&n));
}

/// No `MBox` or `Implication` node anywhere in the tree.
fn meta_normal_shape(f: &meta::Formula) -> bool {
    match f {
        meta::Formula::Letter(_) => true,
        meta::Formula::Negation(x) | meta::Formula::MDiamond(x) => meta_normal_shape(x),
        meta::Formula::Conjunction(x, y) | meta::Formula::Disjunction(x, y) => {
            meta_normal_shape(x) && meta_normal_shape(y)
        }
        meta::Formula::MBox(_) | meta::Formula::Implication(_, _) => false,
    }
}
