//! The counter-model synthesizer.
//!
//! When the root proof is invalid, walking the failed tree yields a finite
//! Kripke model that falsifies the original formula at world 1.  Each visited
//! node contributes its `true_here` atoms as valuations of the current world.
//! A modal (`AnyValid`) node stands for alternative successor worlds: the
//! walk allocates one fresh world, records an edge to it, and descends into
//! the shallowest child, the earliest on ties.  A conjunctive (`BothValid`)
//! node refines the same world: an invalid node descends into an invalid
//! child — the shallower one when both are invalid — while a valid node
//! descends into both.

use vstd::prelude::*;

use crate::models::ModelBuilder;
use crate::models::ModelView;
use crate::models::imax;
use crate::models::model_wf;
use crate::proofs::Proof;
use crate::proofs::ProofResult;
use crate::proofs::min_depth_spec;

verus! {

/// Scans the children from position `i` on, keeping the index of the
/// shallowest proof seen so far and replacing it only on a strictly smaller
/// depth, so that the earliest of the shallowest children wins.
pub open spec fn pick_from(cs: Seq<Proof>, i: int, best: int) -> int
    decreases cs.len() - i,
{
    if i < 0 || i >= cs.len() {
        best
    } else if min_depth_spec(cs[i]) < min_depth_spec(cs[best]) {
        pick_from(cs, i + 1, i)
    } else {
        pick_from(cs, i + 1, best)
    }
}

/// The index of the shallowest child, the earliest on ties.
pub open spec fn pick_index(cs: Seq<Proof>) -> int {
    pick_from(cs, 1, 0)
}

proof fn lemma_pick_from_in_range(cs: Seq<Proof>, i: int, best: int)
    requires
        0 <= best < cs.len(),
    ensures
        0 <= pick_from(cs, i, best) < cs.len(),
    decreases cs.len() - i,
{
    if 0 <= i < cs.len() {
        if min_depth_spec(cs[i]) < min_depth_spec(cs[best]) {
            lemma_pick_from_in_range(cs, i + 1, i);
        } else {
            lemma_pick_from_in_range(cs, i + 1, best);
        }
    }
}

/// The chosen witness is one of the children.
pub proof fn lemma_pick_index_in_range(cs: Seq<Proof>)
    requires
        cs.len() > 0,
    ensures
        0 <= pick_index(cs) < cs.len(),
{
    lemma_pick_from_in_range(cs, 1, 0);
}

/// How many fresh worlds the walk of a proof tree allocates.
pub open spec fn alloc_count(p: Proof) -> nat
    decreases p,
{
    match p.proof_result {
        ProofResult::Valid => 0,
        ProofResult::Invalid => 0,
        ProofResult::AnyValid(cs) => {
            if cs@.len() == 0 {
                0
            } else {
                proof {
                    lemma_pick_index_in_range(cs@);
                }
                1 + alloc_count(cs@[pick_index(cs@)])
            }
        },
        ProofResult::BothValid(a, b) => {
            if p.valid {
                alloc_count(*a) + alloc_count(*b)
            } else if a.valid {
                alloc_count(*b)
            } else if b.valid {
                alloc_count(*a)
            } else if min_depth_spec(*a) <= min_depth_spec(*b) {
                alloc_count(*a)
            } else {
                alloc_count(*b)
            }
        },
    }
}

/// The valuation pairs that mark every atom of a set true at one world.
pub open spec fn world_vals(atoms: Set<char>, world: int) -> Set<(char, int)> {
    Set::new(|av: (char, int)| atoms.contains(av.0) && av.1 == world)
}

/// The model after the valuation step of a visit: the current world is
/// covered and every atom of the node is true there.
pub open spec fn visit_model_start(world: int, p: Proof, m: ModelView) -> ModelView {
    ModelView {
        num_worlds: imax(m.num_worlds, world),
        edges: m.edges,
        vals: m.vals.union(world_vals(p.true_here@, world)),
    }
}

/// The model after an accessibility edge is recorded: both of the edge's
/// worlds are covered.
pub open spec fn with_edge(m: ModelView, from: int, to: int) -> ModelView {
    ModelView {
        num_worlds: imax(m.num_worlds, imax(from, to)),
        edges: m.edges.insert((from, to)),
        vals: m.vals,
    }
}

/// The walk of the counter-model synthesizer, as a mathematical function:
/// given the current world, the proof node, the next free world number and
/// the model so far, it returns the extended model and the next free world
/// number left behind.
pub open spec fn visit_spec(world: int, p: Proof, next: int, m: ModelView) -> (ModelView, int)
    decreases p,
{
    let m1 = visit_model_start(world, p, m);
    match p.proof_result {
        ProofResult::Valid => (m1, next),
        ProofResult::Invalid => (m1, next),
        ProofResult::AnyValid(cs) => {
            if cs@.len() == 0 {
                (m1, next)
            } else {
                proof {
                    lemma_pick_index_in_range(cs@);
                }
                let i = pick_index(cs@);
                visit_spec(next, cs@[i], next + 1, with_edge(m1, world, next))
            }
        },
        ProofResult::BothValid(a, b) => {
            if p.valid {
                let first = visit_spec(world, *a, next, m1);
                visit_spec(world, *b, first.1, first.0)
            } else if a.valid {
                visit_spec(world, *b, next, m1)
            } else if b.valid {
                visit_spec(world, *a, next, m1)
            } else if min_depth_spec(*a) <= min_depth_spec(*b) {
                visit_spec(world, *a, next, m1)
            } else {
                visit_spec(world, *b, next, m1)
            }
        },
    }
}

/// The walk moves the free-world counter forward by exactly the number of
/// worlds it allocates.
pub proof fn lemma_visit_next(world: int, p: Proof, next: int, m: ModelView)
    ensures
        visit_spec(world, p, next, m).1 == next + alloc_count(p),
    decreases p,
{
    let m1 = visit_model_start(world, p, m);
    match p.proof_result {
        ProofResult::Valid => {},
        ProofResult::Invalid => {},
        ProofResult::AnyValid(cs) => {
            if cs@.len() > 0 {
                lemma_pick_index_in_range(cs@);
                let i = pick_index(cs@);
                lemma_visit_next(next, cs@[i], next + 1, with_edge(m1, world, next));
            }
        },
        ProofResult::BothValid(a, b) => {
            if p.valid {
                let first = visit_spec(world, *a, next, m1);
                lemma_visit_next(world, *a, next, m1);
                lemma_visit_next(world, *b, first.1, first.0);
            } else if a.valid {
                lemma_visit_next(world, *b, next, m1);
            } else if b.valid {
                lemma_visit_next(world, *a, next, m1);
            } else if min_depth_spec(*a) <= min_depth_spec(*b) {
                lemma_visit_next(world, *a, next, m1);
            } else {
                lemma_visit_next(world, *b, next, m1);
            }
        },
    }
}

/// The walk never shrinks the world count.
pub proof fn lemma_visit_num(world: int, p: Proof, next: int, m: ModelView)
    ensures
        visit_spec(world, p, next, m).0.num_worlds >= imax(m.num_worlds, world),
    decreases p,
{
    let m1 = visit_model_start(world, p, m);
    match p.proof_result {
        ProofResult::Valid => {},
        ProofResult::Invalid => {},
        ProofResult::AnyValid(cs) => {
            if cs@.len() > 0 {
                lemma_pick_index_in_range(cs@);
                let i = pick_index(cs@);
                lemma_visit_num(next, cs@[i], next + 1, with_edge(m1, world, next));
            }
        },
        ProofResult::BothValid(a, b) => {
            if p.valid {
                let first = visit_spec(world, *a, next, m1);
                lemma_visit_num(world, *a, next, m1);
                lemma_visit_num(world, *b, first.1, first.0);
            } else if a.valid {
                lemma_visit_num(world, *b, next, m1);
            } else if b.valid {
                lemma_visit_num(world, *a, next, m1);
            } else if min_depth_spec(*a) <= min_depth_spec(*b) {
                lemma_visit_num(world, *a, next, m1);
            } else {
                lemma_visit_num(world, *b, next, m1);
            }
        },
    }
}

/// Walks a failed proof tree and grows the counter-model: the current
/// world's valuations come from the node's atoms, a modal node allocates one
/// fresh successor world and descends into its shallowest child, and a
/// conjunctive node refines the same world through its falsifying child — or
/// both children where the node is valid.  The fresh-world counter must have
/// room for every world the walk allocates.
pub fn build_counter_model(
    curr_world: u32,
    pf: &Proof,
    next_avail_world: &mut u32,
    builder: &mut ModelBuilder,
)
    requires
        *old(next_avail_world) + alloc_count(*pf) <= u32::MAX,
        old(builder).m@.num_worlds >= curr_world as int,
    ensures
        ({
            let res = visit_spec(
                curr_world as int,
                *pf,
                *old(next_avail_world) as int,
                old(builder).m@,
            );
            final(builder).m@ == res.0 && *final(next_avail_world) as int == res.1
        }),
        model_wf(old(builder).m@) ==> model_wf(final(builder).m@),
    decreases pf,
{
    let ghost m0 = builder.m@;
    let ghost n0 = *next_avail_world as int;
    let atoms = pf.true_here();
    let mut k: usize = 0;
    while k < atoms.len()
        invariant
            0 <= k <= atoms.chars@.len(),
            atoms == &pf.true_here,
            builder.m@.num_worlds == m0.num_worlds,
            builder.m@.edges == m0.edges,
            builder.m@.vals == m0.vals.union(
                Set::new(
                    |av: (char, int)|
                        atoms.chars@.take(k as int).contains(av.0) && av.1
                            == curr_world as int,
                ),
            ),
            model_wf(m0) ==> model_wf(builder.m@),
            *next_avail_world as int == n0,
        decreases atoms.chars@.len() - k,
    {
        let ghost prevals = builder.m@.vals;
        let c = atoms.get(k);
        builder.set_true_in(curr_world, c);
        proof {
            let taken = Set::new(
                |av: (char, int)|
                    atoms.chars@.take(k as int).contains(av.0) && av.1 == curr_world as int,
            );
            let taken1 = Set::new(
                |av: (char, int)|
                    atoms.chars@.take(k + 1).contains(av.0) && av.1 == curr_world as int,
            );
            assert forall|av: (char, int)| taken1.contains(av) implies taken.contains(av)
                || av == (c, curr_world as int) by {
                let j = choose|j: int|
                    0 <= j < k + 1 && #[trigger] atoms.chars@.take(k + 1)[j] == av.0;
                if j < k {
                    assert(atoms.chars@.take(k as int)[j] == av.0);
                }
            }
            assert forall|av: (char, int)| taken.contains(av) implies taken1.contains(
                av,
            ) by {
                let j = choose|j: int|
                    0 <= j < k && #[trigger] atoms.chars@.take(k as int)[j] == av.0;
                assert(atoms.chars@.take(k + 1)[j] == av.0);
            }
            assert(atoms.chars@.take(k + 1)[k as int] == c);
            assert(taken1.contains((c, curr_world as int)));
            assert(builder.m@.vals =~= m0.vals.union(taken1));
        }
        k += 1;
    }
    let ghost m1 = visit_model_start(curr_world as int, *pf, m0);
    proof {
        assert(atoms.chars@.take(atoms.chars@.len() as int) =~= atoms.chars@);
        assert(builder.m@.vals =~= m1.vals);
        assert(builder.m@ =~= m1);
    }
    match pf.proof_result() {
        ProofResult::Valid => {},
        ProofResult::Invalid => {},
        ProofResult::AnyValid(cs) => {
            if cs.len() > 0 {
                proof {
                    lemma_pick_index_in_range(cs@);
                }
                let mut best: usize = 0;
                let mut best_depth = cs[0].min_depth();
                let mut i: usize = 1;
                while i < cs.len()
                    invariant
                        1 <= i <= cs@.len(),
                        0 <= best < i,
                        cs@.len() > 0,
                        best_depth == min_depth_spec(cs@[best as int]),
                        pick_from(cs@, i as int, best as int) == pick_index(cs@),
                    decreases cs@.len() - i,
                {
                    let d = cs[i].min_depth();
                    if d < best_depth {
                        best = i;
                        best_depth = d;
                    }
                    i += 1;
                }
                proof {
                    assert(best as int == pick_index(cs@));
                }
                let wid = *next_avail_world;
                *next_avail_world = wid + 1;
                builder.add_access(curr_world, wid);
                build_counter_model(wid, &cs[best], next_avail_world, builder);
            }
        },
        ProofResult::BothValid(a, b) => {
            if pf.valid {
                let ghost first = visit_spec(curr_world as int, **a, n0, m1);
                proof {
                    lemma_visit_next(curr_world as int, **a, n0, m1);
                    lemma_visit_num(curr_world as int, **a, n0, m1);
                }
                build_counter_model(curr_world, a, next_avail_world, builder);
                build_counter_model(curr_world, b, next_avail_world, builder);
            } else if a.valid() {
                build_counter_model(curr_world, b, next_avail_world, builder);
            } else if b.valid() {
                build_counter_model(curr_world, a, next_avail_world, builder);
            } else if a.min_depth() <= b.min_depth() {
                build_counter_model(curr_world, a, next_avail_world, builder);
            } else {
                build_counter_model(curr_world, b, next_avail_world, builder);
            }
        },
    }
}

} // verus!
