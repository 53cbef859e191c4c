//! Kripke models and their builder.
//!
//! A model holds a world count, a set of directed accessibility edges, and a
//! valuation that says at which worlds each atom is true.  Worlds are the
//! integers from 1 up to `num_worlds` and world 1 is the root; an atom absent
//! from the valuations is false everywhere (closed world).  The counter-model
//! synthesizer grows a model through `ModelBuilder`, which keeps `num_worlds`
//! equal to the highest world ever referenced.

use vstd::prelude::*;

verus! {

/// The greater of two world numbers.
pub open spec fn imax(a: int, b: int) -> int {
    if a >= b {
        a
    } else {
        b
    }
}

/// The mathematical content of a Kripke model: the world count, the set of
/// accessibility edges, and the set of pairs `(atom, world)` at which an atom
/// is true.
#[verifier::ext_equal]
pub struct ModelView {
    pub num_worlds: int,
    pub edges: Set<(int, int)>,
    pub vals: Set<(char, int)>,
}

/// A finite Kripke model.  The edge list and the per-atom world lists are
/// duplicate-free in the builder's insertion order; their mathematical view
/// forgets the order.
#[derive(Debug, PartialEq)]
pub struct Model {
    pub num_worlds: u32,
    pub accessibility_function: Vec<(u32, u32)>,
    pub valuations: Vec<(char, Vec<u32>)>,
}

impl View for Model {
    type V = ModelView;

    open spec fn view(&self) -> ModelView {
        ModelView {
            num_worlds: self.num_worlds as int,
            edges: Set::new(
                |e: (int, int)|
                    exists|i: int|
                        0 <= i < self.accessibility_function@.len()
                            && (#[trigger] self.accessibility_function@[i]).0 == e.0
                            && self.accessibility_function@[i].1 == e.1,
            ),
            vals: Set::new(
                |av: (char, int)|
                    exists|i: int|
                        0 <= i < self.valuations@.len() && (#[trigger] self.valuations@[i]).0
                            == av.0 && exists|j: int|
                            0 <= j < self.valuations@[i].1@.len()
                                && (#[trigger] self.valuations@[i].1@[j]) == av.1,
            ),
        }
    }
}

/// The model is internally consistent: there is at least one world, every
/// world referenced by an edge or a valuation lies within the count, and the
/// count is tight — it is 1, or some edge or valuation reaches it.
pub open spec fn model_wf(m: ModelView) -> bool {
    &&& m.num_worlds >= 1
    &&& (forall|e: (int, int)|
        m.edges.contains(e) ==> e.0 <= m.num_worlds && e.1 <= m.num_worlds)
    &&& (forall|av: (char, int)| m.vals.contains(av) ==> av.1 <= m.num_worlds)
    &&& (m.num_worlds == 1 || (exists|e: (int, int)|
        m.edges.contains(e) && (e.0 == m.num_worlds || e.1 == m.num_worlds)) || (exists|
        av: (char, int),
    |
        m.vals.contains(av) && av.1 == m.num_worlds))
}

impl Model {
    /// Whether the model has an accessibility edge from one world to another.
    pub fn has_access(&self, from: u32, to: u32) -> (r: bool)
        ensures
            r == self@.edges.contains((from as int, to as int)),
    {
        let mut i: usize = 0;
        while i < self.accessibility_function.len()
            invariant
                0 <= i <= self.accessibility_function@.len(),
                forall|k: int|
                    0 <= k < i ==> !((#[trigger] self.accessibility_function@[k]).0 == from
                        && self.accessibility_function@[k].1 == to),
            decreases self.accessibility_function@.len() - i,
        {
            let e = &self.accessibility_function[i];
            if e.0 == from && e.1 == to {
                return true;
            }
            i += 1;
        }
        false
    }

    /// Whether the atom is true at the world.
    pub fn is_true_in(&self, variable: char, world: u32) -> (r: bool)
        ensures
            r == self@.vals.contains((variable, world as int)),
    {
        let mut i: usize = 0;
        while i < self.valuations.len()
            invariant
                0 <= i <= self.valuations@.len(),
                forall|k: int|
                    0 <= k < i ==> !((#[trigger] self.valuations@[k]).0 == variable
                        && (exists|j: int|
                        0 <= j < self.valuations@[k].1@.len()
                            && (#[trigger] self.valuations@[k].1@[j]) == world)),
            decreases self.valuations@.len() - i,
        {
            if self.valuations[i].0 == variable {
                let worlds = &self.valuations[i].1;
                let mut j: usize = 0;
                while j < worlds.len()
                    invariant
                        0 <= j <= worlds@.len(),
                        worlds == &self.valuations@[i as int].1,
                        0 <= i < self.valuations@.len(),
                        self.valuations@[i as int].0 == variable,
                        forall|k: int| 0 <= k < j ==> worlds@[k] != world,
                    decreases worlds@.len() - j,
                {
                    if worlds[j] == world {
                        return true;
                    }
                    j += 1;
                }
            }
            i += 1;
        }
        false
    }
}

/// Grows a Kripke model one edge or one valuation at a time, keeping the
/// world count equal to the highest world referenced so far.
#[derive(Debug)]
pub struct ModelBuilder {
    pub m: Model,
}

impl ModelBuilder {
    /// A model of the single root world, with no edges and no valuations.
    pub fn new() -> (r: ModelBuilder)
        ensures
            r.m@ == (ModelView {
                num_worlds: 1int,
                edges: Set::<(int, int)>::empty(),
                vals: Set::<(char, int)>::empty(),
            }),
            model_wf(r.m@),
    {
        let r = ModelBuilder {
            m: Model { num_worlds: 1, accessibility_function: Vec::new(), valuations: Vec::new() },
        };
        proof {
            assert(r.m@.edges =~= Set::<(int, int)>::empty());
            assert(r.m@.vals =~= Set::<(char, int)>::empty());
            assert(r.m@ =~= (ModelView {
                num_worlds: 1int,
                edges: Set::<(int, int)>::empty(),
                vals: Set::<(char, int)>::empty(),
            }));
        }
        r
    }

    /// Records an accessibility edge and widens the world count to cover both
    /// of its ends.
    pub fn add_access(&mut self, from: u32, to: u32)
        ensures
            final(self).m@.edges == old(self).m@.edges.insert((from as int, to as int)),
            final(self).m@.vals == old(self).m@.vals,
            final(self).m@.num_worlds == imax(
                old(self).m@.num_worlds,
                imax(from as int, to as int),
            ),
            model_wf(old(self).m@) ==> model_wf(final(self).m@),
    {
        let hi = if from > to {
            from
        } else {
            to
        };
        if hi > self.m.num_worlds {
            self.m.num_worlds = hi;
        }
        if !self.m.has_access(from, to) {
            let ghost pre = self.m.accessibility_function@;
            self.m.accessibility_function.push((from, to));
            proof {
                assert forall|e: (int, int)| self.m@.edges.contains(e) implies old(
                    self,
                ).m@.edges.contains(e) || e == (from as int, to as int) by {
                    let i = choose|i: int|
                        0 <= i < self.m.accessibility_function@.len() && (
                        #[trigger] self.m.accessibility_function@[i]).0 == e.0
                            && self.m.accessibility_function@[i].1 == e.1;
                    if i < pre.len() {
                        assert(pre[i] == self.m.accessibility_function@[i]);
                    }
                }
                assert forall|e: (int, int)| old(self).m@.edges.contains(e) implies self
                    .m@.edges.contains(e) by {
                    let i = choose|i: int|
                        0 <= i < pre.len() && (#[trigger] pre[i]).0 == e.0 && pre[i].1
                            == e.1;
                    assert(self.m.accessibility_function@[i] == pre[i]);
                }
                assert(self.m.accessibility_function@[pre.len() as int] == (from, to));
            }
        }
        proof {
            assert(self.m@.edges =~= old(self).m@.edges.insert((from as int, to as int)));
            assert(self.m@.vals =~= old(self).m@.vals);
            if model_wf(old(self).m@) {
                assert(self.m@.edges.contains((from as int, to as int)));
                if self.m@.num_worlds == old(self).m@.num_worlds {
                    if old(self).m@.num_worlds != 1 {
                        if exists|e: (int, int)|
                            old(self).m@.edges.contains(e) && (e.0 == old(self).m@.num_worlds
                                || e.1 == old(self).m@.num_worlds) {
                            let e = choose|e: (int, int)|
                                old(self).m@.edges.contains(e) && (e.0
                                    == old(self).m@.num_worlds || e.1 == old(
                                    self,
                                ).m@.num_worlds);
                            assert(self.m@.edges.contains(e));
                        }
                    }
                }
            }
        }
    }

    /// Marks the atom true at the world and widens the world count to cover
    /// it.
    pub fn set_true_in(&mut self, world: u32, variable: char)
        ensures
            final(self).m@.vals == old(self).m@.vals.insert((variable, world as int)),
            final(self).m@.edges == old(self).m@.edges,
            final(self).m@.num_worlds == imax(old(self).m@.num_worlds, world as int),
            model_wf(old(self).m@) ==> model_wf(final(self).m@),
    {
        if world > self.m.num_worlds {
            self.m.num_worlds = world;
        }
        let ghost pre = self.m.valuations@;
        let ghost num1 = self.m.num_worlds;
        let ghost acc1 = self.m.accessibility_function@;
        let mut i: usize = 0;
        let n = self.m.valuations.len();
        while i < n
            invariant
                0 <= i <= pre.len(),
                n == pre.len(),
                self.m.valuations@ == pre,
                self.m.num_worlds == num1,
                self.m.accessibility_function@ == acc1,
                num1 as int == imax(old(self).m@.num_worlds, world as int),
                forall|k: int| 0 <= k < i ==> (#[trigger] pre[k]).0 != variable,
            decreases n - i,
        {
            if self.m.valuations[i].0 == variable {
                let mut entry = self.m.valuations.remove(i);
                let mut j: usize = 0;
                let mut present = false;
                while j < entry.1.len()
                    invariant
                        0 <= j <= entry.1@.len(),
                        entry == pre[i as int],
                        present == (exists|k: int|
                            0 <= k < j && (#[trigger] entry.1@[k]) == world),
                    decreases entry.1@.len() - j,
                {
                    if entry.1[j] == world {
                        present = true;
                        proof {
                            assert(entry.1@[j as int] == world);
                        }
                    }
                    j += 1;
                }
                let ghost oldentry = entry;
                if !present {
                    entry.1.push(world);
                }
                self.m.valuations.insert(i, entry);
                proof {
                    assert(self.m.valuations@ =~= pre.update(
                        i as int,
                        self.m.valuations@[i as int],
                    ));
                    lemma_vals_update(
                        pre,
                        self.m.valuations@,
                        i as int,
                        variable,
                        world,
                        present,
                    );
                    assert(self.m@.vals =~= old(self).m@.vals.insert((
                        variable,
                        world as int,
                    )));
                    assert(self.m@.edges =~= old(self).m@.edges);
                    lemma_set_true_wf(old(self).m@, self.m@, variable, world);
                }
                return ;
            }
            i += 1;
        }
        let ghost prelen = pre.len() as int;
        let mut worlds: Vec<u32> = Vec::new();
        worlds.push(world);
        self.m.valuations.push((variable, worlds));
        proof {
            let now = self.m.valuations@;
            assert(now[prelen] == (variable, worlds));
            assert(now[prelen].1@ =~= seq![world]);
            assert forall|av: (char, int)| self.m@.vals.contains(av) implies old(
                self,
            ).m@.vals.contains(av) || av == (variable, world as int) by {
                let i2 = choose|i2: int|
                    0 <= i2 < now.len() && (#[trigger] now[i2]).0 == av.0 && exists|j2: int|
                        0 <= j2 < now[i2].1@.len() && (#[trigger] now[i2].1@[j2]) == av.1;
                if i2 < prelen {
                    assert(pre[i2] == now[i2]);
                }
            }
            assert forall|av: (char, int)| old(self).m@.vals.contains(av) implies self
                .m@.vals.contains(av) by {
                let i2 = choose|i2: int|
                    0 <= i2 < pre.len() && (#[trigger] pre[i2]).0 == av.0 && exists|j2: int|
                        0 <= j2 < pre[i2].1@.len() && (#[trigger] pre[i2].1@[j2]) == av.1;
                assert(now[i2] == pre[i2]);
            }
            assert(now[prelen].1@[0] == world);
            assert(self.m@.vals.contains((variable, world as int)));
            assert(self.m@.vals =~= old(self).m@.vals.insert((variable, world as int)));
            assert(self.m@.edges =~= old(self).m@.edges);
            lemma_set_true_wf(old(self).m@, self.m@, variable, world);
        }
    }

    /// Hands the finished model out.
    pub fn finalize(self) -> (r: Model)
        ensures
            r == self.m,
    {
        self.m
    }
}

/// Marking one atom true at one world keeps a model well formed.
proof fn lemma_set_true_wf(pre: ModelView, now: ModelView, variable: char, world: u32)
    requires
        now.vals == pre.vals.insert((variable, world as int)),
        now.edges == pre.edges,
        now.num_worlds == imax(pre.num_worlds, world as int),
    ensures
        model_wf(pre) ==> model_wf(now),
{
    if model_wf(pre) {
        assert(now.vals.contains((variable, world as int)));
        if now.num_worlds == pre.num_worlds {
            if pre.num_worlds != 1 {
                if exists|e: (int, int)|
                    pre.edges.contains(e) && (e.0 == pre.num_worlds || e.1
                        == pre.num_worlds) {
                } else {
                    let av = choose|av: (char, int)|
                        pre.vals.contains(av) && av.1 == pre.num_worlds;
                    assert(now.vals.contains(av));
                }
            }
        }
    }
}

/// Updating one valuation entry whose atom is `variable`, by adding `world`
/// to its world list (or leaving it alone when already present), inserts
/// exactly the pair `(variable, world)` into the valuation relation.
proof fn lemma_vals_update(
    pre: Seq<(char, Vec<u32>)>,
    now: Seq<(char, Vec<u32>)>,
    i: int,
    variable: char,
    world: u32,
    present: bool,
)
    requires
        0 <= i < pre.len(),
        now.len() == pre.len(),
        forall|k: int| 0 <= k < now.len() && k != i ==> now[k] == pre[k],
        pre[i].0 == variable,
        now[i].0 == variable,
        present ==> now[i].1@ == pre[i].1@ && pre[i].1@.contains(world),
        !present ==> now[i].1@ == pre[i].1@.push(world),
    ensures
        Set::new(
            |av: (char, int)|
                exists|k: int|
                    0 <= k < now.len() && (#[trigger] now[k]).0 == av.0 && exists|j: int|
                        0 <= j < now[k].1@.len() && (#[trigger] now[k].1@[j]) == av.1,
        ) =~= Set::new(
            |av: (char, int)|
                exists|k: int|
                    0 <= k < pre.len() && (#[trigger] pre[k]).0 == av.0 && exists|j: int|
                        0 <= j < pre[k].1@.len() && (#[trigger] pre[k].1@[j]) == av.1,
        ).insert((variable, world as int)),
{
    let news = Set::new(
        |av: (char, int)|
            exists|k: int|
                0 <= k < now.len() && (#[trigger] now[k]).0 == av.0 && exists|j: int|
                    0 <= j < now[k].1@.len() && (#[trigger] now[k].1@[j]) == av.1,
    );
    let olds = Set::new(
        |av: (char, int)|
            exists|k: int|
                0 <= k < pre.len() && (#[trigger] pre[k]).0 == av.0 && exists|j: int|
                    0 <= j < pre[k].1@.len() && (#[trigger] pre[k].1@[j]) == av.1,
    );
    assert forall|av: (char, int)| news.contains(av) implies olds.contains(av) || av == (
        variable,
        world as int,
    ) by {
        let k = choose|k: int|
            0 <= k < now.len() && (#[trigger] now[k]).0 == av.0 && exists|j: int|
                0 <= j < now[k].1@.len() && (#[trigger] now[k].1@[j]) == av.1;
        let j = choose|j: int| 0 <= j < now[k].1@.len() && (#[trigger] now[k].1@[j]) == av.1;
        if k != i {
            assert(pre[k] == now[k]);
        } else {
            if present {
                assert(pre[i].1@[j] == av.1);
            } else {
                if j < pre[i].1@.len() {
                    assert(pre[i].1@[j] == av.1);
                } else {
                    assert(av.1 == world as int);
                }
            }
        }
    }
    assert forall|av: (char, int)| olds.contains(av) implies news.contains(av) by {
        let k = choose|k: int|
            0 <= k < pre.len() && (#[trigger] pre[k]).0 == av.0 && exists|j: int|
                0 <= j < pre[k].1@.len() && (#[trigger] pre[k].1@[j]) == av.1;
        let j = choose|j: int| 0 <= j < pre[k].1@.len() && (#[trigger] pre[k].1@[j]) == av.1;
        if k != i {
            assert(now[k] == pre[k]);
            assert(now[k].1@[j] == av.1);
        } else {
            assert(now[i].1@[j] == av.1);
        }
    }
    if present {
        let j = choose|j: int| 0 <= j < pre[i].1@.len() && pre[i].1@[j] == world;
        assert(now[i].1@[j] == world);
        assert(news.contains((variable, world as int)));
    } else {
        assert(now[i].1@[pre[i].1@.len() as int] == world);
        assert(news.contains((variable, world as int)));
    }
}

} // verus!
