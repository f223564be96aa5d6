//! Search frontiers: a queue of states awaiting expansion, with an O(1)
//! membership set over structural hashes. Three orderings are offered:
//! first-in-first-out (breadth-first), last-in-first-out (depth-first), and
//! min-priority on f(s) computed once at insertion (best-first).

use std::collections::HashSet;
use std::collections::VecDeque;
use vstd::prelude::*;
use crate::heuristic::{Heuristic, HeuristicEnum};
use crate::state::State;

verus! {

broadcast use {
    vstd::std_specs::hash::group_hash_axioms,
    vstd::std_specs::hash::axiom_set_contains_deref_key,
};

/// The abstract content of a frontier: the queued states, oldest first.
/// `pop` removes the state at the impl-chosen index; `add` appends.
pub trait Frontier: Sized {
    /// The queued states, in insertion order.
    spec fn states(&self) -> Seq<State>;

    /// The internal invariant: every queued state is well-formed, the queued
    /// hashes are pairwise distinct, and the membership set mirrors them.
    spec fn inv(&self) -> bool;

    /// The index `pop` removes, when the frontier is non-empty.
    spec fn pop_choice(&self) -> int;

    proof fn lemma_pop_choice_in_range(&self)
        requires
            self.inv(),
            self.states().len() > 0,
        ensures
            0 <= self.pop_choice() < self.states().len(),
    ;

    /// Inserts a state the frontier does not yet hold.
    fn add(&mut self, state: State)
        requires
            old(self).inv(),
            state.wf(),
            forall|t: int|
                0 <= t < old(self).states().len() ==> (#[trigger] old(self).states()[t]).hash
                    != state.hash,
        ensures
            final(self).inv(),
            final(self).states() == old(self).states().push(state),
    ;

    /// Removes and returns the next state per the ordering.
    fn pop(&mut self) -> (r: Option<State>)
        requires
            old(self).inv(),
        ensures
            final(self).inv(),
            old(self).states().len() == 0 ==> r is None && final(self).states() == old(
                self,
            ).states(),
            old(self).states().len() > 0 ==> {
                &&& r matches Some(s) && s == old(self).states()[old(self).pop_choice()]
                &&& final(self).states() == old(self).states().remove(old(self).pop_choice())
            },
    ;

    fn is_empty(&self) -> (r: bool)
        requires
            self.inv(),
        ensures
            r == (self.states().len() == 0),
    ;

    fn size(&self) -> (r: usize)
        requires
            self.inv(),
        ensures
            r == self.states().len(),
    ;

    /// Membership by structural hash.
    fn contains(&self, state: &State) -> (r: bool)
        requires
            self.inv(),
            state.wf(),
        ensures
            r == exists|t: int|
                0 <= t < self.states().len() && (#[trigger] self.states()[t]).hash == state.hash,
    ;

    /// The frontier's display name.
    spec fn name_spec(&self) -> Seq<char>;

    fn get_name(&self) -> (r: String)
        ensures
            r@ == self.name_spec(),
    ;
}

/// The shared shape of the hash-membership invariant: the cached hashes of
/// the queued states are pairwise distinct, and the set holds exactly them.
pub open spec fn set_mirrors(states: Seq<State>, set: Set<u64>) -> bool {
    &&& forall|t: int, u: int|
        0 <= t < states.len() && 0 <= u < states.len() && t != u ==> (#[trigger] states[t]).hash
            != (#[trigger] states[u]).hash
    &&& forall|t: int| 0 <= t < states.len() ==> set.contains((#[trigger] states[t]).hash)
    &&& forall|h: u64|
        set.contains(h) ==> exists|t: int| 0 <= t < states.len() && (#[trigger] states[t]).hash == h
}

/// A first-in-first-out frontier: breadth-first search.
pub struct FrontierBFS {
    pub queue: VecDeque<State>,
    pub set: HashSet<u64>,
}

impl FrontierBFS {
    pub fn new() -> (r: FrontierBFS)
        ensures
            r.inv(),
            r.states().len() == 0,
    {
        let r = FrontierBFS { queue: VecDeque::with_capacity(65536), set: HashSet::with_capacity(65536) };
        proof {
            assert(r.states() =~= Seq::<State>::empty());
        }
        r
    }
}

impl Frontier for FrontierBFS {
    open spec fn states(&self) -> Seq<State> {
        self.queue@
    }

    open spec fn inv(&self) -> bool {
        set_mirrors(self.queue@, self.set@)
    }

    open spec fn pop_choice(&self) -> int {
        0
    }

    proof fn lemma_pop_choice_in_range(&self) {
    }

    fn add(&mut self, state: State) {
        let h = state.hash;
        self.queue.push_back(state);
        self.set.insert(h);
        proof {
            assert(old(self).states() == old(self).queue@);
            assert(self.set@ == old(self).set@.insert(h));
            assert(self.queue@ =~= old(self).queue@.push(state));
            assert forall|t: int, u: int|
                0 <= t < self.queue@.len() && 0 <= u < self.queue@.len() && t != u
                implies (#[trigger] self.queue@[t]).hash != (#[trigger] self.queue@[u]).hash by {
                if t == self.queue@.len() - 1 {
                    assert(old(self).states()[u].hash != state.hash);
                } else if u == self.queue@.len() - 1 {
                    assert(old(self).states()[t].hash != state.hash);
                }
            }
            assert forall|t: int| 0 <= t < self.queue@.len() implies self.set@.contains(
                (#[trigger] self.queue@[t]).hash,
            ) by {
                if t < self.queue@.len() - 1 {
                    assert(old(self).set@.contains(old(self).queue@[t].hash));
                }
            }
            assert forall|hh: u64| self.set@.contains(hh) implies exists|t: int|
                0 <= t < self.queue@.len() && (#[trigger] self.queue@[t]).hash == hh by {
                if hh == h {
                    assert(self.queue@[self.queue@.len() - 1].hash == hh);
                } else {
                    let t = choose|t: int|
                        0 <= t < old(self).queue@.len() && (#[trigger] old(self).queue@[t]).hash
                            == hh;
                    assert(self.queue@[t].hash == hh);
                }
            }
        }
    }

    #[verifier::rlimit(50)]
    fn pop(&mut self) -> (r: Option<State>) {
        match self.queue.pop_front() {
            None => None,
            Some(state) => {
                let h = state.hash;
                self.set.remove(&h);
                proof {
                    assert(self.queue@ =~= old(self).queue@.remove(0));
                    assert forall|hh: u64| self.set@.contains(hh) implies exists|t: int|
                        0 <= t < self.queue@.len() && (#[trigger] self.queue@[t]).hash == hh by {
                        let t = choose|t: int|
                            0 <= t < old(self).queue@.len() && (#[trigger] old(
                                self,
                            ).queue@[t]).hash == hh;
                        assert(t != 0);
                        assert(self.queue@[t - 1].hash == hh);
                    }
                }
                Some(state)
            },
        }
    }

    fn is_empty(&self) -> (r: bool) {
        self.queue.len() == 0
    }

    fn size(&self) -> (r: usize) {
        self.queue.len()
    }

    fn contains(&self, state: &State) -> (r: bool) {
        let h = state.hash;
        let r = self.set.contains(&h);
        proof {
            assert(r == self.set@.contains(h));
        }
        r
    }

    open spec fn name_spec(&self) -> Seq<char> {
        "breadth-first search"@
    }

    fn get_name(&self) -> (r: String) {
        "breadth-first search".to_owned()
    }
}

/// A last-in-first-out frontier: depth-first search.
pub struct FrontierDFS {
    pub stack: Vec<State>,
    pub set: HashSet<u64>,
}

impl FrontierDFS {
    pub fn new() -> (r: FrontierDFS)
        ensures
            r.inv(),
            r.states().len() == 0,
    {
        let r = FrontierDFS { stack: Vec::new(), set: HashSet::with_capacity(65536) };
        proof {
            assert(r.states() =~= Seq::<State>::empty());
        }
        r
    }
}

impl Frontier for FrontierDFS {
    open spec fn states(&self) -> Seq<State> {
        self.stack@
    }

    open spec fn inv(&self) -> bool {
        set_mirrors(self.stack@, self.set@)
    }

    open spec fn pop_choice(&self) -> int {
        self.stack@.len() - 1
    }

    proof fn lemma_pop_choice_in_range(&self) {
    }

    fn add(&mut self, state: State) {
        let h = state.hash;
        self.stack.push(state);
        self.set.insert(h);
        proof {
            assert(old(self).states() == old(self).stack@);
            assert(self.set@ == old(self).set@.insert(h));
            assert(self.stack@ =~= old(self).stack@.push(state));
            assert forall|t: int, u: int|
                0 <= t < self.stack@.len() && 0 <= u < self.stack@.len() && t != u
                implies (#[trigger] self.stack@[t]).hash != (#[trigger] self.stack@[u]).hash by {
                if t == self.stack@.len() - 1 {
                    assert(old(self).states()[u].hash != state.hash);
                } else if u == self.stack@.len() - 1 {
                    assert(old(self).states()[t].hash != state.hash);
                }
            }
            assert forall|t: int| 0 <= t < self.stack@.len() implies self.set@.contains(
                (#[trigger] self.stack@[t]).hash,
            ) by {
                if t < self.stack@.len() - 1 {
                    assert(old(self).set@.contains(old(self).stack@[t].hash));
                }
            }
            assert forall|hh: u64| self.set@.contains(hh) implies exists|t: int|
                0 <= t < self.stack@.len() && (#[trigger] self.stack@[t]).hash == hh by {
                if hh == h {
                    assert(self.stack@[self.stack@.len() - 1].hash == hh);
                } else {
                    let t = choose|t: int|
                        0 <= t < old(self).stack@.len() && (#[trigger] old(self).stack@[t]).hash
                            == hh;
                    assert(self.stack@[t].hash == hh);
                }
            }
        }
    }

    #[verifier::rlimit(50)]
    fn pop(&mut self) -> (r: Option<State>) {
        match self.stack.pop() {
            None => {
                proof {
                    assert(self.stack@ =~= old(self).stack@);
                }
                None
            },
            Some(state) => {
                let h = state.hash;
                self.set.remove(&h);
                proof {
                    assert(self.stack@ =~= old(self).stack@.remove(old(self).stack@.len() - 1));
                    assert forall|hh: u64| self.set@.contains(hh) implies exists|t: int|
                        0 <= t < self.stack@.len() && (#[trigger] self.stack@[t]).hash == hh by {
                        let t = choose|t: int|
                            0 <= t < old(self).stack@.len() && (#[trigger] old(
                                self,
                            ).stack@[t]).hash == hh;
                        assert(t != old(self).stack@.len() - 1);
                        assert(self.stack@[t].hash == hh);
                    }
                }
                Some(state)
            },
        }
    }

    fn is_empty(&self) -> (r: bool) {
        self.stack.len() == 0
    }

    fn size(&self) -> (r: usize) {
        self.stack.len()
    }

    fn contains(&self, state: &State) -> (r: bool) {
        let h = state.hash;
        let r = self.set.contains(&h);
        proof {
            assert(r == self.set@.contains(h));
        }
        r
    }

    open spec fn name_spec(&self) -> Seq<char> {
        "depth-first search"@
    }

    fn get_name(&self) -> (r: String) {
        "depth-first search".to_owned()
    }
}

/// The earliest index holding the minimal stored priority.
pub open spec fn first_min(q: Seq<(State, isize)>) -> int
    decreases q.len(),
{
    if q.len() <= 1 {
        0
    } else {
        let rest = first_min(q.drop_last());
        if q.last().1 < q[rest].1 {
            q.len() - 1
        } else {
            rest
        }
    }
}

proof fn lemma_first_min_range(q: Seq<(State, isize)>)
    requires
        q.len() > 0,
    ensures
        0 <= first_min(q) < q.len(),
    decreases q.len(),
{
    if q.len() > 1 {
        lemma_first_min_range(q.drop_last());
    }
}

/// A min-priority frontier: best-first search. The priority f(s) is
/// computed once, when a state is inserted; ties go to the state inserted
/// first.
pub struct FrontierBestFirst {
    pub heuristic: HeuristicEnum,
    pub queue: Vec<(State, isize)>,
    pub set: HashSet<u64>,
}

impl FrontierBestFirst {
    pub fn new(heuristic: HeuristicEnum) -> (r: FrontierBestFirst)
        ensures
            r.inv(),
            r.states().len() == 0,
            r.heuristic == heuristic,
    {
        let r = FrontierBestFirst {
            heuristic,
            queue: Vec::new(),
            set: HashSet::with_capacity(65536),
        };
        proof {
            assert(r.states() =~= Seq::<State>::empty());
        }
        r
    }
}

impl Frontier for FrontierBestFirst {
    open spec fn states(&self) -> Seq<State> {
        self.queue@.map_values(|p: (State, isize)| p.0)
    }

    open spec fn inv(&self) -> bool {
        &&& set_mirrors(self.states(), self.set@)
        &&& forall|t: int|
            0 <= t < self.queue@.len() ==> (#[trigger] self.queue@[t]).1 as int
                == self.heuristic.f_spec(self.queue@[t].0)
        &&& forall|t: int| 0 <= t < self.queue@.len() ==> (#[trigger] self.queue@[t]).0.wf()
    }

    open spec fn pop_choice(&self) -> int {
        first_min(self.queue@)
    }

    proof fn lemma_pop_choice_in_range(&self) {
        lemma_first_min_range(self.queue@);
    }

    fn add(&mut self, state: State) {
        let pri = self.heuristic.f(&state);
        let h = state.hash;
        self.queue.push((state, pri));
        self.set.insert(h);
        proof {
            assert(old(self).states() == old(self).queue@.map_values(
                |p: (State, isize)| p.0,
            ));
            assert(self.states() =~= old(self).states().push(state));
            assert(self.set@ == old(self).set@.insert(h));
            assert forall|t: int, u: int|
                0 <= t < self.states().len() && 0 <= u < self.states().len() && t != u
                implies (#[trigger] self.states()[t]).hash != (#[trigger] self.states()[u]).hash
                by {
                if t == self.states().len() - 1 {
                    assert(old(self).states()[u].hash != state.hash);
                } else if u == self.states().len() - 1 {
                    assert(old(self).states()[t].hash != state.hash);
                }
            }
            assert forall|t: int| 0 <= t < self.states().len() implies self.set@.contains(
                (#[trigger] self.states()[t]).hash,
            ) by {
                if t < self.states().len() - 1 {
                    assert(old(self).set@.contains(old(self).states()[t].hash));
                }
            }
            assert forall|hh: u64| self.set@.contains(hh) implies exists|t: int|
                0 <= t < self.states().len() && (#[trigger] self.states()[t]).hash == hh by {
                if hh == h {
                    assert(self.states()[self.states().len() - 1].hash == hh);
                } else {
                    let t = choose|t: int|
                        0 <= t < old(self).states().len() && (#[trigger] old(
                            self,
                        ).states()[t]).hash == hh;
                    assert(self.states()[t].hash == hh);
                }
            }
        }
    }

    fn pop(&mut self) -> (r: Option<State>) {
        let n = self.queue.len();
        if n == 0 {
            return None;
        }
        let mut best: usize = 0;
        let mut i: usize = 1;
        while i < n
            invariant
                1 <= i <= n,
                n == self.queue@.len(),
                0 <= best < i,
                best as int == first_min(self.queue@.take(i as int)),
            decreases n - i,
        {
            proof {
                assert(self.queue@.take(i as int + 1).drop_last() =~= self.queue@.take(i as int));
                assert(self.queue@.take(i as int + 1).last() == self.queue@[i as int]);
                lemma_first_min_range(self.queue@.take(i as int));
            }
            if self.queue[i].1 < self.queue[best].1 {
                best = i;
            }
            i += 1;
        }
        proof {
            assert(self.queue@.take(n as int) =~= self.queue@);
        }
        let pair = self.queue.remove(best);
        let state = pair.0;
        let h = state.hash;
        self.set.remove(&h);
        proof {
            let ghost oldq = old(self).queue@;
            let ghost olds = old(self).states();
            assert(olds == oldq.map_values(|p: (State, isize)| p.0));
            assert(state == olds[best as int]);
            assert(self.states() =~= olds.remove(best as int));
            assert forall|hh: u64| self.set@.contains(hh) implies exists|t: int|
                0 <= t < self.states().len() && (#[trigger] self.states()[t]).hash == hh by {
                let t = choose|t: int|
                    0 <= t < olds.len() && (#[trigger] olds[t]).hash == hh;
                assert(t != best);
                if t < best {
                    assert(self.states()[t].hash == hh);
                } else {
                    assert(self.states()[t - 1].hash == hh);
                }
            }
        }
        Some(state)
    }

    fn is_empty(&self) -> (r: bool) {
        self.queue.len() == 0
    }

    fn size(&self) -> (r: usize) {
        self.queue.len()
    }

    fn contains(&self, state: &State) -> (r: bool) {
        let h = state.hash;
        let r = self.set.contains(&h);
        proof {
            assert(r == self.set@.contains(h));
        }
        r
    }

    open spec fn name_spec(&self) -> Seq<char> {
        "best-first search using "@ + self.heuristic.name_spec()
    }

    fn get_name(&self) -> (r: String) {
        let mut out = "best-first search using ".to_owned();
        let inner = self.heuristic.name();
        out.append(inner.as_str());
        out
    }
}

} // verus!
