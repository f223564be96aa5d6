//! The graph-search driver: seeds the chosen frontier with the root state,
//! pops and expands states until a goal state appears or the frontier
//! drains, filters duplicates through an expanded-hash set, and extracts
//! the plan by walking the parent chain.

use std::collections::HashSet;
use std::rc::Rc;
use vstd::prelude::*;
use crate::action::Action;
use crate::frontier::{Frontier, FrontierBFS};
use crate::model::Model;
use crate::state::{State, spec_state_hash, lemma_plan_ok_unsnoc};
use crate::successor::{spec_shuffled, spec_kept, expansion_post, lemma_expansion_complete};

verus! {

broadcast use {
    vstd::std_specs::hash::group_hash_axioms,
    vstd::std_specs::hash::axiom_set_contains_deref_key,
};

/// A state that the search may hold: well-formed and descended from the
/// given root.
pub open spec fn rooted(s: State, init: State) -> bool {
    &&& s.wf()
    &&& s.root_of() == init
}


/// A plan that leads from the first model to the second.
pub open spec fn reaches(m0: Model, p: Seq<Seq<Action>>, m: Model) -> bool {
    m0.plan_ok(p) && m0.run_plan(p) == m
}

/// No two distinct states reachable from this root share a structural
/// hash. The duplicate sets key on 64-bit hashes alone, so breadth-first
/// optimality holds exactly on collision-free levels.
pub open spec fn collision_free(m0: Model) -> bool {
    forall|p1: Seq<Seq<Action>>, p2: Seq<Seq<Action>>|
        m0.plan_ok(p1) && m0.plan_ok(p2) && spec_state_hash(#[trigger] m0.run_plan(p1))
            == spec_state_hash(#[trigger] m0.run_plan(p2)) ==> m0.run_plan(p1) == m0.run_plan(p2)
}

/// The bookkeeping that carries breadth-first optimality between
/// expansions: every expanded model is reachable, is no goal, and is
/// mirrored in the expanded-hash set; every queued state carries its true
/// distance from the root; every model strictly closer than the queue's
/// head has already been expanded; and expanded models step only into
/// expanded or queued models.
#[verifier::opaque]
pub open spec fn bfs_inv(m0: Model, emodels: Set<Model>, fr: Seq<State>, xs: Set<u64>) -> bool {
    &&& forall|m: Model| #[trigger]
        emodels.contains(m) ==> (exists|p: Seq<Seq<Action>>| reaches(m0, p, m)) && !m.is_goal()
            && xs.contains(spec_state_hash(m))
    &&& forall|h: u64| #[trigger]
        xs.contains(h) ==> exists|m: Model| emodels.contains(m) && spec_state_hash(m) == h
    &&& forall|i: int, p: Seq<Seq<Action>>|
        #![trigger fr[i], m0.run_plan(p)]
        0 <= i < fr.len() && reaches(m0, p, fr[i]@) ==> p.len() >= fr[i].g
    &&& fr.len() > 0 ==> forall|p: Seq<Seq<Action>>|
        m0.plan_ok(p) && p.len() < fr[0].g ==> emodels.contains(#[trigger] m0.run_plan(p))
    &&& forall|m: Model, ja: Seq<Action>|
        emodels.contains(m) && m.joint_applicable(ja) && !m.conflicting(ja)
            ==> emodels.contains(#[trigger] m.step(ja)) || exists|i: int|
            0 <= i < fr.len() && (#[trigger] fr[i])@ == m.step(ja)
    &&& emodels.contains(m0) || exists|i: int| 0 <= i < fr.len() && (#[trigger] fr[i])@ == m0
}

/// The same bookkeeping while one state is mid-expansion: its first `done`
/// shuffled joint actions are already accounted for.
#[verifier::opaque]
pub open spec fn bfs_mid_inv(
    m0: Model,
    emodels: Set<Model>,
    fr: Seq<State>,
    xs: Set<u64>,
    sm: Model,
    sc: Seq<Seq<Action>>,
    done: int,
    d: int,
) -> bool {
    &&& emodels.contains(sm)
    &&& forall|m: Model| #[trigger]
        emodels.contains(m) ==> (exists|p: Seq<Seq<Action>>| reaches(m0, p, m)) && !m.is_goal()
            && xs.contains(spec_state_hash(m))
    &&& forall|h: u64| #[trigger]
        xs.contains(h) ==> exists|m: Model| emodels.contains(m) && spec_state_hash(m) == h
    &&& forall|i: int, p: Seq<Seq<Action>>|
        #![trigger fr[i], m0.run_plan(p)]
        0 <= i < fr.len() && reaches(m0, p, fr[i]@) ==> p.len() >= fr[i].g
    &&& forall|p: Seq<Seq<Action>>|
        m0.plan_ok(p) && p.len() < d ==> emodels.contains(#[trigger] m0.run_plan(p))
    &&& forall|m: Model, ja: Seq<Action>|
        emodels.contains(m) && m != sm && m.joint_applicable(ja) && !m.conflicting(ja)
            ==> emodels.contains(#[trigger] m.step(ja)) || exists|i: int|
            0 <= i < fr.len() && (#[trigger] fr[i])@ == m.step(ja)
    &&& forall|q: int|
        0 <= q < done ==> emodels.contains(#[trigger] sm.step(sc[q])) || exists|i: int|
            0 <= i < fr.len() && (#[trigger] fr[i])@ == sm.step(sc[q])
    &&& forall|p: Seq<Seq<Action>>| reaches(m0, p, sm) ==> p.len() >= d
    &&& (d == 0 ==> sm == m0)
    &&& emodels.contains(m0) || exists|i: int| 0 <= i < fr.len() && (#[trigger] fr[i])@ == m0
}

/// What the expansion promises of the successor standing at shuffled
/// position q: well-formed, rooted like its parent, one step costlier, and
/// carrying exactly that joint action.
#[verifier::opaque]
pub open spec fn succ_fact(
    t: State,
    init: State,
    s: State,
    sc: Seq<Seq<Action>>,
    q: int,
    d: int,
) -> bool {
    &&& t.wf()
    &&& t.root_of() == init
    &&& t.g == d + 1
    &&& t@ == s@.step(sc[q])
    &&& t.parent matches Some(pp) && (*pp) == s
    &&& t.joint_action matches Some(j) && j@ == sc[q]
}

pub struct GraphSearch {}

impl GraphSearch {


    /// With the frontier drained, the expanded models are closed under
    /// every applicable, conflict-free joint action; since the root is
    /// among them, every executable plan ends inside them.
    proof fn lemma_exhausted(m0: Model, emodels: Set<Model>, p: Seq<Seq<Action>>)
        requires
            emodels.contains(m0),
            forall|m: Model, ja: Seq<Action>|
                emodels.contains(m) && m.joint_applicable(ja) && !m.conflicting(ja)
                    ==> emodels.contains(#[trigger] m.step(ja)),
            m0.plan_ok(p),
        ensures
            emodels.contains(m0.run_plan(p)),
        decreases p.len(),
    {
        if p.len() == 0 {
            assert(m0.run_plan(p) == m0);
        } else {
            lemma_plan_ok_unsnoc(m0, p);
            Self::lemma_exhausted(m0, emodels, p.drop_last());
            let mp = m0.run_plan(p.drop_last());
            assert(emodels.contains(mp.step(p.last())));
        }
    }

    /// A plan no longer than the current layer ends in a state that the
    /// expanded-hash set or the frontier already accounts for.
    proof fn lemma_shallow_plan_known(
        m0: Model,
        p: Seq<Seq<Action>>,
        tm: Model,
        emodels: Set<Model>,
        xs: Set<u64>,
        fr: Seq<State>,
        sm: Model,
        d: int,
        th: u64,
        sc: Seq<Seq<Action>>,
        done: int,
    )
        requires
            bfs_mid_inv(m0, emodels, fr, xs, sm, sc, done, d),
            reaches(m0, p, tm),
            p.len() <= d,
            th == spec_state_hash(tm),
            forall|u: int| 0 <= u < fr.len() ==> (#[trigger] fr[u]).wf(),
        ensures
            xs.contains(th) || exists|u: int| 0 <= u < fr.len() && (#[trigger] fr[u]).hash == th,
    {
        reveal(bfs_mid_inv);
        if p.len() < d {
            assert(emodels.contains(tm));
            assert(xs.contains(spec_state_hash(tm)));
        } else if d == 0 {
            assert(p =~= Seq::<Seq<Action>>::empty());
            assert(tm == m0);
            assert(emodels.contains(sm));
            assert(xs.contains(spec_state_hash(sm)));
        } else if p.len() == d {
            lemma_plan_ok_unsnoc(m0, p);
            let p2 = p.drop_last();
            let mp = m0.run_plan(p2);
            assert(emodels.contains(mp));
            if mp == sm {
                assert(reaches(m0, p2, sm));
                assert(p2.len() >= d);
            } else {
                assert(emodels.contains(mp.step(p.last())) || exists|i: int|
                    0 <= i < fr.len() && (#[trigger] fr[i])@ == mp.step(p.last()));
                assert(mp.step(p.last()) == tm);
                if emodels.contains(tm) {
                    assert(xs.contains(spec_state_hash(tm)));
                } else {
                    let u = choose|i: int| 0 <= i < fr.len() && (#[trigger] fr[i])@ == tm;
                    assert(fr[u].hash == spec_state_hash(fr[u]@));
                    assert(fr[u].hash == th);
                }
            }
        }
    }

    /// Once a layer is fully expanded, every model one step deeper than the
    /// previous layer is expanded or queued; combined with the queued
    /// states' distance law, everything shallower than the new head is
    /// expanded.
    proof fn lemma_layer_advance(
        m0: Model,
        p: Seq<Seq<Action>>,
        emodels: Set<Model>,
        fr: Seq<State>,
        sm: Model,
        d: int,
    )
        requires
            m0.plan_ok(p),
            p.len() == d,
            emodels.contains(sm),
            d == 0 ==> sm == m0,
            forall|p2: Seq<Seq<Action>>|
                m0.plan_ok(p2) && p2.len() < d ==> emodels.contains(#[trigger] m0.run_plan(p2)),
            forall|p2: Seq<Seq<Action>>| reaches(m0, p2, sm) ==> p2.len() >= d,
            forall|m: Model, ja: Seq<Action>|
                emodels.contains(m) && m.joint_applicable(ja) && !m.conflicting(ja)
                    ==> emodels.contains(#[trigger] m.step(ja)) || exists|i: int|
                    0 <= i < fr.len() && (#[trigger] fr[i])@ == m.step(ja),
            forall|i: int, p2: Seq<Seq<Action>>|
                #![trigger fr[i], m0.run_plan(p2)]
                0 <= i < fr.len() && reaches(m0, p2, fr[i]@) ==> p2.len() >= fr[i].g,
            forall|i: int| 0 <= i < fr.len() ==> (#[trigger] fr[i]).g >= d + 1,
        ensures
            emodels.contains(m0.run_plan(p)),
    {
        if d == 0 {
            assert(p =~= Seq::<Seq<Action>>::empty());
            assert(m0.run_plan(p) == sm);
        } else {
            lemma_plan_ok_unsnoc(m0, p);
            let p2 = p.drop_last();
            let mp = m0.run_plan(p2);
            assert(emodels.contains(mp));
            assert(emodels.contains(mp.step(p.last())) || exists|i: int|
                0 <= i < fr.len() && (#[trigger] fr[i])@ == mp.step(p.last()));
            if !emodels.contains(m0.run_plan(p)) {
                let u = choose|i: int| 0 <= i < fr.len() && (#[trigger] fr[i])@ == m0.run_plan(p);
                assert(reaches(m0, p, fr[u]@));
                assert(p.len() >= fr[u].g);
                assert(false);
            }
        }
    }

    /// Folding one generated successor into the mid-expansion bookkeeping
    /// when it is new and enters the frontier.
    proof fn lemma_mid_step_added(
        m0: Model,
        emodels: Set<Model>,
        xs: Set<u64>,
        fr_pre: Seq<State>,
        fr_post: Seq<State>,
        sm: Model,
        sc: Seq<Seq<Action>>,
        done: int,
        d: int,
        t: State,
    )
        requires
            collision_free(m0),
            bfs_mid_inv(m0, emodels, fr_pre, xs, sm, sc, done, d),
            fr_post == fr_pre.push(t),
            t.wf(),
            t@ == sm.step(sc[done]),
            t.g == d + 1,
            reaches(m0, t.plan_of(), t@),
            t.plan_of().len() == d + 1,
            !xs.contains(t.hash),
            forall|u: int| 0 <= u < fr_pre.len() ==> (#[trigger] fr_pre[u]).hash != t.hash,
            forall|u: int| 0 <= u < fr_pre.len() ==> (#[trigger] fr_pre[u]).wf(),
            0 <= done,
        ensures
            bfs_mid_inv(m0, emodels, fr_post, xs, sm, sc, done + 1, d),
    {
        reveal(bfs_mid_inv);
        assert forall|i: int, p: Seq<Seq<Action>>|
            #![trigger fr_post[i], m0.run_plan(p)]
            0 <= i < fr_post.len() && reaches(m0, p, fr_post[i]@) implies p.len()
            >= fr_post[i].g by {
            if i < fr_pre.len() {
                assert(fr_post[i] == fr_pre[i]);
            } else {
                assert(fr_post[i] == t);
                if p.len() < d + 1 {
                    Self::lemma_shallow_plan_known(
                        m0,
                        p,
                        t@,
                        emodels,
                        xs,
                        fr_pre,
                        sm,
                        d,
                        t.hash,
                        sc,
                        done,
                    );
                }
            }
        }
        assert forall|m: Model, ja: Seq<Action>|
            emodels.contains(m) && m != sm && m.joint_applicable(ja) && !m.conflicting(ja)
            implies emodels.contains(#[trigger] m.step(ja)) || exists|i: int|
            0 <= i < fr_post.len() && (#[trigger] fr_post[i])@ == m.step(ja) by {
            if !emodels.contains(m.step(ja)) {
                let i = choose|i: int|
                    0 <= i < fr_pre.len() && (#[trigger] fr_pre[i])@ == m.step(ja);
                assert(fr_post[i]@ == m.step(ja));
            }
        }
        assert forall|q: int| 0 <= q < done + 1 implies emodels.contains(
            #[trigger] sm.step(sc[q]),
        ) || exists|i: int|
            0 <= i < fr_post.len() && (#[trigger] fr_post[i])@ == sm.step(sc[q]) by {
            if q == done {
                assert(fr_post[fr_post.len() - 1]@ == sm.step(sc[q]));
            } else {
                if !emodels.contains(sm.step(sc[q])) {
                    let i = choose|i: int|
                        0 <= i < fr_pre.len() && (#[trigger] fr_pre[i])@ == sm.step(sc[q]);
                    assert(fr_post[i]@ == sm.step(sc[q]));
                }
            }
        }
        if !emodels.contains(m0) {
            let i = choose|i: int| 0 <= i < fr_pre.len() && (#[trigger] fr_pre[i])@ == m0;
            assert(fr_post[i]@ == m0);
        }
    }

    /// Folding one generated successor into the mid-expansion bookkeeping
    /// when a hash hit shows it is already expanded or queued.
    proof fn lemma_mid_step_skipped(
        m0: Model,
        emodels: Set<Model>,
        xs: Set<u64>,
        fr: Seq<State>,
        sm: Model,
        sc: Seq<Seq<Action>>,
        done: int,
        d: int,
        t: State,
        in_x: bool,
    )
        requires
            collision_free(m0),
            bfs_mid_inv(m0, emodels, fr, xs, sm, sc, done, d),
            t.wf(),
            t@ == sm.step(sc[done]),
            reaches(m0, t.plan_of(), t@),
            in_x ==> xs.contains(t.hash),
            !in_x ==> exists|u: int| 0 <= u < fr.len() && (#[trigger] fr[u]).hash == t.hash,
            forall|u: int| 0 <= u < fr.len() ==> (#[trigger] fr[u]).wf(),
            forall|u: int| 0 <= u < fr.len() ==> (#[trigger] fr[u]).root_of()@ == m0,
            0 <= done,
        ensures
            bfs_mid_inv(m0, emodels, fr, xs, sm, sc, done + 1, d),
    {
        reveal(bfs_mid_inv);
        assert forall|q: int| 0 <= q < done + 1 implies emodels.contains(
            #[trigger] sm.step(sc[q]),
        ) || exists|i: int| 0 <= i < fr.len() && (#[trigger] fr[i])@ == sm.step(sc[q]) by {
            if q == done {
                if in_x {
                    let me = choose|m: Model|
                        emodels.contains(m) && spec_state_hash(m) == t.hash;
                    let pw = choose|p: Seq<Seq<Action>>| reaches(m0, p, me);
                    assert(spec_state_hash(me) == spec_state_hash(t@));
                    assert(m0.run_plan(pw) == me);
                    assert(m0.run_plan(t.plan_of()) == t@);
                    assert(me == t@);
                    assert(emodels.contains(sm.step(sc[q])));
                } else {
                    let u = choose|u: int|
                        0 <= u < fr.len() && (#[trigger] fr[u]).hash == t.hash;
                    let us = fr[u];
                    us.lemma_plan_wellformed();
                    assert(reaches(m0, us.plan_of(), us@));
                    assert(spec_state_hash(us@) == spec_state_hash(t@));
                    assert(us@ == t@);
                }
            }
        }
    }

    /// When every successor of the expanded state has been folded in, the
    /// full between-expansions bookkeeping holds again.
    proof fn lemma_layer_done(
        m0: Model,
        emodels: Set<Model>,
        xs: Set<u64>,
        fr: Seq<State>,
        sm: Model,
        sc: Seq<Seq<Action>>,
        d: int,
    )
        requires
            collision_free(m0),
            bfs_mid_inv(m0, emodels, fr, xs, sm, sc, sc.len() as int, d),
            sc == spec_shuffled(sm),
            sc.len() <= usize::MAX,
            forall|i: int| 0 <= i < fr.len() ==> d <= (#[trigger] fr[i]).g <= d + 1,
            forall|i: int, j: int|
                0 <= i <= j < fr.len() ==> (#[trigger] fr[i]).g <= (#[trigger] fr[j]).g,
        ensures
            bfs_inv(m0, emodels, fr, xs),
    {
        reveal(bfs_mid_inv);
        reveal(bfs_inv);
        reveal(spec_shuffled);
        assert forall|m: Model, ja: Seq<Action>|
            emodels.contains(m) && m.joint_applicable(ja) && !m.conflicting(ja)
            implies emodels.contains(#[trigger] m.step(ja)) || exists|i: int|
            0 <= i < fr.len() && (#[trigger] fr[i])@ == m.step(ja) by {
            if m == sm {
                assert(spec_kept(sm).len() == sc.len());
                lemma_expansion_complete(sm, ja);
                let q = choose|q: int|
                    0 <= q < spec_shuffled(sm).len() && spec_shuffled(sm)[q] == ja;
                assert(emodels.contains(sm.step(sc[q])) || exists|i: int|
                    0 <= i < fr.len() && (#[trigger] fr[i])@ == sm.step(sc[q]));
            }
        }
        if fr.len() > 0 {
            let hg = fr[0].g as int;
            assert forall|p: Seq<Seq<Action>>|
                m0.plan_ok(p) && p.len() < hg implies emodels.contains(
                #[trigger] m0.run_plan(p),
            ) by {
                if p.len() < d {
                } else {
                    assert(p.len() == d && hg == d + 1);
                    assert forall|i: int| 0 <= i < fr.len() implies (#[trigger] fr[i]).g == d
                        + 1 by {
                        assert(fr[0].g <= fr[i].g);
                    }
                    Self::lemma_layer_advance(m0, p, emodels, fr, sm, d);
                }
            }
        }
    }

    /// Entering an expansion: popping the head, recording its model and
    /// hash, and preparing to fold in its successors.
    proof fn lemma_begin_expansion(
        m0: Model,
        e_top: Set<Model>,
        x_top: Set<u64>,
        pre: Seq<State>,
        fr: Seq<State>,
        s: State,
        emodels: Set<Model>,
        xs: Set<u64>,
        sc: Seq<Seq<Action>>,
        d: int,
    )
        requires
            collision_free(m0),
            bfs_inv(m0, e_top, pre, x_top),
            pre.len() > 0,
            s == pre[0],
            fr == pre.remove(0),
            s.wf(),
            d == s.g,
            reaches(m0, s.plan_of(), s@),
            s.plan_of().len() == d,
            !s@.is_goal(),
            d == 0 ==> s@ == m0,
            emodels == e_top.insert(s@),
            xs == x_top.insert(spec_state_hash(s@)),
        ensures
            bfs_mid_inv(m0, emodels, fr, xs, s@, sc, 0, d),
    {
        reveal(bfs_inv);
        reveal(bfs_mid_inv);
        assert forall|m: Model| #[trigger] emodels.contains(m) implies (exists|
            p: Seq<Seq<Action>>,
        | reaches(m0, p, m)) && !m.is_goal() && xs.contains(spec_state_hash(m)) by {
            if m == s@ {
                assert(reaches(m0, s.plan_of(), s@));
            }
        }
        assert forall|h: u64| #[trigger] xs.contains(h) implies exists|m: Model|
            emodels.contains(m) && spec_state_hash(m) == h by {
            if h != spec_state_hash(s@) {
                let mw = choose|m: Model| e_top.contains(m) && spec_state_hash(m) == h;
                assert(emodels.contains(mw) && spec_state_hash(mw) == h);
            } else {
                assert(emodels.contains(s@) && spec_state_hash(s@) == h);
            }
        }
        assert forall|q2: int, p: Seq<Seq<Action>>|
            #![trigger fr[q2], m0.run_plan(p)]
            0 <= q2 < fr.len() && reaches(m0, p, fr[q2]@) implies p.len() >= fr[q2].g by {
            assert(fr[q2] == pre[q2 + 1]);
        }
        assert forall|m: Model, ja: Seq<Action>|
            emodels.contains(m) && m != s@ && m.joint_applicable(ja) && !m.conflicting(ja)
            implies emodels.contains(#[trigger] m.step(ja)) || exists|i: int|
            0 <= i < fr.len() && (#[trigger] fr[i])@ == m.step(ja) by {
            assert(e_top.contains(m));
            if !e_top.contains(m.step(ja)) {
                let i = choose|i: int| 0 <= i < pre.len() && (#[trigger] pre[i])@ == m.step(ja);
                if i == 0 {
                    assert(m.step(ja) == s@);
                } else {
                    assert(fr[i - 1]@ == m.step(ja));
                }
            }
        }
        assert forall|p: Seq<Seq<Action>>| m0.plan_ok(p) && p.len() < d implies emodels.contains(
            #[trigger] m0.run_plan(p),
        ) by {
            assert(e_top.contains(m0.run_plan(p)));
        }
        assert forall|p: Seq<Seq<Action>>| reaches(m0, p, s@) implies p.len() >= d by {
            assert(pre[0]@ == s@);
        }
        if !e_top.contains(m0) {
            let i = choose|i: int| 0 <= i < pre.len() && (#[trigger] pre[i])@ == m0;
            if i == 0 {
                assert(emodels.contains(m0));
            } else {
                assert(fr[i - 1]@ == m0);
            }
        }
    }

    /// Each freshly generated successor satisfies the per-successor facts.
    proof fn lemma_succ_facts(
        s: State,
        succs: Seq<State>,
        init: State,
        sc: Seq<Seq<Action>>,
        d: int,
    )
        requires
            expansion_post(s, succs),
            sc == spec_shuffled(s@),
            s.root_of() == init,
            d == s.g,
        ensures
            forall|x: int|
                0 <= x < succs.len() ==> succ_fact(#[trigger] succs[x], init, s, sc, x, d),
    {
        reveal(succ_fact);
        reveal(expansion_post);
        assert forall|x: int| 0 <= x < succs.len() implies succ_fact(
            #[trigger] succs[x],
            init,
            s,
            sc,
            x,
            d,
        ) by {
            let t = succs[x];
            assert(t.wf() && t@ == s@.step(sc[x]) && t.g == s.g + 1);
            assert(t.parent matches Some(pp) && (*pp) == s);
            assert(t.root_of() == s.root_of());
        }
    }
    /// Folds the generated successors of one expanded state into the
    /// frontier, one by one, skipping any whose hash is already expanded
    /// or queued.
    #[verifier::rlimit(100)]
    fn bfs_fold(
        frontier: &mut FrontierBFS,
        expanded: &HashSet<u64>,
        succs: Vec<State>,
        Ghost(init): Ghost<State>,
        Ghost(s): Ghost<State>,
        Ghost(sc): Ghost<Seq<Seq<Action>>>,
        Ghost(d): Ghost<int>,
        Ghost(e_mid): Ghost<Set<Model>>,
    )
        requires
            init.wf(),
            init.is_root(),
            old(frontier).inv(),
            sc == spec_shuffled(s@),
            succs@.len() == sc.len(),
            sc.len() <= usize::MAX,
            0 <= d < usize::MAX,
            forall|t: int|
                0 <= t < old(frontier).states().len() ==> rooted(
                    #[trigger] old(frontier).states()[t],
                    init,
                ),
            forall|i: int, j: int|
                0 <= i <= j < old(frontier).states().len() ==> (
                #[trigger] old(frontier).states()[i]).g <= (
                #[trigger] old(frontier).states()[j]).g,
            forall|i: int|
                0 <= i < old(frontier).states().len() ==> d <= (
                #[trigger] old(frontier).states()[i]).g <= d + 1,
            forall|i: int|
                0 <= i < old(frontier).states().len() ==> !expanded@.contains(
                    (#[trigger] old(frontier).states()[i]).hash,
                ),
            forall|x: int|
                0 <= x < succs@.len() ==> succ_fact(#[trigger] succs@[x], init, s, sc, x, d),
            collision_free(init@) ==> bfs_mid_inv(
                init@,
                e_mid,
                old(frontier).states(),
                expanded@,
                s@,
                sc,
                0,
                d,
            ),
        ensures
            final(frontier).inv(),
            forall|t: int|
                0 <= t < final(frontier).states().len() ==> rooted(
                    #[trigger] final(frontier).states()[t],
                    init,
                ),
            forall|i: int, j: int|
                0 <= i <= j < final(frontier).states().len() ==> (
                #[trigger] final(frontier).states()[i]).g <= (
                #[trigger] final(frontier).states()[j]).g,
            forall|i: int|
                0 <= i < final(frontier).states().len() ==> d <= (
                #[trigger] final(frontier).states()[i]).g <= d + 1,
            forall|i: int|
                0 <= i < final(frontier).states().len() ==> !expanded@.contains(
                    (#[trigger] final(frontier).states()[i]).hash,
                ),
            collision_free(init@) ==> bfs_mid_inv(
                init@,
                e_mid,
                final(frontier).states(),
                expanded@,
                s@,
                sc,
                sc.len() as int,
                d,
            ),
    {
        let ghost m0 = init@;
        let ghost total = sc.len() as int;
        let mut succs = succs;
        let ghost mut done: int = 0;
        while succs.len() > 0
            invariant
                frontier.inv(),
                init.wf(),
                init.is_root(),
                init@ == m0,
                sc == spec_shuffled(s@),
                0 <= done,
                done + succs@.len() == total,
                total == sc.len(),
                total <= usize::MAX,
                0 <= d,
                d < usize::MAX,
                forall|t: int|
                    0 <= t < frontier.states().len() ==> rooted(
                        #[trigger] frontier.states()[t],
                        init,
                    ),
                forall|i: int, j: int|
                    0 <= i <= j < frontier.states().len() ==> (
                    #[trigger] frontier.states()[i]).g <= (#[trigger] frontier.states()[j]).g,
                forall|i: int|
                    0 <= i < frontier.states().len() ==> d <= (
                    #[trigger] frontier.states()[i]).g <= d + 1,
                forall|i: int|
                    0 <= i < frontier.states().len() ==> !expanded@.contains(
                        (#[trigger] frontier.states()[i]).hash,
                    ),
                forall|x: int|
                    0 <= x < succs@.len() ==> succ_fact(
                        #[trigger] succs@[x],
                        init,
                        s,
                        sc,
                        done + x,
                        d,
                    ),
                collision_free(m0) ==> bfs_mid_inv(
                    m0,
                    e_mid,
                    frontier.states(),
                    expanded@,
                    s@,
                    sc,
                    done,
                    d,
                ),
            decreases succs@.len(),
        {
            let ghost fr_pre = frontier.states();
            let ghost succs_pre = succs@;
            let t = succs.remove(0);
            proof {
                assert(succ_fact(t, init, s, sc, done, d));
                reveal(succ_fact);
                assert(t@ == s@.step(sc[done]));
                t.lemma_plan_wellformed();
                t.lemma_g_is_plan_len();
                assert(reaches(m0, t.plan_of(), t@));
                assert(t.plan_of().len() == d + 1);
                assert forall|x: int| 0 <= x < succs@.len() implies succ_fact(
                    #[trigger] succs@[x],
                    init,
                    s,
                    sc,
                    done + 1 + x,
                    d,
                ) by {
                    assert(succs@[x] == succs_pre[x + 1]);
                    assert(succ_fact(succs_pre[x + 1], init, s, sc, done + (x + 1), d));
                }
            }
            let t_hash = t.calculate_hash();
            let in_frontier = frontier.contains(&t);
            let in_expanded = expanded.contains(&t_hash);
            if !in_frontier && !in_expanded {
                proof {
                    assert forall|u: int|
                        0 <= u < frontier.states().len() implies (
                    #[trigger] frontier.states()[u]).hash != t.hash by {
                        assert(frontier.states()[u].hash != t.hash);
                    }
                }
                frontier.add(t);
                proof {
                    if collision_free(m0) {
                        Self::lemma_mid_step_added(
                            m0,
                            e_mid,
                            expanded@,
                            fr_pre,
                            frontier.states(),
                            s@,
                            sc,
                            done,
                            d,
                            t,
                        );
                    }
                }
            } else {
                proof {
                    if collision_free(m0) {
                        Self::lemma_mid_step_skipped(
                            m0,
                            e_mid,
                            expanded@,
                            frontier.states(),
                            s@,
                            sc,
                            done,
                            d,
                            t,
                            in_expanded,
                        );
                    }
                }
            }
            proof {
                done = done + 1;
            }
        }
    }

    /// Expands one popped, non-goal state: records its hash, generates its
    /// successors, and folds each into the frontier unless its hash is
    /// already known. Returns the grown set of expanded models.
    #[verifier::rlimit(100)]
    fn bfs_expand(
        frontier: &mut FrontierBFS,
        expanded: &mut HashSet<u64>,
        s: State,
        Ghost(init): Ghost<State>,
        Ghost(pre): Ghost<Seq<State>>,
        Ghost(e_in): Ghost<Set<Model>>,
    ) -> (e_out: Ghost<Set<Model>>)
        requires
            init.wf(),
            init.is_root(),
            old(frontier).inv(),
            pre.len() > 0,
            s == pre[0],
            old(frontier).states() == pre.remove(0),
            forall|t: int| 0 <= t < pre.len() ==> rooted(#[trigger] pre[t], init),
            forall|i: int, j: int|
                0 <= i <= j < pre.len() ==> (#[trigger] pre[i]).g <= (#[trigger] pre[j]).g,
            forall|i: int| 0 <= i < pre.len() ==> (#[trigger] pre[i]).g <= pre[0].g + 1,
            forall|i: int, j: int|
                0 <= i < pre.len() && 0 <= j < pre.len() && i != j ==> (#[trigger] pre[i]).hash
                    != (#[trigger] pre[j]).hash,
            forall|i: int|
                0 <= i < pre.len() ==> !old(expanded)@.contains((#[trigger] pre[i]).hash),
            old(expanded)@.finite(),
            s.g <= old(expanded)@.len(),
            !s@.is_goal(),
            collision_free(init@) ==> bfs_inv(init@, e_in, pre, old(expanded)@),
        ensures
            final(expanded)@ == old(expanded)@.insert(s.hash),
            final(expanded)@.finite(),
            final(expanded)@.len() == old(expanded)@.len() + 1,
            final(frontier).inv(),
            forall|t: int|
                0 <= t < final(frontier).states().len() ==> rooted(
                    #[trigger] final(frontier).states()[t],
                    init,
                ),
            forall|i: int, j: int|
                0 <= i <= j < final(frontier).states().len() ==> (
                #[trigger] final(frontier).states()[i]).g <= (
                #[trigger] final(frontier).states()[j]).g,
            forall|i: int|
                0 <= i < final(frontier).states().len() ==> s.g <= (
                #[trigger] final(frontier).states()[i]).g <= s.g + 1,
            forall|i: int|
                0 <= i < final(frontier).states().len() ==> !final(expanded)@.contains(
                    (#[trigger] final(frontier).states()[i]).hash,
                ),
            collision_free(init@) ==> bfs_inv(
                init@,
                e_out@,
                final(frontier).states(),
                final(expanded)@,
            ),
    {
        let ghost m0 = init@;
        let ghost d = s.g as int;
        proof {
            assert(rooted(s, init));
            s.lemma_plan_wellformed();
            s.lemma_g_is_plan_len();
            assert(reaches(m0, s.plan_of(), s@));
            if d == 0 {
                assert(s.plan_of() =~= Seq::<Seq<Action>>::empty());
                assert(s@ == m0);
            }
        }
        let ghost e_top = e_in;
        let ghost x_top = expanded@;
        let s_hash = s.calculate_hash();
        expanded.insert(s_hash);
        proof {
            vstd::std_specs::hash::axiom_spec_hash_set_len(expanded);
            assert(expanded@ == x_top.insert(s.hash));
            assert(expanded@.len() == x_top.len() + 1);
            assert(s.g < usize::MAX);
        }
        let ghost emodels: Set<Model> = e_in.insert(s@);
        let s_rc = Rc::new(s);
        let succs = State::get_expanded_states(&s_rc);
        let scount = succs.len();
        let ghost sc = spec_shuffled(s@);
        proof {
            assert(expansion_post(s, succs@));
            assert(succs@.len() == sc.len()) by {
                reveal(expansion_post);
            }
            assert(scount as int == succs@.len());
            Self::lemma_succ_facts(s, succs@, init, sc, d);
            if collision_free(m0) {
                Self::lemma_begin_expansion(
                    m0,
                    e_top,
                    x_top,
                    pre,
                    frontier.states(),
                    s,
                    emodels,
                    expanded@,
                    sc,
                    d,
                );
            }
            assert forall|i: int|
                0 <= i < frontier.states().len() implies !expanded@.contains(
                (#[trigger] frontier.states()[i]).hash,
            ) by {
                assert(frontier.states()[i] == pre[i + 1]);
            }
        }
        Self::bfs_fold(
            frontier,
            expanded,
            succs,
            Ghost(init),
            Ghost(s),
            Ghost(sc),
            Ghost(d),
            Ghost(emodels),
        );
        proof {
            if collision_free(m0) {
                Self::lemma_layer_done(m0, emodels, expanded@, frontier.states(), s@, sc, d);
            }
        }
        Ghost(emodels)
    }

    /// Breadth-first graph search. A returned plan is sound, and a root
    /// that already satisfies every goal is promised the empty plan. On
    /// levels whose reachable states never collide under the structural
    /// hash, the full search semantics is pinned: a returned plan is
    /// optimal in plan length — no strictly shorter plan reaches a goal —
    /// and `None` means no executable plan reaches a goal at all. The loop
    /// terminates because every turn expands a state whose hash is new,
    /// and there are finitely many hashes.
    pub fn search_bfs(initial_state: State) -> (r: Option<Vec<Vec<Action>>>)
        requires
            initial_state.wf(),
            initial_state.is_root(),
        ensures
            r matches Some(plan) ==> initial_state@.solves(plan.deep_view()),
            initial_state@.is_goal() ==> (r matches Some(plan) && plan.deep_view().len() == 0),
            r matches Some(plan) ==> collision_free(initial_state@) ==> forall|
                p2: Seq<Seq<Action>>,
            |
                initial_state@.plan_ok(p2) && initial_state@.run_plan(p2).is_goal()
                    ==> p2.len() >= plan.deep_view().len(),
            r is None ==> collision_free(initial_state@) ==> forall|p2: Seq<Seq<Action>>|
                !(initial_state@.plan_ok(p2) && initial_state@.run_plan(p2).is_goal()),
    {
        if initial_state.is_goal_state() {
            let plan = initial_state.extract_plan();
            proof {
                assert(plan.deep_view() =~= Seq::<Seq<Action>>::empty());
                assert(initial_state@.run_plan(plan.deep_view()) == initial_state@);
            }
            return Some(plan);
        }
        let ghost init = initial_state;
        let ghost m0 = initial_state@;
        let mut frontier = FrontierBFS::new();
        frontier.add(initial_state);
        let mut expanded: HashSet<u64> = HashSet::with_capacity(65536);
        let ghost mut emodels: Set<Model> = Set::empty();
        proof {
            assert(frontier.states()[0].root_of() == init);
            assert(frontier.states()[0].g == 0);
            assert(expanded@ =~= Set::<u64>::empty());
            vstd::std_specs::hash::axiom_spec_hash_set_len(&expanded);
            if collision_free(m0) {
                reveal(bfs_inv);
                assert(bfs_inv(m0, emodels, frontier.states(), expanded@));
            }
        }
        loop
            invariant
                frontier.inv(),
                init.wf(),
                init.is_root(),
                init@ == m0,
                m0 == initial_state@,
                !initial_state@.is_goal(),
                forall|t: int|
                    0 <= t < frontier.states().len() ==> rooted(
                        #[trigger] frontier.states()[t],
                        init,
                    ),
                forall|i: int, j: int|
                    0 <= i <= j < frontier.states().len() ==> (#[trigger] frontier.states()[i]).g
                        <= (#[trigger] frontier.states()[j]).g,
                forall|i: int|
                    0 <= i < frontier.states().len() ==> (#[trigger] frontier.states()[i]).g
                        <= frontier.states()[0].g + 1,
                forall|i: int|
                    0 <= i < frontier.states().len() ==> !expanded@.contains(
                        (#[trigger] frontier.states()[i]).hash,
                    ),
                forall|i: int|
                    0 <= i < frontier.states().len() ==> (#[trigger] frontier.states()[i]).g
                        <= expanded@.len(),
                expanded@.finite(),
                expanded@.len() <= usize::MAX,
                collision_free(m0) ==> bfs_inv(m0, emodels, frontier.states(), expanded@),
            decreases usize::MAX - expanded@.len(),
        {
            if frontier.is_empty() {
                proof {
                    if collision_free(m0) {
                        reveal(bfs_inv);
                        assert(emodels.contains(m0));
                        assert forall|p2: Seq<Seq<Action>>|
                            m0.plan_ok(p2) implies !m0.run_plan(p2).is_goal() by {
                            Self::lemma_exhausted(m0, emodels, p2);
                        }
                    }
                }
                return None;
            }
            let ghost pre = frontier.states();
            proof {
                frontier.lemma_pop_choice_in_range();
            }
            let popped = frontier.pop();
            let s = match popped {
                Some(s) => s,
                None => {
                    proof {
                        assert(false);
                    }
                    return None;
                },
            };
            let ghost d = s.g as int;
            proof {
                assert(s == pre[0]);
                assert(rooted(s, init));
            }
            if s.is_goal_state() {
                let plan = s.extract_plan();
                proof {
                    s.lemma_plan_wellformed();
                    s.lemma_g_is_plan_len();
                    assert(init@.plan_ok(plan.deep_view()));
                    assert(init@.run_plan(plan.deep_view()) == s@);
                    assert(plan.deep_view().len() == d);
                    if collision_free(m0) {
                        reveal(bfs_inv);
                        assert forall|p2: Seq<Seq<Action>>|
                            m0.plan_ok(p2) && m0.run_plan(p2).is_goal() implies p2.len()
                            >= d by {
                            if p2.len() < d {
                                assert(emodels.contains(m0.run_plan(p2)));
                            }
                        }
                    }
                }
                return Some(plan);
            }
            let ghost e_in = emodels;
            let ghost x_before = expanded@;
            proof {
                assert forall|i: int, j: int|
                    0 <= i < pre.len() && 0 <= j < pre.len() && i != j implies (
                #[trigger] pre[i]).hash != (#[trigger] pre[j]).hash by {
                    assert(pre[i].hash != pre[j].hash);
                }
            }
            let e_out = Self::bfs_expand(
                &mut frontier,
                &mut expanded,
                s,
                Ghost(init),
                Ghost(pre),
                Ghost(e_in),
            );
            proof {
                emodels = e_out@;
                vstd::std_specs::hash::axiom_spec_hash_set_len(&expanded);
                assert(expanded@.len() == x_before.len() + 1);
            }
        }
    }

    /// Runs graph search from a root state over any frontier. A returned
    /// plan is sound: replaying it from the root is applicable and
    /// conflict-free at every step and ends in a goal state. A root that
    /// already satisfies every goal is promised the empty plan. `None`
    /// means the explored space, or the iteration budget, was exhausted
    /// without reaching a goal; the contract does not promise success
    /// beyond the satisfied root.
    pub fn search<F: Frontier>(initial_state: State, frontier: F) -> (r: Option<Vec<Vec<Action>>>)
        requires
            initial_state.wf(),
            initial_state.is_root(),
            frontier.inv(),
            frontier.states().len() == 0,
        ensures
            r matches Some(plan) ==> initial_state@.solves(plan.deep_view()),
            initial_state@.is_goal() ==> (r matches Some(plan) && plan.deep_view().len() == 0),
    {
        if initial_state.is_goal_state() {
            let plan = initial_state.extract_plan();
            proof {
                assert(plan.deep_view() =~= Seq::<Seq<Action>>::empty());
                assert(initial_state@.run_plan(plan.deep_view()) == initial_state@);
            }
            return Some(plan);
        }
        let ghost init = initial_state;
        let mut frontier = frontier;
        frontier.add(initial_state);
        let mut expanded: HashSet<u64> = HashSet::with_capacity(65536);
        proof {
            assert(frontier.states()[0].root_of() == init);
        }
        // More iterations than any machine can run; each loop turn burns one.
        let mut fuel: u64 = u64::MAX;
        loop
            invariant
                frontier.inv(),
                init.wf(),
                init.is_root(),
                forall|t: int|
                    0 <= t < frontier.states().len() ==> rooted(
                        #[trigger] frontier.states()[t],
                        init,
                    ),
                init@ == initial_state@,
                !initial_state@.is_goal(),
            decreases fuel,
        {
            if frontier.is_empty() || fuel == 0 {
                return None;
            }
            fuel = fuel - 1;
            proof {
                frontier.lemma_pop_choice_in_range();
            }
            let popped = frontier.pop();
            let s = match popped {
                Some(s) => s,
                None => {
                    return None;
                },
            };
            proof {
                assert(rooted(s, init));
            }
            if s.is_goal_state() {
                let plan = s.extract_plan();
                proof {
                    s.lemma_plan_wellformed();
                    assert(init@.plan_ok(plan.deep_view()));
                    assert(init@.run_plan(plan.deep_view()) == s@);
                }
                return Some(plan);
            }
            let s_hash = s.calculate_hash();
            expanded.insert(s_hash);
            let s_rc = Rc::new(s);
            let mut succs = State::get_expanded_states(&s_rc);
            proof {
                reveal(expansion_post);
            }
            while succs.len() > 0
                invariant
                    frontier.inv(),
                    init.wf(),
                    init.is_root(),
                    forall|t: int|
                        0 <= t < frontier.states().len() ==> rooted(
                            #[trigger] frontier.states()[t],
                            init,
                        ),
                    forall|q: int|
                        0 <= q < succs@.len() ==> rooted(#[trigger] succs@[q], init),
                decreases succs@.len(),
            {
                let t = succs.remove(0);
                let t_hash = t.calculate_hash();
                let in_frontier = frontier.contains(&t);
                let in_expanded = expanded.contains(&t_hash);
                if !in_frontier && !in_expanded {
                    proof {
                        assert forall|u: int|
                            0 <= u < frontier.states().len() implies (#[trigger] frontier.states()[u]).hash
                            != t.hash by {
                            assert(frontier.states()[u].hash != t.hash);
                        }
                    }
                    frontier.add(t);
                }
            }
        }
    }
}

} // verus!
