//! Successor generation: the applicability test for a single agent, the
//! joint-action conflict test, child-state materialization, joint-action
//! enumeration, and the seeded shuffle of the successor set.

use std::rc::Rc;
use vstd::prelude::*;
use crate::action::{Action, ActionType, moves_box, spec_all_actions, all_actions};
use crate::model::Model;
use crate::state::{State, copy_actions};

verus! {

broadcast use {crate::views::lemma_deep_len, crate::views::lemma_deep_index};

/// Relies on std's `Rc::clone`: the clone is a second handle to the same
/// allocation, so it equals the original value.
#[verifier::external_body]
fn rc_clone<T>(rc: &Rc<T>) -> (r: Rc<T>)
    ensures
        r == *rc,
{
    Rc::clone(rc)
}

/// Copies a vector of positions.
fn copy_usizes(v: &Vec<usize>) -> (r: Vec<usize>)
    ensures
        r@ == v@,
{
    let mut r: Vec<usize> = Vec::new();
    let n = v.len();
    let mut i: usize = 0;
    while i < n
        invariant
            0 <= i <= n,
            n == v@.len(),
            r@ =~= v@.take(i as int),
        decreases n - i,
    {
        r.push(v[i]);
        i += 1;
    }
    proof {
        assert(r@ =~= v@);
    }
    r
}

/// Copies a box grid, preserving its deep view.
fn copy_grid(v: &Vec<Vec<char>>) -> (r: Vec<Vec<char>>)
    ensures
        r.deep_view() == v.deep_view(),
        r@.len() == v@.len(),
        forall|t: int| 0 <= t < v@.len() ==> #[trigger] r@[t]@ == v@[t]@,
{
    let mut r: Vec<Vec<char>> = Vec::new();
    let n = v.len();
    let mut i: usize = 0;
    while i < n
        invariant
            0 <= i <= n,
            n == v@.len(),
            r@.len() == i,
            forall|t: int| 0 <= t < i ==> #[trigger] r@[t]@ == v@[t]@,
        decreases n - i,
    {
        let row = &v[i];
        let mut nr: Vec<char> = Vec::new();
        let m = row.len();
        let mut j: usize = 0;
        while j < m
            invariant
                0 <= j <= m,
                m == row@.len(),
                nr@ =~= row@.take(j as int),
            decreases m - j,
        {
            nr.push(row[j]);
            j += 1;
        }
        proof {
            assert(nr@ =~= row@);
        }
        r.push(nr);
        i += 1;
    }
    proof {
        assert(r.deep_view() =~= v.deep_view());
    }
    r
}

/// Writes one cell of a grid.
fn grid_set(g: &mut Vec<Vec<char>>, r: usize, c: usize, v: char)
    requires
        r < old(g)@.len(),
        c < old(g)@[r as int]@.len(),
    ensures
        final(g)@.len() == old(g)@.len(),
        final(g)@[r as int]@ == old(g)@[r as int]@.update(c as int, v),
        forall|t: int| 0 <= t < old(g)@.len() && t != r ==> #[trigger] final(g)@[t]@ == old(g)@[t]@,
        final(g).deep_view() == old(g).deep_view().update(
            r as int,
            old(g).deep_view()[r as int].update(c as int, v),
        ),
{
    g[r][c] = v;
    proof {
        assert(final(g).deep_view() =~~= old(g).deep_view().update(
            r as int,
            old(g).deep_view()[r as int].update(c as int, v),
        ));
    }
}

/// Adds a single-step delta to a coordinate.
fn add_delta(p: usize, d: isize) -> (r: usize)
    requires
        -1 <= d <= 1,
        1 <= p < 512,
    ensures
        r as int == p + d,
{
    if d < 0 {
        p - 1
    } else if d > 0 {
        p + 1
    } else {
        p
    }
}

impl State {
    /// Whether `action`, executed alone by `agent`, satisfies its local
    /// preconditions in this state.
    pub fn is_applicable(&self, agent: usize, action: Action) -> (r: bool)
        requires
            self@.wf(),
            agent < self@.n_agents(),
        ensures
            r == self@.applicable(agent as int, action),
    {
        let ar = self.agent_rows[agent];
        let ac = self.agent_cols[agent];
        proof {
            assert(self@.rows[agent as int] == self.agent_rows@[agent as int] as int);
            assert(self@.cols[agent as int] == self.agent_cols@[agent as int] as int);
            self@.lemma_agent_interior(agent as int);
        }
        match action.get_type() {
            ActionType::NoOp => true,
            ActionType::Move => {
                let nr = add_delta(ar, action.agent_row_delta());
                let nc = add_delta(ac, action.agent_col_delta());
                self.cell_is_free(nr, nc)
            },
            ActionType::Push => {
                let br = add_delta(ar, action.agent_row_delta());
                let bc = add_delta(ac, action.agent_col_delta());
                let b = self.boxes[br][bc];
                if !(b >= 'A' && b <= 'Z') {
                    return false;
                }
                let box_color = self.box_colors[(b as u32 - 65) as usize];
                let agent_color = self.agent_colors[agent];
                if !(box_color == agent_color) {
                    return false;
                }
                proof {
                    self@.lemma_nonwall_interior(br as int, bc as int);
                }
                let nbr = add_delta(br, action.box_row_delta());
                let nbc = add_delta(bc, action.box_col_delta());
                self.cell_is_free(nbr, nbc)
            },
            ActionType::Pull => {
                let br = sub_delta(ar, action.box_row_delta());
                let bc = sub_delta(ac, action.box_col_delta());
                let b = self.boxes[br][bc];
                if !(b >= 'A' && b <= 'Z') {
                    return false;
                }
                let box_color = self.box_colors[(b as u32 - 65) as usize];
                let agent_color = self.agent_colors[agent];
                if !(box_color == agent_color) {
                    return false;
                }
                let nr = add_delta(ar, action.agent_row_delta());
                let nc = add_delta(ac, action.agent_col_delta());
                self.cell_is_free(nr, nc)
            },
        }
    }
}

/// Subtracts a single-step delta from a coordinate.
fn sub_delta(p: usize, d: isize) -> (r: usize)
    requires
        -1 <= d <= 1,
        1 <= p < 512,
    ensures
        r as int == p - d,
{
    if d < 0 {
        p + 1
    } else if d > 0 {
        p - 1
    } else {
        p
    }
}

/// The cells an agent's action touches: agent destination, and the box's
/// source and destination cells when a box moves.
struct EffectCells {
    dr: usize,
    dc: usize,
    mv: bool,
    bsr: usize,
    bsc: usize,
    bdr: usize,
    bdc: usize,
}

impl State {
    /// Computes the touched cells of one applicable action.
    fn effect_cells(&self, k: usize, a: Action) -> (e: EffectCells)
        requires
            self@.wf(),
            k < self@.n_agents(),
            self@.applicable(k as int, a),
        ensures
            e.dr as int == self@.dest_r(k as int, a),
            e.dc as int == self@.dest_c(k as int, a),
            e.mv == moves_box(a),
            e.mv ==> e.bsr as int == self@.bsrc_r(k as int, a) && e.bsc as int == self@.bsrc_c(
                k as int,
                a,
            ) && e.bdr as int == self@.bdst_r(k as int, a) && e.bdc as int == self@.bdst_c(
                k as int,
                a,
            ),
    {
        let ar = self.agent_rows[k];
        let ac = self.agent_cols[k];
        proof {
            assert(self@.rows[k as int] == self.agent_rows@[k as int] as int);
            assert(self@.cols[k as int] == self.agent_cols@[k as int] as int);
            self@.lemma_agent_interior(k as int);
        }
        let dr = add_delta(ar, a.agent_row_delta());
        let dc = add_delta(ac, a.agent_col_delta());
        match a.get_type() {
            ActionType::NoOp | ActionType::Move => EffectCells {
                dr,
                dc,
                mv: false,
                bsr: 0,
                bsc: 0,
                bdr: 0,
                bdc: 0,
            },
            ActionType::Push => {
                let bsr = dr;
                let bsc = dc;
                proof {
                    self@.lemma_nonwall_interior(bsr as int, bsc as int);
                }
                let bdr = add_delta(bsr, a.box_row_delta());
                let bdc = add_delta(bsc, a.box_col_delta());
                EffectCells { dr, dc, mv: true, bsr, bsc, bdr, bdc }
            },
            ActionType::Pull => {
                let bsr = sub_delta(ar, a.box_row_delta());
                let bsc = sub_delta(ac, a.box_col_delta());
                EffectCells { dr, dc, mv: true, bsr, bsc, bdr: ar, bdc: ac }
            },
        }
    }

    /// Whether the joint action's per-agent effects contradict one another.
    /// Checks every ordered pair of distinct agents against the conflict
    /// conditions of the model.
    pub fn is_conflicting(&self, joint_action: &Vec<Action>) -> (r: bool)
        requires
            self@.wf(),
            self@.joint_applicable(joint_action@),
        ensures
            r == self@.conflicting(joint_action@),
    {
        let n = joint_action.len();
        let mut i: usize = 0;
        while i < n
            invariant
                0 <= i <= n,
                self@.wf(),
                self@.joint_applicable(joint_action@),
                n == joint_action@.len(),
                forall|i2: int, j2: int|
                    0 <= i2 < i && 0 <= j2 < n && i2 != j2 ==> !self@.pair_conflict(
                        joint_action@,
                        i2,
                        j2,
                    ),
            decreases n - i,
        {
            let ai = joint_action[i];
            let ei = self.effect_cells(i, ai);
            let mut j: usize = 0;
            while j < n
                invariant
                    0 <= j <= n,
                    i < n,
                    self@.wf(),
                    self@.joint_applicable(joint_action@),
                    n == joint_action@.len(),
                    ai == joint_action@[i as int],
                    ei.dr as int == self@.dest_r(i as int, ai),
                    ei.dc as int == self@.dest_c(i as int, ai),
                    ei.mv == moves_box(ai),
                    ei.mv ==> ei.bsr as int == self@.bsrc_r(i as int, ai) && ei.bsc as int
                        == self@.bsrc_c(i as int, ai) && ei.bdr as int == self@.bdst_r(
                        i as int,
                        ai,
                    ) && ei.bdc as int == self@.bdst_c(i as int, ai),
                    forall|j2: int|
                        0 <= j2 < j && j2 != i ==> !self@.pair_conflict(joint_action@, i as int, j2),
                decreases n - j,
            {
                if j != i {
                    let aj = joint_action[j];
                    let ej = self.effect_cells(j, aj);
                    let jr = self.agent_rows[j];
                    let jc = self.agent_cols[j];
                    let ir = self.agent_rows[i];
                    let ic = self.agent_cols[i];
                    proof {
                        assert(self@.rows[j as int] == self.agent_rows@[j as int] as int);
                        assert(self@.cols[j as int] == self.agent_cols@[j as int] as int);
                        assert(self@.rows[i as int] == self.agent_rows@[i as int] as int);
                        assert(self@.cols[i as int] == self.agent_cols@[i as int] as int);
                    }
                    let ti = ai.get_type();
                    let tj = aj.get_type();
                    let clash = (ei.dr == ej.dr && ei.dc == ej.dc) || (ei.dr == jr && ei.dc == jc
                        && tj == ActionType::NoOp) || (ej.dr == ir && ej.dc == ic && ti
                        == ActionType::NoOp) || (ei.dr == jr && ei.dc == jc && ej.dr == ir
                        && ej.dc == ic) || (tj == ActionType::Push && ei.dr == ej.bdr && ei.dc
                        == ej.bdc) || (ti == ActionType::Push && ej.dr == ei.bdr && ej.dc
                        == ei.bdc) || (ei.mv && ej.mv && ei.bdr == ej.bdr && ei.bdc == ej.bdc)
                        || (ti == ActionType::Pull && ei.bsr == ej.dr && ei.bsc == ej.dc) || (tj
                        == ActionType::Pull && ej.bsr == ei.dr && ej.bsc == ei.dc) || (ei.mv
                        && ej.mv && ei.bsr == ej.bsr && ei.bsc == ej.bsc);
                    proof {
                        assert(clash == self@.pair_conflict(joint_action@, i as int, j as int));
                    }
                    if clash {
                        return true;
                    }
                }
                j += 1;
            }
            i += 1;
        }
        false
    }
}

impl State {
    /// Builds the state that results from applying an applicable,
    /// conflict-free joint action to a parent state. The child links back to
    /// the parent, records the joint action, and costs one more step.
    pub fn child_state(parent: &Rc<State>, joint_action: Vec<Action>) -> (r: State)
        requires
            (**parent).wf(),
            (**parent)@.joint_applicable(joint_action@),
            !(**parent)@.conflicting(joint_action@),
            (**parent).g < usize::MAX,
        ensures
            r.wf(),
            r@ == (**parent)@.step(joint_action@),
            r.g == (**parent).g + 1,
            r.parent == Some(*parent),
            r.joint_action == Some(joint_action),
    {
        let p: &State = &**parent;
        let ghost m = p@;
        let ghost ja = joint_action@;
        let mut rows = copy_usizes(&p.agent_rows);
        let mut cols = copy_usizes(&p.agent_cols);
        let mut boxes = copy_grid(&p.boxes);
        proof {
            m.lemma_partial_base(ja);
            assert(boxes.deep_view() == m.partial_boxes(ja, 0));
        }
        let n = rows.len();
        let mut k: usize = 0;
        while k < n
            invariant
                0 <= k <= n,
                m == p@,
                ja == joint_action@,
                m.wf(),
                m.joint_applicable(ja),
                !m.conflicting(ja),
                n == ja.len(),
                n == m.n_agents(),
                rows@.len() == n,
                cols@.len() == n,
                forall|t: int| 0 <= t < k ==> #[trigger] rows@[t] as int == m.dest_r(t, ja[t]),
                forall|t: int| 0 <= t < k ==> #[trigger] cols@[t] as int == m.dest_c(t, ja[t]),
                forall|t: int| k <= t < n ==> #[trigger] rows@[t] as int == m.rows[t],
                forall|t: int| k <= t < n ==> #[trigger] cols@[t] as int == m.cols[t],
                boxes.deep_view() == m.partial_boxes(ja, k as int),
                boxes@.len() == m.boxes.len(),
                forall|t: int|
                    0 <= t < boxes@.len() ==> (#[trigger] boxes@[t]@).len() == m.boxes[t].len(),
            decreases n - k,
        {
            let a = joint_action[k];
            let e = p.effect_cells(k, a);
            proof {
                m.lemma_effect_cells(ja);
                m.lemma_partial_advance(ja, k as int);
            }
            if e.mv {
                let bc = boxes[e.bsr][e.bsc];
                proof {
                    assert(bc == m.partial_boxes(ja, k as int)[e.bsr as int][e.bsc as int]);
                    assert(bc == m.box_at(m.bsrc_r(k as int, a), m.bsrc_c(k as int, a)));
                }
                grid_set(&mut boxes, e.bsr, e.bsc, '\0');
                grid_set(&mut boxes, e.bdr, e.bdc, bc);
                proof {
                    assert(boxes.deep_view() =~~= m.partial_boxes(ja, k as int + 1));
                }
            } else {
                proof {
                    assert(boxes.deep_view() =~~= m.partial_boxes(ja, k as int + 1));
                }
            }
            rows[k] = e.dr;
            cols[k] = e.dc;
            k += 1;
        }
        let mut st = State {
            agent_rows: rows,
            agent_cols: cols,
            agent_colors: rc_clone(&p.agent_colors),
            walls: rc_clone(&p.walls),
            boxes,
            box_colors: rc_clone(&p.box_colors),
            goals: rc_clone(&p.goals),
            parent: Some(rc_clone(parent)),
            joint_action: Some(joint_action),
            g: p.g + 1,
            hash: 0,
        };
        proof {
            assert(st@.rows =~= m.step(ja).rows);
            assert(st@.cols =~= m.step(ja).cols);
            assert(st@.boxes == m.step(ja).boxes);
            assert(st@ == m.step(ja));
            m.lemma_step_preserves_wf(ja);
        }
        let h = st.calculate_hash();
        st.hash = h;
        proof {
            assert(st.lineage_ok());
        }
        st
    }
}

// --------------------------------------------------- joint-action enumeration

/// Applicable actions of one agent, tried in canonical order; prefix form
/// for loop proofs.
pub open spec fn spec_applicable_prefix(m: Model, k: int, i: int) -> Seq<Action> {
    spec_all_actions().take(i).filter(|a: Action| m.applicable(k, a))
}

/// The list of actions agent k may execute, in canonical order.
pub open spec fn spec_applicable_list(m: Model, k: int) -> Seq<Action> {
    spec_applicable_prefix(m, k, spec_all_actions().len() as int)
}

/// One applicable-action list per agent.
pub open spec fn spec_applicable_lists(m: Model) -> Seq<Seq<Action>> {
    Seq::new(m.rows.len(), |k: int| spec_applicable_list(m, k))
}

proof fn lemma_applicable_prefix_step(m: Model, k: int, i: int)
    requires
        0 <= i < spec_all_actions().len(),
    ensures
        m.applicable(k, spec_all_actions()[i]) ==> spec_applicable_prefix(m, k, i + 1)
            == spec_applicable_prefix(m, k, i).push(spec_all_actions()[i]),
        !m.applicable(k, spec_all_actions()[i]) ==> spec_applicable_prefix(m, k, i + 1)
            == spec_applicable_prefix(m, k, i),
{
    reveal(Seq::filter);
    let all = spec_all_actions();
    assert(all.take(i + 1).drop_last() =~= all.take(i));
    assert(all.take(i + 1).last() == all[i]);
}

/// Every tail with `a` prepended.
pub open spec fn with_head(a: Action, tails: Seq<Seq<Action>>) -> Seq<Seq<Action>> {
    Seq::new(tails.len(), |t: int| seq![a] + tails[t])
}

/// Tails headed by the first `i` actions, in action order.
pub open spec fn combine_upto(acts: Seq<Action>, tails: Seq<Seq<Action>>, i: int) -> Seq<
    Seq<Action>,
>
    decreases i,
{
    if i <= 0 {
        Seq::empty()
    } else {
        combine_upto(acts, tails, i - 1) + with_head(acts[i - 1], tails)
    }
}

/// All ways to extend one action per agent, from agent `idx` on: the
/// Cartesian product of the per-agent lists, first agent outermost.
pub open spec fn joint_tails(lists: Seq<Seq<Action>>, idx: int) -> Seq<Seq<Action>>
    decreases lists.len() - idx,
{
    if idx < 0 || idx >= lists.len() {
        seq![Seq::<Action>::empty()]
    } else {
        combine_upto(lists[idx], joint_tails(lists, idx + 1), lists[idx].len() as int)
    }
}

/// Every candidate joint action of a state, in enumeration order.
pub open spec fn spec_candidates(m: Model) -> Seq<Seq<Action>> {
    joint_tails(spec_applicable_lists(m), 0)
}

/// The candidates that survive the conflict filter; prefix form for loops.
pub open spec fn spec_kept_prefix(m: Model, i: int) -> Seq<Seq<Action>> {
    spec_candidates(m).take(i).filter(
        |c: Seq<Action>| m.joint_applicable(c) && !m.conflicting(c),
    )
}

/// The joint actions actually expanded, before shuffling.
#[verifier::opaque]
pub open spec fn spec_kept(m: Model) -> Seq<Seq<Action>> {
    spec_kept_prefix(m, spec_candidates(m).len() as int)
}

proof fn lemma_kept_prefix_step(m: Model, i: int)
    requires
        0 <= i < spec_candidates(m).len(),
    ensures
        (m.joint_applicable(spec_candidates(m)[i]) && !m.conflicting(spec_candidates(m)[i]))
            ==> spec_kept_prefix(m, i + 1) == spec_kept_prefix(m, i).push(spec_candidates(m)[i]),
        !(m.joint_applicable(spec_candidates(m)[i]) && !m.conflicting(spec_candidates(m)[i]))
            ==> spec_kept_prefix(m, i + 1) == spec_kept_prefix(m, i),
{
    reveal(Seq::filter);
    let cands = spec_candidates(m);
    assert(cands.take(i + 1).drop_last() =~= cands.take(i));
    assert(cands.take(i + 1).last() == cands[i]);
}

/// Every kept joint action is applicable and conflict-free.
pub proof fn lemma_kept_ok(m: Model, i: int)
    requires
        0 <= i < spec_kept(m).len(),
    ensures
        m.joint_applicable(spec_kept(m)[i]),
        !m.conflicting(spec_kept(m)[i]),
{
    broadcast use vstd::seq_lib::group_filter_ensures;

    reveal(spec_kept);
    assert(spec_candidates(m).take(spec_candidates(m).len() as int) =~= spec_candidates(m));
}

// ------------------------------------------------------------------- shuffle

/// One step of the 64-bit linear congruential generator driving the shuffle.
pub open spec fn lcg_next(x: u64) -> u64 {
    vstd::wrapping::u64_specs::wrapping_add(
        vstd::wrapping::u64_specs::wrapping_mul(x, 6364136223846793005),
        1442695040888963407,
    )
}

fn lcg_exec(x: u64) -> (r: u64)
    ensures
        r == lcg_next(x),
{
    x.wrapping_mul(6364136223846793005).wrapping_add(1442695040888963407)
}

/// The identity permutation on `len` indices.
pub open spec fn identity_perm(len: nat) -> Seq<usize> {
    Seq::new(len, |q: int| q as usize)
}

/// The tail of the seeded shuffle: positions `i` down to 1 are each swapped
/// with a pseudo-randomly drawn position at or below them.
pub open spec fn fy_rec(s: Seq<usize>, seed: u64, i: int) -> Seq<usize>
    decreases i,
{
    if i <= 0 {
        s
    } else {
        let seed2 = lcg_next(seed);
        let j = (seed2 as int) % (i + 1);
        fy_rec(s.update(i, s[j]).update(j, s[i]), seed2, i - 1)
    }
}

/// The deterministic permutation used to shuffle `len` successors, seeded
/// with the fixed value 1.
pub open spec fn spec_perm(len: nat) -> Seq<usize> {
    fy_rec(identity_perm(len), 1u64, len as int - 1)
}

/// Computes the seeded shuffle permutation.
fn fisher_yates(len: usize) -> (perm: Vec<usize>)
    ensures
        perm@ == spec_perm(len as nat),
        perm@.len() == len,
        forall|q: int| 0 <= q < len ==> #[trigger] perm@[q] < len,
{
    let mut perm: Vec<usize> = Vec::new();
    let mut q: usize = 0;
    while q < len
        invariant
            0 <= q <= len,
            perm@.len() == q,
            forall|t: int| 0 <= t < q ==> #[trigger] perm@[t] == t,
        decreases len - q,
    {
        perm.push(q);
        q += 1;
    }
    proof {
        assert(perm@ =~= identity_perm(len as nat));
    }
    if len == 0 {
        return perm;
    }
    let mut seed: u64 = 1;
    let mut i: usize = len - 1;
    while i > 0
        invariant
            0 <= i < len,
            perm@.len() == len,
            forall|t: int| 0 <= t < len ==> #[trigger] perm@[t] < len,
            spec_perm(len as nat) == fy_rec(perm@, seed, i as int),
        decreases i,
    {
        seed = lcg_exec(seed);
        let j = (seed % (i as u64 + 1)) as usize;
        proof {
            assert(j as int == (seed as int) % (i as int + 1));
            assert(j <= i);
        }
        let pi = perm[i];
        let pj = perm[j];
        perm[i] = pj;
        perm[j] = pi;
        i -= 1;
    }
    perm
}

impl State {
    /// The actions agent `agent` can execute here, in canonical order.
    fn applicable_actions_for(&self, agent: usize) -> (r: Vec<Action>)
        requires
            self@.wf(),
            agent < self@.n_agents(),
        ensures
            r@ == spec_applicable_list(self@, agent as int),
    {
        let all = all_actions();
        let mut r: Vec<Action> = Vec::new();
        let n = all.len();
        let mut i: usize = 0;
        while i < n
            invariant
                0 <= i <= n,
                self@.wf(),
                agent < self@.n_agents(),
                all@ == spec_all_actions(),
                n == all@.len(),
                r@ == spec_applicable_prefix(self@, agent as int, i as int),
            decreases n - i,
        {
            let a = all[i];
            proof {
                lemma_applicable_prefix_step(self@, agent as int, i as int);
            }
            if self.is_applicable(agent, a) {
                r.push(a);
            }
            i += 1;
        }
        proof {
            assert(spec_all_actions().take(n as int) =~= spec_all_actions());
        }
        r
    }
}

/// Builds one new joint action: `a` followed by `tail`.
fn cons_action(a: Action, tail: &Vec<Action>) -> (r: Vec<Action>)
    ensures
        r@ == seq![a] + tail@,
{
    let mut r: Vec<Action> = Vec::new();
    r.push(a);
    let n = tail.len();
    let mut i: usize = 0;
    while i < n
        invariant
            0 <= i <= n,
            n == tail@.len(),
            r@ =~= seq![a] + tail@.take(i as int),
        decreases n - i,
    {
        r.push(tail[i]);
        i += 1;
    }
    proof {
        assert(r@ =~= seq![a] + tail@);
    }
    r
}

/// Enumerates every joint action over the per-agent lists, from agent `idx`
/// on, first agent outermost.
fn generate_joint_actions(lists: &Vec<Vec<Action>>, idx: usize) -> (r: Vec<Vec<Action>>)
    requires
        idx <= lists@.len(),
    ensures
        r.deep_view() == joint_tails(lists.deep_view(), idx as int),
    decreases lists@.len() - idx,
{
    if idx == lists.len() {
        let mut r: Vec<Vec<Action>> = Vec::new();
        let empty: Vec<Action> = Vec::new();
        r.push(empty);
        proof {
            assert(r.deep_view() =~~= seq![Seq::<Action>::empty()]);
        }
        return r;
    }
    let rest = generate_joint_actions(lists, idx + 1);
    let acts = &lists[idx];
    let ghost tails = rest.deep_view();
    let ghost aseq = acts@;
    let mut out: Vec<Vec<Action>> = Vec::new();
    let an = acts.len();
    let rn = rest.len();
    let mut i: usize = 0;
    while i < an
        invariant
            0 <= i <= an,
            an == aseq.len(),
            aseq == acts@,
            rn == tails.len(),
            tails == rest.deep_view(),
            out.deep_view() == combine_upto(aseq, tails, i as int),
        decreases an - i,
    {
        let a = acts[i];
        let mut t: usize = 0;
        while t < rn
            invariant
                0 <= t <= rn,
                i < an,
                an == aseq.len(),
                aseq == acts@,
                a == aseq[i as int],
                rn == tails.len(),
                tails == rest.deep_view(),
                out.deep_view() =~~= combine_upto(aseq, tails, i as int) + with_head(
                    aseq[i as int],
                    tails,
                ).take(t as int),
            decreases rn - t,
        {
            let nv = cons_action(a, &rest[t]);
            out.push(nv);
            proof {
                assert(with_head(aseq[i as int], tails).take(t as int + 1) =~= with_head(
                    aseq[i as int],
                    tails,
                ).take(t as int).push(seq![a] + tails[t as int]));
                assert(out.deep_view() =~~= combine_upto(aseq, tails, i as int) + with_head(
                    aseq[i as int],
                    tails,
                ).take(t as int + 1));
            }
            t += 1;
        }
        proof {
            assert(with_head(aseq[i as int], tails).take(rn as int) =~= with_head(
                aseq[i as int],
                tails,
            ));
            assert(out.deep_view() =~~= combine_upto(aseq, tails, i as int + 1));
        }
        i += 1;
    }
    proof {
        assert(lists.deep_view()[idx as int] == aseq);
        assert(out.deep_view() == joint_tails(lists.deep_view(), idx as int));
    }
    out
}

/// The joint actions actually expanded, in their final (shuffled) order.
#[verifier::opaque]
pub open spec fn spec_shuffled(m: Model) -> Seq<Seq<Action>> {
    let kept = spec_kept(m);
    Seq::new(kept.len(), |q: int| kept[spec_perm(kept.len())[q] as int])
}

/// What `get_expanded_states` promises of its result: one child per
/// shuffled surviving joint action, in that order, each well-formed,
/// derived from `p` by its joint action, linked back to `p`, and one step
/// costlier. Together with the determinism of `spec_shuffled` this pins
/// every observable part of the expansion.
#[verifier::opaque]
pub open spec fn expansion_post(p: State, r: Seq<State>) -> bool {
    let sc = spec_shuffled(p@);
    &&& r.len() == sc.len()
    &&& forall|q: int|
        0 <= q < r.len() ==> {
            &&& (#[trigger] r[q]).wf()
            &&& r[q]@ == p@.step(sc[q])
            &&& r[q].g == p.g + 1
            &&& r[q].parent matches Some(pp) && *pp == p
            &&& r[q].joint_action matches Some(j) && j@ == sc[q]
        }
}

/// Successor determinism: any two result sequences that satisfy the
/// expansion contract for the same state agree in length and, position by
/// position, in model, cost, recorded joint action and parent. The shuffle
/// is seeded with a fixed constant, so repeated runs produce the same
/// successor sequence.
pub proof fn lemma_successor_determinism(p: State, r1: Seq<State>, r2: Seq<State>)
    requires
        expansion_post(p, r1),
        expansion_post(p, r2),
    ensures
        r1.len() == r2.len(),
        forall|q: int|
            0 <= q < r1.len() ==> (#[trigger] r1[q])@ == r2[q]@ && r1[q].g == r2[q].g && r1[q].plan_of()
                == r2[q].plan_of(),
{
    reveal(expansion_post);
    assert forall|q: int|
        0 <= q < r1.len() implies (#[trigger] r1[q])@ == r2[q]@ && r1[q].g == r2[q].g
        && r1[q].plan_of() == r2[q].plan_of() by {
        let sc = spec_shuffled(p@);
        assert(r1[q]@ == p@.step(sc[q]));
        assert(r1[q].plan_of() == p.plan_of().push(sc[q]));
        assert(r2[q].plan_of() == p.plan_of().push(sc[q]));
    }
}

impl State {
    /// Expands a state: every applicable, conflict-free joint action yields
    /// one child state, and the set is returned in a deterministic
    /// pseudo-random order seeded with the fixed value 1.
    pub fn get_expanded_states(s: &Rc<State>) -> (r: Vec<State>)
        requires
            (**s).wf(),
        ensures
            (**s).g < usize::MAX ==> expansion_post(**s, r@),
            (**s).g == usize::MAX ==> r@.len() == 0,
    {
        proof {
            reveal(expansion_post);
            reveal(spec_kept);
            reveal(spec_shuffled);
        }
        let mut out: Vec<State> = Vec::new();
        if s.g == usize::MAX {
            // A state at the maximum representable depth cannot record a
            // costlier child.
            return out;
        }
        let p: &State = &**s;
        let ghost m = p@;
        let n = p.agent_rows.len();
        let mut lists: Vec<Vec<Action>> = Vec::new();
        let mut agent: usize = 0;
        while agent < n
            invariant
                0 <= agent <= n,
                m == p@,
                m.wf(),
                n == m.n_agents(),
                lists.deep_view() =~~= spec_applicable_lists(m).take(agent as int),
            decreases n - agent,
        {
            let acts = p.applicable_actions_for(agent);
            lists.push(acts);
            proof {
                assert(lists.deep_view() =~~= spec_applicable_lists(m).take(agent as int + 1));
            }
            agent += 1;
        }
        proof {
            assert(lists.deep_view() =~~= spec_applicable_lists(m));
        }
        let cands = generate_joint_actions(&lists, 0);
        let ghost cseq = spec_candidates(m);
        let mut kept: Vec<Vec<Action>> = Vec::new();
        let cn = cands.len();
        let mut q: usize = 0;
        while q < cn
            invariant
                0 <= q <= cn,
                m == p@,
                m.wf(),
                cands.deep_view() == cseq,
                cseq == spec_candidates(m),
                cn == cseq.len(),
                kept.deep_view() == spec_kept_prefix(m, q as int),
            decreases cn - q,
        {
            let ja = &cands[q];
            proof {
                lemma_kept_prefix_step(m, q as int);
                assert(ja@ == cseq[q as int]);
            }
            let app = check_joint_applicable(p, ja);
            if app {
                if !p.is_conflicting(ja) {
                    kept.push(copy_actions(ja));
                    proof {
                        assert(kept.deep_view() =~~= spec_kept_prefix(m, q as int + 1));
                    }
                }
            }
            q += 1;
        }
        proof {
            assert(kept.deep_view() == spec_kept(m));
        }
        let kn = kept.len();
        let perm = fisher_yates(kn);
        let ghost sc = spec_shuffled(m);
        let mut w: usize = 0;
        while w < kn
            invariant
                0 <= w <= kn,
                m == (**s)@,
                (**s).wf(),
                (**s).g < usize::MAX,
                kept.deep_view() == spec_kept(m),
                kn == spec_kept(m).len(),
                perm@ == spec_perm(kn as nat),
                perm@.len() == kn,
                forall|t: int| 0 <= t < kn ==> #[trigger] perm@[t] < kn,
                sc == spec_shuffled(m),
                out@.len() == w,
                forall|t: int|
                    0 <= t < w ==> {
                        &&& (#[trigger] out@[t]).wf()
                        &&& out@[t]@ == m.step(sc[t])
                        &&& out@[t].g == (**s).g + 1
                        &&& out@[t].parent matches Some(pp) && *pp == **s
                        &&& out@[t].joint_action matches Some(j) && j@ == sc[t]
                    },
            decreases kn - w,
        {
            let idx = perm[w];
            let ja = copy_actions(&kept[idx]);
            proof {
                reveal(spec_shuffled);
                assert(ja@ == spec_kept(m)[idx as int]);
                assert(sc[w as int] == spec_kept(m)[spec_perm(kn as nat)[w as int] as int]);
                assert(ja@ == sc[w as int]);
                lemma_kept_ok(m, idx as int);
            }
            let child = State::child_state(s, ja);
            out.push(child);
            w += 1;
        }
        out
    }
}

/// Whether each agent's entry of a joint action is applicable on its own.
fn check_joint_applicable(p: &State, ja: &Vec<Action>) -> (r: bool)
    requires
        p@.wf(),
    ensures
        r == p@.joint_applicable(ja@),
{
    let n = p.agent_rows.len();
    proof {
        assert(n == p@.n_agents());
    }
    if ja.len() != n {
        return false;
    }
    let mut k: usize = 0;
    while k < n
        invariant
            0 <= k <= n,
            p@.wf(),
            n == p@.n_agents(),
            n == ja@.len(),
            forall|t: int| 0 <= t < k ==> p@.applicable(t, #[trigger] ja@[t]),
        decreases n - k,
    {
        if !p.is_applicable(k, ja[k]) {
            return false;
        }
        k += 1;
    }
    true
}

// ------------------------------------------------- expansion completeness

/// The canonical action table holds every action.
proof fn lemma_all_actions_has(a: Action)
    ensures
        spec_all_actions().contains(a),
{
    let all = spec_all_actions();
    match a {
        Action::NoOp => assert(all[0] == a),
        Action::MoveN => assert(all[1] == a),
        Action::MoveS => assert(all[2] == a),
        Action::MoveE => assert(all[3] == a),
        Action::MoveW => assert(all[4] == a),
        Action::PushNN => assert(all[5] == a),
        Action::PushNE => assert(all[6] == a),
        Action::PushNW => assert(all[7] == a),
        Action::PushSS => assert(all[8] == a),
        Action::PushSE => assert(all[9] == a),
        Action::PushSW => assert(all[10] == a),
        Action::PushEE => assert(all[11] == a),
        Action::PushEN => assert(all[12] == a),
        Action::PushES => assert(all[13] == a),
        Action::PushWW => assert(all[14] == a),
        Action::PushWN => assert(all[15] == a),
        Action::PushWS => assert(all[16] == a),
        Action::PullNN => assert(all[17] == a),
        Action::PullNE => assert(all[18] == a),
        Action::PullNW => assert(all[19] == a),
        Action::PullSS => assert(all[20] == a),
        Action::PullSE => assert(all[21] == a),
        Action::PullSW => assert(all[22] == a),
        Action::PullEE => assert(all[23] == a),
        Action::PullEN => assert(all[24] == a),
        Action::PullES => assert(all[25] == a),
        Action::PullWW => assert(all[26] == a),
        Action::PullWN => assert(all[27] == a),
        Action::PullWS => assert(all[28] == a),
    }
}

/// Every action an agent can execute is on its applicable list.
proof fn lemma_applicable_list_has(m: Model, k: int, a: Action)
    requires
        m.applicable(k, a),
    ensures
        spec_applicable_list(m, k).contains(a),
{
    broadcast use vstd::seq_lib::group_filter_ensures;

    lemma_all_actions_has(a);
    let all = spec_all_actions();
    let i = choose|i: int| 0 <= i < all.len() && all[i] == a;
    assert(all.take(all.len() as int) =~= all);
    assert(all.filter(|x: Action| m.applicable(k, x)).contains(all[i]));
}

/// Heading any tail with any listed action lands in the combination table.
proof fn lemma_combine_has(acts: Seq<Action>, tails: Seq<Seq<Action>>, i: int, x: int, t: int)
    requires
        0 <= x < i <= acts.len(),
        0 <= t < tails.len(),
    ensures
        combine_upto(acts, tails, i).contains(seq![acts[x]] + tails[t]),
    decreases i,
{
    if x == i - 1 {
        let prev = combine_upto(acts, tails, i - 1);
        let whole = combine_upto(acts, tails, i);
        assert(whole[prev.len() + t] == with_head(acts[x], tails)[t]);
        assert(with_head(acts[x], tails)[t] == seq![acts[x]] + tails[t]);
    } else {
        lemma_combine_has(acts, tails, i - 1, x, t);
        let prev = combine_upto(acts, tails, i - 1);
        let j = choose|j: int| 0 <= j < prev.len() && prev[j] == seq![acts[x]] + tails[t];
        assert(combine_upto(acts, tails, i)[j] == prev[j]);
    }
}

/// Every assignment of one listed action per agent is enumerated.
proof fn lemma_tails_has(lists: Seq<Seq<Action>>, idx: int, ja: Seq<Action>)
    requires
        0 <= idx <= lists.len(),
        ja.len() == lists.len() - idx,
        forall|t: int| 0 <= t < ja.len() ==> lists[idx + t].contains(#[trigger] ja[t]),
    ensures
        joint_tails(lists, idx).contains(ja),
    decreases lists.len() - idx,
{
    if idx == lists.len() {
        assert(ja =~= Seq::<Action>::empty());
        assert(joint_tails(lists, idx)[0] == ja);
    } else {
        let rest = ja.drop_first();
        assert forall|t: int| 0 <= t < rest.len() implies lists[idx + 1 + t].contains(
            #[trigger] rest[t],
        ) by {
            assert(rest[t] == ja[t + 1]);
        }
        lemma_tails_has(lists, idx + 1, rest);
        assert(lists[idx].contains(ja[0]));
        let x = choose|x: int| 0 <= x < lists[idx].len() && lists[idx][x] == ja[0];
        let tails = joint_tails(lists, idx + 1);
        let t = choose|t: int| 0 <= t < tails.len() && tails[t] == rest;
        lemma_combine_has(lists[idx], tails, lists[idx].len() as int, x, t);
        assert(seq![lists[idx][x]] + tails[t] =~= ja);
    }
}

/// The shuffle permutation is a permutation: it has exactly the indices.
proof fn lemma_fy_multiset(s: Seq<usize>, seed: u64, i: int)
    requires
        i < s.len(),
    ensures
        fy_rec(s, seed, i).to_multiset() == s.to_multiset(),
    decreases i,
{
    broadcast use vstd::seq_lib::group_to_multiset_ensures;

    if i > 0 {
        let seed2 = lcg_next(seed);
        let j = (seed2 as int) % (i + 1);
        let swapped = s.update(i, s[j]).update(j, s[i]);
        if j == i {
            assert(swapped =~= s);
        } else {
            assert(s.update(i, s[j])[j] == s[j]);
            assert(swapped.to_multiset() =~= s.to_multiset());
        }
        lemma_fy_multiset(swapped, seed2, i - 1);
    }
}

/// Expansion completeness: every applicable, conflict-free joint action is
/// expanded — it appears among the surviving candidates, and the shuffled
/// successor order contains a position carrying exactly it.
pub proof fn lemma_expansion_complete(m: Model, ja: Seq<Action>)
    requires
        m.joint_applicable(ja),
        !m.conflicting(ja),
        spec_kept(m).len() <= usize::MAX,
    ensures
        spec_kept(m).contains(ja),
        exists|q: int| 0 <= q < spec_shuffled(m).len() && spec_shuffled(m)[q] == ja,
{
    broadcast use vstd::seq_lib::group_filter_ensures;
    broadcast use vstd::seq_lib::group_to_multiset_ensures;

    reveal(spec_kept);
    reveal(spec_shuffled);
    let lists = spec_applicable_lists(m);
    assert forall|t: int| 0 <= t < ja.len() implies lists[t].contains(#[trigger] ja[t]) by {
        lemma_applicable_list_has(m, t, ja[t]);
    }
    lemma_tails_has(lists, 0, ja);
    let cands = spec_candidates(m);
    let i = choose|i: int| 0 <= i < cands.len() && cands[i] == ja;
    assert(cands.take(cands.len() as int) =~= cands);
    assert(cands.filter(|c: Seq<Action>| m.joint_applicable(c) && !m.conflicting(c)).contains(
        cands[i],
    ));
    assert(spec_kept(m).contains(ja));
    let kept = spec_kept(m);
    let j = choose|j: int| 0 <= j < kept.len() && kept[j] == ja;
    let perm = spec_perm(kept.len());
    let ident = identity_perm(kept.len());
    lemma_fy_multiset(ident, 1u64, kept.len() as int - 1);
    assert(perm.to_multiset() == ident.to_multiset());
    assert(perm.to_multiset().len() == perm.len());
    assert(ident.to_multiset().len() == ident.len());
    assert(ident[j] == j as usize);
    assert(identity_perm(kept.len()).contains(j as usize));
    assert(ident.contains(j as usize));
    assert(ident.to_multiset().count(j as usize) > 0);
    assert(perm.to_multiset().count(j as usize) > 0);
    assert(perm.contains(j as usize));
    let q = choose|q: int| 0 <= q < perm.len() && perm[q] == j as usize;
    assert(perm.len() == kept.len());
    assert(perm[q] as int == j);
    assert(spec_shuffled(m)[q] == kept[perm[q] as int]);
}

} // verus!
