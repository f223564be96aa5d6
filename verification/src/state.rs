//! The search node: agent positions and the box grid, shared immutable level
//! data, a back-link to the parent node with the joint action that produced
//! it, the path cost g, and a cached structural hash.

use std::rc::Rc;
use vstd::prelude::*;
use crate::action::Action;
use crate::color::Color;
use crate::model::{Model, no_box};

verus! {

broadcast use {crate::views::lemma_deep_len, crate::views::lemma_deep_index};

pub struct State {
    pub agent_rows: Vec<usize>,
    pub agent_cols: Vec<usize>,
    pub agent_colors: Rc<Vec<Color>>,
    pub walls: Rc<Vec<Vec<bool>>>,
    pub boxes: Vec<Vec<char>>,
    pub box_colors: Rc<Vec<Color>>,
    pub goals: Rc<Vec<Vec<char>>>,
    pub parent: Option<Rc<State>>,
    pub joint_action: Option<Vec<Action>>,
    pub g: usize,
    pub hash: u64,
}

/// The model a state with these components denotes.
pub open spec fn model_of(
    rows: Seq<usize>,
    cols: Seq<usize>,
    agent_colors: Seq<Color>,
    walls: Seq<Seq<bool>>,
    boxes: Seq<Seq<char>>,
    box_colors: Seq<Color>,
    goals: Seq<Seq<char>>,
) -> Model {
    Model {
        rows: rows.map_values(|x: usize| x as int),
        cols: cols.map_values(|x: usize| x as int),
        walls: walls,
        boxes: boxes,
        goals: goals,
        agent_colors: agent_colors,
        box_colors: box_colors,
    }
}

impl View for State {
    type V = Model;

    open spec fn view(&self) -> Model {
        model_of(
            self.agent_rows@,
            self.agent_cols@,
            self.agent_colors.deep_view(),
            self.walls.deep_view(),
            self.boxes.deep_view(),
            self.box_colors.deep_view(),
            self.goals.deep_view(),
        )
    }
}

// ------------------------------------------------------------------- hashing

/// One mixing round of the 64-bit FNV-1a style structural hash.
pub open spec fn mix(h: u64, v: u64) -> u64 {
    vstd::wrapping::u64_specs::wrapping_mul(h ^ v, 0x100000001b3)
}

pub open spec fn hash_offset() -> u64 {
    0xcbf29ce484222325
}

/// Hash of the first i agent positions, row then column each.
pub open spec fn hash_pos_upto(rows: Seq<int>, cols: Seq<int>, i: int, h: u64) -> u64
    decreases i,
{
    if i <= 0 {
        h
    } else {
        mix(mix(hash_pos_upto(rows, cols, i - 1, h), rows[i - 1] as u64), cols[i - 1] as u64)
    }
}

/// Hash of the first j cells of one box row.
pub open spec fn hash_row_upto(row: Seq<char>, j: int, h: u64) -> u64
    decreases j,
{
    if j <= 0 {
        h
    } else {
        mix(hash_row_upto(row, j - 1, h), row[j - 1] as u64)
    }
}

/// Hash of the first r complete box rows.
pub open spec fn hash_rows_upto(boxes: Seq<Seq<char>>, r: int, h: u64) -> u64
    decreases r,
{
    if r <= 0 {
        h
    } else {
        hash_row_upto(boxes[r - 1], boxes[r - 1].len() as int, hash_rows_upto(boxes, r - 1, h))
    }
}

/// The structural hash of a state: a function of the agent positions and the
/// box grid alone. Lineage, cost and colors do not participate.
pub open spec fn spec_state_hash(m: Model) -> u64 {
    hash_rows_upto(m.boxes, m.boxes.len() as int, hash_pos_upto(m.rows, m.cols, m.rows.len() as int, hash_offset()))
}

/// Hash consistency: states that agree on agent positions and box grid hash
/// alike, so the hash-keyed duplicate sets never miss an equal state.
pub proof fn lemma_hash_consistency(m1: Model, m2: Model)
    requires
        m1.rows == m2.rows,
        m1.cols == m2.cols,
        m1.boxes == m2.boxes,
    ensures
        spec_state_hash(m1) == spec_state_hash(m2),
{
}

impl State {
    // ------------------------------------------------------------- lineage

    /// True of the single state the parser constructs.
    pub open spec fn is_root(&self) -> bool {
        &&& self.parent is None
        &&& self.joint_action is None
        &&& self.g == 0
    }

    /// Every non-root state was produced from its parent by an applicable,
    /// conflict-free joint action, costs one more step, and shares the
    /// parent's level.
    pub open spec fn lineage_ok(&self) -> bool
        decreases *self,
    {
        match self.parent {
            None => self.g == 0 && self.joint_action is None,
            Some(p) => match self.joint_action {
                None => false,
                Some(ja) => {
                    &&& (*p).lineage_ok()
                    &&& (*p)@.wf()
                    &&& (*p).hash == spec_state_hash((*p)@)
                    &&& self.g == (*p).g + 1
                    &&& (*p)@.joint_applicable(ja@)
                    &&& !(*p)@.conflicting(ja@)
                    &&& self@ == (*p)@.step(ja@)
                },
            },
        }
    }

    /// The full state invariant: a well-formed board, a correct cached hash,
    /// and a coherent ancestry.
    pub open spec fn wf(&self) -> bool {
        &&& self@.wf()
        &&& self.hash == spec_state_hash(self@)
        &&& self.lineage_ok()
    }

    /// The root of the parent chain.
    pub open spec fn root_of(&self) -> State
        decreases *self,
    {
        match self.parent {
            None => *self,
            Some(p) => (*p).root_of(),
        }
    }

    /// The joint actions leading from the root to this state, in order.
    pub open spec fn plan_of(&self) -> Seq<Seq<Action>>
        decreases *self,
    {
        match self.parent {
            None => Seq::empty(),
            Some(p) => match self.joint_action {
                None => Seq::empty(),
                Some(ja) => (*p).plan_of().push(ja@),
            },
        }
    }

    // ---------------------------------------------------------------- exec

    /// Constructs the initial (root) state from parsed level components.
    pub fn new(
        agent_rows: Vec<usize>,
        agent_cols: Vec<usize>,
        agent_colors: Vec<Color>,
        walls: Vec<Vec<bool>>,
        boxes: Vec<Vec<char>>,
        box_colors: Vec<Color>,
        goals: Vec<Vec<char>>,
    ) -> (r: State)
        requires
            model_of(
                agent_rows@,
                agent_cols@,
                agent_colors.deep_view(),
                walls.deep_view(),
                boxes.deep_view(),
                box_colors.deep_view(),
                goals.deep_view(),
            ).wf(),
        ensures
            r@ == model_of(
                agent_rows@,
                agent_cols@,
                agent_colors.deep_view(),
                walls.deep_view(),
                boxes.deep_view(),
                box_colors.deep_view(),
                goals.deep_view(),
            ),
            r.wf(),
            r.is_root(),
    {
        let mut st = State {
            agent_rows,
            agent_cols,
            agent_colors: Rc::new(agent_colors),
            walls: Rc::new(walls),
            boxes,
            box_colors: Rc::new(box_colors),
            goals: Rc::new(goals),
            parent: None,
            joint_action: None,
            g: 0,
            hash: 0,
        };
        let h = st.calculate_hash();
        st.hash = h;
        st
    }

    /// The path cost: the number of joint actions leading here from the root.
    pub fn g(&self) -> (r: usize)
        ensures
            r == self.g,
    {
        self.g
    }

    /// Recomputes the structural hash over agent positions and the box grid.
    pub fn calculate_hash(&self) -> (r: u64)
        requires
            self.agent_cols@.len() == self.agent_rows@.len(),
        ensures
            r == spec_state_hash(self@),
    {
        let mut h: u64 = 0xcbf29ce484222325;
        let n = self.agent_rows.len();
        let mut i: usize = 0;
        while i < n
            invariant
                0 <= i <= n,
                n == self.agent_rows@.len(),
                self.agent_cols@.len() == n,
                h == hash_pos_upto(self@.rows, self@.cols, i as int, hash_offset()),
            decreases n - i,
        {
            h = mix_exec(h, self.agent_rows[i] as u64);
            h = mix_exec(h, self.agent_cols[i] as u64);
            i += 1;
        }
        let nr = self.boxes.len();
        let mut r: usize = 0;
        while r < nr
            invariant
                0 <= r <= nr,
                nr == self.boxes@.len(),
                self.agent_cols@.len() == self.agent_rows@.len(),
                h == hash_rows_upto(
                    self@.boxes,
                    r as int,
                    hash_pos_upto(
                        self@.rows,
                        self@.cols,
                        self@.rows.len() as int,
                        hash_offset(),
                    ),
                ),
            decreases nr - r,
        {
            let nc = self.boxes[r].len();
            let mut c: usize = 0;
            while c < nc
                invariant
                    0 <= c <= nc,
                    r < nr,
                    nr == self.boxes@.len(),
                    nc == self.boxes@[r as int]@.len(),
                    h == hash_row_upto(
                        self@.boxes[r as int],
                        c as int,
                        hash_rows_upto(
                            self@.boxes,
                            r as int,
                            hash_pos_upto(
                                self@.rows,
                                self@.cols,
                                self@.rows.len() as int,
                                hash_offset(),
                            ),
                        ),
                    ),
                decreases nc - c,
            {
                h = mix_exec(h, self.boxes[r][c] as u64);
                c += 1;
            }
            r += 1;
        }
        h
    }

    /// Whether every box goal and agent goal on the board is satisfied.
    pub fn is_goal_state(&self) -> (r: bool)
        requires
            self@.dims_ok(),
        ensures
            r == self@.is_goal(),
    {
        let nr = self.boxes.len();
        let mut row: usize = 0;
        while row < nr
            invariant
                0 <= row <= nr,
                self@.dims_ok(),
                nr == self@.n_rows(),
                forall|r2: int, c2: int|
                    0 <= r2 < row && 0 <= c2 < self@.n_cols() && 'A' <= #[trigger] self@.goals[r2][c2]
                        <= 'Z' ==> self@.boxes[r2][c2] == self@.goals[r2][c2],
                forall|r2: int, c2: int|
                    0 <= r2 < row && 0 <= c2 < self@.n_cols() && '0' <= #[trigger] self@.goals[r2][c2]
                        <= '9' ==> {
                        let i = self@.goals[r2][c2] as int - '0' as int;
                        i < self@.n_agents() && self@.rows[i] == r2 && self@.cols[i] == c2
                    },
            decreases nr - row,
        {
            let nc = self.boxes[row].len();
            let mut col: usize = 0;
            while col < nc
                invariant
                    0 <= col <= nc,
                    row < nr,
                    self@.dims_ok(),
                    nr == self@.n_rows(),
                    nc == self@.n_cols(),
                    forall|r2: int, c2: int|
                        0 <= r2 < row && 0 <= c2 < self@.n_cols() && 'A' <= #[trigger] self@.goals[r2][c2]
                            <= 'Z' ==> self@.boxes[r2][c2] == self@.goals[r2][c2],
                    forall|r2: int, c2: int|
                        0 <= r2 < row && 0 <= c2 < self@.n_cols() && '0' <= #[trigger] self@.goals[r2][c2]
                            <= '9' ==> {
                            let i = self@.goals[r2][c2] as int - '0' as int;
                            i < self@.n_agents() && self@.rows[i] == r2 && self@.cols[i] == c2
                        },
                    forall|c2: int|
                        0 <= c2 < col && 'A' <= #[trigger] self@.goals[row as int][c2] <= 'Z'
                            ==> self@.boxes[row as int][c2] == self@.goals[row as int][c2],
                    forall|c2: int|
                        0 <= c2 < col && '0' <= #[trigger] self@.goals[row as int][c2] <= '9' ==> {
                            let i = self@.goals[row as int][c2] as int - '0' as int;
                            i < self@.n_agents() && self@.rows[i] == row && self@.cols[i] == c2
                        },
                decreases nc - col,
            {
                let goal = self.goals[row][col];
                if goal >= 'A' && goal <= 'Z' && !(self.boxes[row][col] == goal) {
                    return false;
                }
                if goal >= '0' && goal <= '9' {
                    let gi = (goal as u32 - 48) as usize;
                    if gi >= self.agent_rows.len() || self.agent_rows[gi] != row
                        || self.agent_cols[gi] != col {
                        return false;
                    }
                }
                col += 1;
            }
            row += 1;
        }
        true
    }

    /// Whether (row, col) lies inside the grid and holds no wall, box or agent.
    pub fn cell_is_free(&self, row: usize, col: usize) -> (r: bool)
        requires
            self@.dims_ok(),
        ensures
            r == self@.free(row as int, col as int),
    {
        if row >= self.walls.len() || col >= self.walls[0].len() {
            return false;
        }
        if self.walls[row][col] {
            return false;
        }
        let b = self.boxes[row][col];
        if b >= 'A' && b <= 'Z' {
            return false;
        }
        self.agent_at(row, col) == '\0'
    }

    /// The digit of the agent standing on (row, col), or the NUL sentinel.
    pub fn agent_at(&self, row: usize, col: usize) -> (r: char)
        requires
            self.agent_cols@.len() == self.agent_rows@.len(),
            self.agent_rows@.len() <= 10,
        ensures
            (r == no_box()) == !self@.occupied_by_agent(row as int, col as int),
            self@.occupied_by_agent(row as int, col as int) ==> '0' <= r <= '9' && {
                let i = r as int - '0' as int;
                0 <= i < self@.n_agents() && self@.rows[i] == row && self@.cols[i] == col
            },
    {
        let n = self.agent_rows.len();
        let mut i: usize = 0;
        while i < n
            invariant
                0 <= i <= n,
                n == self.agent_rows@.len(),
                self.agent_cols@.len() == n,
                n <= 10,
                n == self@.n_agents(),
                forall|t: int|
                    0 <= t < i ==> !(#[trigger] self@.rows[t] == row && self@.cols[t] == col),
            decreases n - i,
        {
            if self.agent_rows[i] == row && self.agent_cols[i] == col {
                proof {
                    assert(self@.rows[i as int] == self.agent_rows@[i as int] as int);
                    assert(self@.cols[i as int] == self.agent_cols@[i as int] as int);
                }
                return (48 + i as u8) as char;
            }
            i += 1;
        }
        proof {
            assert forall|t: int| 0 <= t < self@.n_agents() implies !(self@.rows[t] == row
                && self@.cols[t] == col) by {
                assert(self@.rows[t] == self.agent_rows@[t] as int);
                assert(self@.cols[t] == self.agent_cols@[t] as int);
            }
        }
        '\0'
    }

    /// Walks the parent chain and returns the joint actions from the root to
    /// this state, in execution order.
    pub fn extract_plan(&self) -> (r: Vec<Vec<Action>>)
        requires
            self.lineage_ok(),
        ensures
            r.deep_view() == self.plan_of(),
    {
        let ghost full = self.plan_of();
        let mut rev: Vec<Vec<Action>> = Vec::new();
        let mut current: &State = self;
        loop
            invariant
                current.lineage_ok(),
                current.plan_of() =~= full.take(full.len() - rev.deep_view().len()),
                rev.deep_view().len() <= full.len(),
                forall|t: int|
                    0 <= t < rev.deep_view().len() ==> #[trigger] rev.deep_view()[t] == full[
                        full.len() - 1 - t
                    ],
            ensures
                rev.deep_view().len() == full.len(),
                forall|t: int|
                    0 <= t < full.len() ==> #[trigger] rev.deep_view()[t] == full[full.len() - 1
                        - t],
            decreases current.g,
        {
            match &current.parent {
                None => {
                    proof {
                        current.lemma_g_is_plan_len();
                        assert(current.plan_of() =~= Seq::<Seq<Action>>::empty());
                    }
                    break;
                },
                Some(p) => {
                    proof {
                        current.lemma_g_is_plan_len();
                        (*p).lemma_g_is_plan_len();
                    }
                    let ja = copy_actions(current.joint_action.as_ref().unwrap());
                    let ghost cur_plan = current.plan_of();
                    proof {
                        assert(cur_plan == (*p).plan_of().push(ja@));
                        assert((*p).plan_of() =~= cur_plan.drop_last());
                        assert(cur_plan[cur_plan.len() - 1] == ja@);
                        assert(full.take(full.len() - rev.deep_view().len()).drop_last()
                            =~= full.take(full.len() - rev.deep_view().len() - 1));
                    }
                    rev.push(ja);
                    current = p;
                },
            }
        }
        let mut plan: Vec<Vec<Action>> = Vec::new();
        let ghost revlen = rev.deep_view().len();
        while rev.len() > 0
            invariant
                rev.deep_view().len() + plan.deep_view().len() == revlen,
                revlen == full.len(),
                forall|t: int|
                    0 <= t < rev.deep_view().len() ==> #[trigger] rev.deep_view()[t] == full[
                        revlen - 1 - t
                    ],
                forall|t: int|
                    0 <= t < plan.deep_view().len() ==> #[trigger] plan.deep_view()[t] == full[t],
            decreases rev.len(),
        {
            let ja = rev.pop().unwrap();
            plan.push(ja);
        }
        proof {
            assert(plan.deep_view() =~= full);
        }
        plan
    }

    /// Structural state equality: same agent positions and same box grid.
    /// Lineage, cost and the level tables do not participate. The cached
    /// hash serves as a fast reject; equal boards always hash alike.
    pub fn equals(&self, other: &State) -> (r: bool)
        requires
            self.wf(),
            other.wf(),
        ensures
            r == (self@.rows == other@.rows && self@.cols == other@.cols && self@.boxes
                == other@.boxes),
    {
        if self.hash != other.hash {
            proof {
                if self@.rows == other@.rows && self@.cols == other@.cols && self@.boxes
                    == other@.boxes {
                    lemma_hash_consistency(self@, other@);
                }
            }
            return false;
        }
        let n = self.agent_rows.len();
        if other.agent_rows.len() != n {
            return false;
        }
        let mut i: usize = 0;
        while i < n
            invariant
                0 <= i <= n,
                n == self.agent_rows@.len(),
                n == other.agent_rows@.len(),
                self.agent_cols@.len() == n,
                other.agent_cols@.len() == n,
                forall|t: int| 0 <= t < i ==> #[trigger] self@.rows[t] == other@.rows[t],
                forall|t: int| 0 <= t < i ==> #[trigger] self@.cols[t] == other@.cols[t],
            decreases n - i,
        {
            proof {
                assert(self@.rows[i as int] == self.agent_rows@[i as int] as int);
                assert(other@.rows[i as int] == other.agent_rows@[i as int] as int);
                assert(self@.cols[i as int] == self.agent_cols@[i as int] as int);
                assert(other@.cols[i as int] == other.agent_cols@[i as int] as int);
            }
            if self.agent_rows[i] != other.agent_rows[i] || self.agent_cols[i]
                != other.agent_cols[i] {
                return false;
            }
            i += 1;
        }
        let nr = self.boxes.len();
        if other.boxes.len() != nr {
            proof {
                assert(self@.boxes.len() != other@.boxes.len());
            }
            return false;
        }
        let mut r2: usize = 0;
        while r2 < nr
            invariant
                0 <= r2 <= nr,
                nr == self.boxes@.len(),
                nr == other.boxes@.len(),
                forall|t: int| 0 <= t < r2 ==> #[trigger] self@.boxes[t] == other@.boxes[t],
            decreases nr - r2,
        {
            let rowa = &self.boxes[r2];
            let rowb = &other.boxes[r2];
            let m2 = rowa.len();
            if rowb.len() != m2 {
                proof {
                    assert(self@.boxes[r2 as int].len() != other@.boxes[r2 as int].len());
                }
                return false;
            }
            let mut c2: usize = 0;
            while c2 < m2
                invariant
                    0 <= c2 <= m2,
                    r2 < nr,
                    nr == self.boxes@.len(),
                    nr == other.boxes@.len(),
                    m2 == rowa@.len(),
                    m2 == rowb@.len(),
                    rowa@ == self@.boxes[r2 as int],
                    rowb@ == other@.boxes[r2 as int],
                    forall|u: int| 0 <= u < c2 ==> #[trigger] rowa@[u] == rowb@[u],
                decreases m2 - c2,
            {
                if rowa[c2] != rowb[c2] {
                    return false;
                }
                c2 += 1;
            }
            proof {
                assert(self@.boxes[r2 as int] =~= other@.boxes[r2 as int]);
            }
            r2 += 1;
        }
        proof {
            assert(self@.rows =~= other@.rows);
            assert(self@.cols =~= other@.cols);
            assert(self@.boxes =~~= other@.boxes);
        }
        true
    }

    /// Parent cost law: a child costs one more step than its parent and the
    /// root costs nothing.
    pub proof fn lemma_parent_g(&self)
        requires
            self.lineage_ok(),
        ensures
            self.parent matches Some(p) ==> self.g == (*p).g + 1,
            self.parent is None ==> self.g == 0,
    {
    }

    /// The path cost equals the plan length.
    pub proof fn lemma_g_is_plan_len(&self)
        requires
            self.lineage_ok(),
        ensures
            self.g == self.plan_of().len(),
        decreases *self,
    {
        match self.parent {
            None => {},
            Some(p) => {
                (*p).lemma_g_is_plan_len();
            },
        }
    }

    /// Plan well-formedness: replaying the recorded plan from the root is
    /// applicable and conflict-free at every step and reproduces this state.
    pub proof fn lemma_plan_wellformed(&self)
        requires
            self.lineage_ok(),
        ensures
            self.root_of().plan_of() == Seq::<Seq<Action>>::empty(),
            self.root_of()@.plan_ok(self.plan_of()),
            self.root_of()@.run_plan(self.plan_of()) == self@,
        decreases *self,
    {
        match self.parent {
            None => {
                assert(self.plan_of() =~= Seq::<Seq<Action>>::empty());
            },
            Some(p) => {
                let ja = self.joint_action->Some_0;
                (*p).lemma_plan_wellformed();
                lemma_plan_ok_snoc(self.root_of()@, (*p).plan_of(), ja@);
                lemma_run_plan_snoc(self.root_of()@, (*p).plan_of(), ja@);
            },
        }
    }
}

/// One mixing round, executably.
fn mix_exec(h: u64, v: u64) -> (r: u64)
    ensures
        r == mix(h, v),
{
    (h ^ v).wrapping_mul(0x100000001b3)
}

/// Copies a joint action vector.
pub fn copy_actions(v: &Vec<Action>) -> (r: Vec<Action>)
    ensures
        r@ == v@,
{
    let mut r: Vec<Action> = Vec::new();
    let n = v.len();
    let mut i: usize = 0;
    while i < n
        invariant
            0 <= i <= n,
            n == v@.len(),
            r@ =~= v@.take(i as int),
        decreases n - i,
    {
        r.push(v[i]);
        i += 1;
    }
    proof {
        assert(r@ =~= v@);
    }
    r
}



/// Peeling the last step off an executable plan: the shorter plan is
/// executable, and the final step is applicable and conflict-free where
/// the shorter plan ends.
pub proof fn lemma_plan_ok_unsnoc(m: Model, plan: Seq<Seq<Action>>)
    requires
        m.plan_ok(plan),
        plan.len() >= 1,
    ensures
        m.plan_ok(plan.drop_last()),
        m.run_plan(plan.drop_last()).joint_applicable(plan.last()),
        !m.run_plan(plan.drop_last()).conflicting(plan.last()),
        m.run_plan(plan) == m.run_plan(plan.drop_last()).step(plan.last()),
    decreases plan.len(),
{
    if plan.len() == 1 {
        assert(plan.drop_last() =~= Seq::<Seq<Action>>::empty());
        assert(plan[0] == plan.last());
        assert(plan.drop_first() =~= Seq::<Seq<Action>>::empty());
        assert(m.run_plan(plan) == m.step(plan[0]).run_plan(plan.drop_first()));
        assert(m.run_plan(plan.drop_last()) == m);
    } else {
        let m2 = m.step(plan[0]);
        lemma_plan_ok_unsnoc(m2, plan.drop_first());
        assert(plan.drop_first().drop_last() =~= plan.drop_last().drop_first());
        assert(plan.drop_last()[0] == plan[0]);
        assert(plan.drop_first().last() == plan.last());
        assert(m.run_plan(plan.drop_last()) == m2.run_plan(plan.drop_last().drop_first()));
        assert(m.run_plan(plan) == m2.run_plan(plan.drop_first()));
    }
}

/// Appending one executable step keeps a plan executable.
pub proof fn lemma_plan_ok_snoc(m: Model, plan: Seq<Seq<Action>>, ja: Seq<Action>)
    requires
        m.plan_ok(plan),
        m.run_plan(plan).joint_applicable(ja),
        !m.run_plan(plan).conflicting(ja),
    ensures
        m.plan_ok(plan.push(ja)),
    decreases plan.len(),
{
    let ext = plan.push(ja);
    assert(ext.len() == plan.len() + 1);
    if plan.len() == 0 {
        assert(ext[0] == ja);
        assert(ext.drop_first() =~= Seq::<Seq<Action>>::empty());
        assert(m.step(ja).plan_ok(ext.drop_first()));
        assert(m.joint_applicable(ext[0]) && !m.conflicting(ext[0]));
    } else {
        assert(ext.drop_first() =~= plan.drop_first().push(ja));
        assert(ext[0] == plan[0]);
        assert(m.run_plan(plan) == m.step(plan[0]).run_plan(plan.drop_first()));
        lemma_plan_ok_snoc(m.step(plan[0]), plan.drop_first(), ja);
        assert(m.joint_applicable(ext[0]) && !m.conflicting(ext[0]));
        assert(m.step(ext[0]).plan_ok(ext.drop_first()));
    }
    assert(m.plan_ok(ext));
}

/// Running a plan extended by one step runs the plan, then the step.
pub proof fn lemma_run_plan_snoc(m: Model, plan: Seq<Seq<Action>>, ja: Seq<Action>)
    ensures
        m.run_plan(plan.push(ja)) == m.run_plan(plan).step(ja),
    decreases plan.len(),
{
    let ext = plan.push(ja);
    assert(ext.len() == plan.len() + 1);
    assert(m.run_plan(ext) == m.step(ext[0]).run_plan(ext.drop_first()));
    if plan.len() == 0 {
        assert(ext[0] == ja);
        assert(ext.drop_first() =~= Seq::<Seq<Action>>::empty());
        assert(m.step(ja).run_plan(ext.drop_first()) == m.step(ja));
    } else {
        assert(ext.drop_first() =~= plan.drop_first().push(ja));
        assert(ext[0] == plan[0]);
        lemma_run_plan_snoc(m.step(plan[0]), plan.drop_first(), ja);
        assert(m.run_plan(plan) == m.step(plan[0]).run_plan(plan.drop_first()));
    }
}

} // verus!
