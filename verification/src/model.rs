//! The mathematical model of a search state: agent positions, the box grid,
//! and the immutable level data, together with the action semantics — cell
//! freedom, applicability, joint-action conflicts, the step function, and
//! the goal test. Every executable contract in the crate speaks this model.

use vstd::prelude::*;
use crate::action::{Action, ActionType, spec_action_type, spec_agent_row_delta, spec_agent_col_delta, spec_box_row_delta, spec_box_col_delta, moves_box};
use crate::color::Color;

verus! {

/// A ghost snapshot of one search state over its level.
pub struct Model {
    pub rows: Seq<int>,
    pub cols: Seq<int>,
    pub walls: Seq<Seq<bool>>,
    pub boxes: Seq<Seq<char>>,
    pub goals: Seq<Seq<char>>,
    pub agent_colors: Seq<Color>,
    pub box_colors: Seq<Color>,
}

pub open spec fn no_box() -> char {
    '\0'
}

impl Model {
    pub open spec fn n_agents(self) -> int {
        self.rows.len() as int
    }

    pub open spec fn n_rows(self) -> int {
        self.walls.len() as int
    }

    pub open spec fn n_cols(self) -> int {
        self.walls[0].len() as int
    }

    pub open spec fn in_bounds(self, r: int, c: int) -> bool {
        0 <= r < self.n_rows() && 0 <= c < self.n_cols()
    }

    pub open spec fn wall_at(self, r: int, c: int) -> bool {
        self.walls[r][c]
    }

    pub open spec fn box_at(self, r: int, c: int) -> char {
        self.boxes[r][c]
    }

    pub open spec fn has_box(self, r: int, c: int) -> bool {
        self.in_bounds(r, c) && 'A' <= self.box_at(r, c) <= 'Z'
    }

    /// The color of the box on (r, c).
    pub open spec fn box_color_at(self, r: int, c: int) -> Color {
        self.box_colors[self.box_at(r, c) as int - 'A' as int]
    }

    pub open spec fn occupied_by_agent(self, r: int, c: int) -> bool {
        exists|i: int| 0 <= i < self.n_agents() && self.rows[i] == r && self.cols[i] == c
    }

    /// A cell is free when it is inside the grid and holds no wall, box or agent.
    pub open spec fn free(self, r: int, c: int) -> bool {
        &&& self.in_bounds(r, c)
        &&& !self.wall_at(r, c)
        &&& !self.has_box(r, c)
        &&& !self.occupied_by_agent(r, c)
    }

    /// Grid sizes agree and stay within the supported dimensions. The cap
    /// of 512 cells per side is a machine limit, not a rule of the domain:
    /// it keeps every heuristic sum (at worst rows * cols * (rows + cols)
    /// cell distances) within `isize` even on 32-bit targets.
    pub open spec fn dims_ok(self) -> bool {
        &&& 1 <= self.n_rows() <= 512
        &&& 1 <= self.n_cols() <= 512
        &&& forall|r: int| 0 <= r < self.n_rows() ==> (#[trigger] self.walls[r]).len() == self.n_cols()
        &&& self.boxes.len() == self.n_rows()
        &&& forall|r: int| 0 <= r < self.n_rows() ==> (#[trigger] self.boxes[r]).len() == self.n_cols()
        &&& self.goals.len() == self.n_rows()
        &&& forall|r: int| 0 <= r < self.n_rows() ==> (#[trigger] self.goals[r]).len() == self.n_cols()
        &&& self.cols.len() == self.rows.len()
        &&& self.rows.len() <= 10
        &&& self.agent_colors.len() == 10
        &&& self.box_colors.len() == 26
    }

    /// The outermost rows and columns are all walls.
    pub open spec fn bordered(self) -> bool {
        &&& forall|c: int| 0 <= c < self.n_cols() ==> #[trigger] self.wall_at(0, c)
        &&& forall|c: int| 0 <= c < self.n_cols() ==> #[trigger] self.wall_at(self.n_rows() - 1, c)
        &&& forall|r: int| 0 <= r < self.n_rows() ==> #[trigger] self.wall_at(r, 0)
        &&& forall|r: int| 0 <= r < self.n_rows() ==> #[trigger] self.wall_at(r, self.n_cols() - 1)
    }

    /// Box cells hold a letter or the no-box sentinel; goal cells hold a
    /// letter, a digit, or the sentinel.
    pub open spec fn cells_ok(self) -> bool {
        &&& forall|r: int, c: int|
            0 <= r < self.n_rows() && 0 <= c < self.n_cols() ==> (#[trigger] self.boxes[r][c]
                == no_box() || 'A' <= self.boxes[r][c] <= 'Z')
        &&& forall|r: int, c: int|
            0 <= r < self.n_rows() && 0 <= c < self.n_cols() ==> (#[trigger] self.goals[r][c]
                == no_box() || ('A' <= self.goals[r][c] <= 'Z') || ('0' <= self.goals[r][c] <= '9'))
    }

    /// Agents stand inside the grid on free floor; boxes never sit on walls;
    /// no two agents share a cell and no agent stands on a box.
    pub open spec fn placement_ok(self) -> bool {
        &&& forall|i: int|
            0 <= i < self.n_agents() ==> self.in_bounds(#[trigger] self.rows[i], self.cols[i])
        &&& forall|i: int|
            0 <= i < self.n_agents() ==> !self.wall_at(#[trigger] self.rows[i], self.cols[i])
        &&& forall|i: int|
            0 <= i < self.n_agents() ==> !self.has_box(#[trigger] self.rows[i], self.cols[i])
        &&& forall|i: int, j: int|
            0 <= i < self.n_agents() && 0 <= j < self.n_agents() && i != j ==> !(#[trigger] self.rows[i]
                == #[trigger] self.rows[j] && self.cols[i] == self.cols[j])
        &&& forall|r: int, c: int| self.has_box(r, c) ==> !self.wall_at(r, c)
    }

    /// The state invariant: every reachable state satisfies this.
    pub open spec fn wf(self) -> bool {
        &&& self.dims_ok()
        &&& self.bordered()
        &&& self.cells_ok()
        &&& self.placement_ok()
    }

    // ---------------------------------------------------------------- goals

    /// Every box goal is covered by the right letter and every agent goal by
    /// the right agent.
    pub open spec fn is_goal(self) -> bool {
        &&& forall|r: int, c: int|
            0 <= r < self.n_rows() && 0 <= c < self.n_cols() && 'A' <= #[trigger] self.goals[r][c]
                <= 'Z' ==> self.boxes[r][c] == self.goals[r][c]
        &&& forall|r: int, c: int|
            0 <= r < self.n_rows() && 0 <= c < self.n_cols() && '0' <= #[trigger] self.goals[r][c]
                <= '9' ==> {
                let i = self.goals[r][c] as int - '0' as int;
                i < self.n_agents() && self.rows[i] == r && self.cols[i] == c
            }
    }

    // ------------------------------------------------------ action geometry

    /// Row the agent lands on.
    pub open spec fn dest_r(self, i: int, a: Action) -> int {
        self.rows[i] + spec_agent_row_delta(a)
    }

    /// Column the agent lands on.
    pub open spec fn dest_c(self, i: int, a: Action) -> int {
        self.cols[i] + spec_agent_col_delta(a)
    }

    /// Row of the box the action touches, before the step.
    pub open spec fn bsrc_r(self, i: int, a: Action) -> int {
        if spec_action_type(a) == ActionType::Push {
            self.dest_r(i, a)
        } else {
            self.rows[i] - spec_box_row_delta(a)
        }
    }

    /// Column of the box the action touches, before the step.
    pub open spec fn bsrc_c(self, i: int, a: Action) -> int {
        if spec_action_type(a) == ActionType::Push {
            self.dest_c(i, a)
        } else {
            self.cols[i] - spec_box_col_delta(a)
        }
    }

    /// Row the touched box lands on: the box moves by its own delta.
    pub open spec fn bdst_r(self, i: int, a: Action) -> int {
        self.bsrc_r(i, a) + spec_box_row_delta(a)
    }

    /// Column the touched box lands on.
    pub open spec fn bdst_c(self, i: int, a: Action) -> int {
        self.bsrc_c(i, a) + spec_box_col_delta(a)
    }

    // --------------------------------------------------------- applicability

    /// Whether agent i may execute action a on its own: `NoOp` always; a move
    /// needs a free destination; a push needs an own-colored box ahead and a
    /// free landing cell for it; a pull needs an own-colored box behind and a
    /// free destination for the agent.
    pub open spec fn applicable(self, i: int, a: Action) -> bool {
        match spec_action_type(a) {
            ActionType::NoOp => true,
            ActionType::Move => self.free(self.dest_r(i, a), self.dest_c(i, a)),
            ActionType::Push => {
                &&& self.has_box(self.bsrc_r(i, a), self.bsrc_c(i, a))
                &&& self.box_color_at(self.bsrc_r(i, a), self.bsrc_c(i, a))
                    == self.agent_colors[i]
                &&& self.free(self.bdst_r(i, a), self.bdst_c(i, a))
            },
            ActionType::Pull => {
                &&& self.has_box(self.bsrc_r(i, a), self.bsrc_c(i, a))
                &&& self.box_color_at(self.bsrc_r(i, a), self.bsrc_c(i, a))
                    == self.agent_colors[i]
                &&& self.free(self.dest_r(i, a), self.dest_c(i, a))
            },
        }
    }

    /// A complete joint action: one applicable action per agent.
    pub open spec fn joint_applicable(self, ja: Seq<Action>) -> bool {
        &&& ja.len() == self.n_agents()
        &&& forall|k: int| 0 <= k < ja.len() ==> self.applicable(k, #[trigger] ja[k])
    }

    // -------------------------------------------------------------- conflicts

    /// The conflict conditions checked from agent i's perspective against
    /// agent j. Besides the classical rules — shared agent destination,
    /// stepping onto a resting agent, swapping cells, boxes and agents
    /// crossing, shared box destination, pulling a box out from under an
    /// arriving agent — two agents touching the same box also conflict.
    pub open spec fn pair_conflict(self, ja: Seq<Action>, i: int, j: int) -> bool {
        let ai = ja[i];
        let aj = ja[j];
        ||| (self.dest_r(i, ai) == self.dest_r(j, aj) && self.dest_c(i, ai) == self.dest_c(j, aj))
        ||| (self.dest_r(i, ai) == self.rows[j] && self.dest_c(i, ai) == self.cols[j]
            && spec_action_type(aj) == ActionType::NoOp)
        ||| (self.dest_r(j, aj) == self.rows[i] && self.dest_c(j, aj) == self.cols[i]
            && spec_action_type(ai) == ActionType::NoOp)
        ||| (self.dest_r(i, ai) == self.rows[j] && self.dest_c(i, ai) == self.cols[j]
            && self.dest_r(j, aj) == self.rows[i] && self.dest_c(j, aj) == self.cols[i])
        ||| (spec_action_type(aj) == ActionType::Push && self.dest_r(i, ai) == self.bdst_r(j, aj)
            && self.dest_c(i, ai) == self.bdst_c(j, aj))
        ||| (spec_action_type(ai) == ActionType::Push && self.dest_r(j, aj) == self.bdst_r(i, ai)
            && self.dest_c(j, aj) == self.bdst_c(i, ai))
        ||| (moves_box(ai) && moves_box(aj) && self.bdst_r(i, ai) == self.bdst_r(j, aj)
            && self.bdst_c(i, ai) == self.bdst_c(j, aj))
        ||| (spec_action_type(ai) == ActionType::Pull && self.bsrc_r(i, ai) == self.dest_r(j, aj)
            && self.bsrc_c(i, ai) == self.dest_c(j, aj))
        ||| (spec_action_type(aj) == ActionType::Pull && self.bsrc_r(j, aj) == self.dest_r(i, ai)
            && self.bsrc_c(j, aj) == self.dest_c(i, ai))
        ||| (moves_box(ai) && moves_box(aj) && self.bsrc_r(i, ai) == self.bsrc_r(j, aj)
            && self.bsrc_c(i, ai) == self.bsrc_c(j, aj))
    }

    /// A joint action conflicts when some ordered pair of distinct agents
    /// meets a conflict condition.
    pub open spec fn conflicting(self, ja: Seq<Action>) -> bool {
        exists|i: int, j: int|
            0 <= i < self.n_agents() && 0 <= j < self.n_agents() && i != j && self.pair_conflict(
                ja,
                i,
                j,
            )
    }

    // ------------------------------------------------------------------ step

    /// Agent positions after the joint action.
    pub open spec fn step_rows(self, ja: Seq<Action>) -> Seq<int> {
        Seq::new(self.rows.len(), |k: int| self.dest_r(k, ja[k]))
    }

    pub open spec fn step_cols(self, ja: Seq<Action>) -> Seq<int> {
        Seq::new(self.cols.len(), |k: int| self.dest_c(k, ja[k]))
    }

    /// Whether one of the first `upto` agents moves a box out of (r, c).
    pub open spec fn vacated_upto(self, ja: Seq<Action>, upto: int, r: int, c: int) -> bool {
        exists|k: int|
            0 <= k < upto && k < ja.len() && moves_box(#[trigger] ja[k]) && self.bsrc_r(k, ja[k])
                == r && self.bsrc_c(k, ja[k]) == c
    }

    /// Whether one of the first `upto` agents moves a box onto (r, c).
    pub open spec fn box_arrives_upto(self, ja: Seq<Action>, upto: int, r: int, c: int) -> bool {
        exists|k: int|
            0 <= k < upto && k < ja.len() && moves_box(#[trigger] ja[k]) && self.bdst_r(k, ja[k])
                == r && self.bdst_c(k, ja[k]) == c
    }

    /// The letter that one of the first `upto` agents lands on (r, c).
    pub open spec fn arriving_box_upto(self, ja: Seq<Action>, upto: int, r: int, c: int) -> char {
        let k = choose|k: int|
            0 <= k < upto && k < ja.len() && moves_box(#[trigger] ja[k]) && self.bdst_r(k, ja[k])
                == r && self.bdst_c(k, ja[k]) == c;
        self.box_at(self.bsrc_r(k, ja[k]), self.bsrc_c(k, ja[k]))
    }

    /// Content of box cell (r, c) after the first `upto` agents acted.
    pub open spec fn step_cell_upto(self, ja: Seq<Action>, upto: int, r: int, c: int) -> char {
        if self.box_arrives_upto(ja, upto, r, c) {
            self.arriving_box_upto(ja, upto, r, c)
        } else if self.vacated_upto(ja, upto, r, c) {
            no_box()
        } else {
            self.box_at(r, c)
        }
    }

    /// The box grid once the first `upto` agents have acted.
    pub open spec fn partial_boxes(self, ja: Seq<Action>, upto: int) -> Seq<Seq<char>> {
        Seq::new(
            self.boxes.len(),
            |r: int| Seq::new(self.boxes[r].len(), |c: int| self.step_cell_upto(ja, upto, r, c)),
        )
    }

    /// Whether some agent moves a box out of (r, c).
    pub open spec fn vacated(self, ja: Seq<Action>, r: int, c: int) -> bool {
        self.vacated_upto(ja, ja.len() as int, r, c)
    }

    /// Whether some agent moves a box onto (r, c).
    pub open spec fn box_arrives(self, ja: Seq<Action>, r: int, c: int) -> bool {
        self.box_arrives_upto(ja, ja.len() as int, r, c)
    }

    /// Content of box cell (r, c) after the joint action.
    pub open spec fn step_cell(self, ja: Seq<Action>, r: int, c: int) -> char {
        self.step_cell_upto(ja, ja.len() as int, r, c)
    }

    pub open spec fn step_boxes(self, ja: Seq<Action>) -> Seq<Seq<char>> {
        self.partial_boxes(ja, ja.len() as int)
    }

    /// The model after executing a joint action: agents displaced, touched
    /// boxes moved, the level untouched.
    pub open spec fn step(self, ja: Seq<Action>) -> Model {
        Model {
            rows: self.step_rows(ja),
            cols: self.step_cols(ja),
            boxes: self.step_boxes(ja),
            walls: self.walls,
            goals: self.goals,
            agent_colors: self.agent_colors,
            box_colors: self.box_colors,
        }
    }

    // ------------------------------------------------- effects of a step

    /// Two cells are the same.
    pub open spec fn same_cell(r1: int, c1: int, r2: int, c2: int) -> bool {
        r1 == r2 && c1 == c2
    }

    /// The cells touched by an applicable, conflict-free joint action are
    /// pairwise disjoint in every way the step function relies on.
    pub proof fn lemma_effect_cells(self, ja: Seq<Action>)
        requires
            self.wf(),
            self.joint_applicable(ja),
            !self.conflicting(ja),
        ensures
            forall|k: int|
                0 <= k < ja.len() ==> self.in_bounds(
                    #[trigger] self.dest_r(k, ja[k]),
                    self.dest_c(k, ja[k]),
                ) && !self.wall_at(self.dest_r(k, ja[k]), self.dest_c(k, ja[k])),
            forall|k: int|
                0 <= k < ja.len() && moves_box(#[trigger] ja[k]) ==> self.has_box(
                    self.bsrc_r(k, ja[k]),
                    self.bsrc_c(k, ja[k]),
                ),
            forall|k: int|
                0 <= k < ja.len() && moves_box(#[trigger] ja[k]) ==> self.in_bounds(
                    self.bdst_r(k, ja[k]),
                    self.bdst_c(k, ja[k]),
                ) && !self.wall_at(self.bdst_r(k, ja[k]), self.bdst_c(k, ja[k])) && !self.has_box(
                    self.bdst_r(k, ja[k]),
                    self.bdst_c(k, ja[k]),
                ),
            forall|k: int|
                0 <= k < ja.len() && moves_box(#[trigger] ja[k]) ==> !Self::same_cell(
                    self.bsrc_r(k, ja[k]),
                    self.bsrc_c(k, ja[k]),
                    self.bdst_r(k, ja[k]),
                    self.bdst_c(k, ja[k]),
                ),
            forall|k: int, t: int|
                0 <= k < ja.len() && 0 <= t < ja.len() && k != t ==> !Self::same_cell(
                    #[trigger] self.dest_r(k, ja[k]),
                    self.dest_c(k, ja[k]),
                    #[trigger] self.dest_r(t, ja[t]),
                    self.dest_c(t, ja[t]),
                ),
            forall|k: int, t: int|
                0 <= k < ja.len() && 0 <= t < ja.len() && k != t && moves_box(#[trigger] ja[k])
                    && moves_box(#[trigger] ja[t]) ==> !Self::same_cell(
                    self.bsrc_r(k, ja[k]),
                    self.bsrc_c(k, ja[k]),
                    self.bsrc_r(t, ja[t]),
                    self.bsrc_c(t, ja[t]),
                ) && !Self::same_cell(
                    self.bdst_r(k, ja[k]),
                    self.bdst_c(k, ja[k]),
                    self.bdst_r(t, ja[t]),
                    self.bdst_c(t, ja[t]),
                ),
            forall|k: int, t: int|
                0 <= k < ja.len() && 0 <= t < ja.len() && moves_box(#[trigger] ja[k]) && moves_box(
                    #[trigger] ja[t],
                ) ==> !Self::same_cell(
                    self.bdst_r(t, ja[t]),
                    self.bdst_c(t, ja[t]),
                    self.bsrc_r(k, ja[k]),
                    self.bsrc_c(k, ja[k]),
                ),
            forall|k: int, t: int|
                0 <= k < ja.len() && 0 <= t < ja.len() && moves_box(#[trigger] ja[t])
                    ==> !Self::same_cell(
                    self.bdst_r(t, ja[t]),
                    self.bdst_c(t, ja[t]),
                    #[trigger] self.dest_r(k, ja[k]),
                    self.dest_c(k, ja[k]),
                ),
            forall|k: int|
                0 <= k < ja.len() ==> !self.has_box(
                    #[trigger] self.dest_r(k, ja[k]),
                    self.dest_c(k, ja[k]),
                ) || (moves_box(ja[k]) && Self::same_cell(
                    self.dest_r(k, ja[k]),
                    self.dest_c(k, ja[k]),
                    self.bsrc_r(k, ja[k]),
                    self.bsrc_c(k, ja[k]),
                )),
    {
        assert forall|k: int, t: int|
            0 <= k < ja.len() && 0 <= t < ja.len() && k != t implies !self.pair_conflict(
            ja,
            k,
            t,
        ) by {
            assert(self.n_agents() == ja.len());
        }
        assert forall|k: int| 0 <= k < ja.len() implies self.in_bounds(
            #[trigger] self.dest_r(k, ja[k]),
            self.dest_c(k, ja[k]),
        ) && !self.wall_at(self.dest_r(k, ja[k]), self.dest_c(k, ja[k])) && (!self.has_box(
            self.dest_r(k, ja[k]),
            self.dest_c(k, ja[k]),
        ) || (moves_box(ja[k]) && Self::same_cell(
            self.dest_r(k, ja[k]),
            self.dest_c(k, ja[k]),
            self.bsrc_r(k, ja[k]),
            self.bsrc_c(k, ja[k]),
        ))) by {
            assert(self.applicable(k, ja[k]));
            match spec_action_type(ja[k]) {
                ActionType::NoOp => {
                    assert(self.dest_r(k, ja[k]) == self.rows[k]);
                },
                ActionType::Move => {},
                ActionType::Push => {
                    assert(self.has_box(self.bsrc_r(k, ja[k]), self.bsrc_c(k, ja[k])));
                },
                ActionType::Pull => {},
            }
        }
        assert forall|k: int, t: int|
            0 <= k < ja.len() && 0 <= t < ja.len() && k != t implies !Self::same_cell(
            #[trigger] self.dest_r(k, ja[k]),
            self.dest_c(k, ja[k]),
            #[trigger] self.dest_r(t, ja[t]),
            self.dest_c(t, ja[t]),
        ) by {
            assert(!self.pair_conflict(ja, k, t));
        }
        assert forall|k: int, t: int|
            0 <= k < ja.len() && 0 <= t < ja.len() && k != t && moves_box(#[trigger] ja[k])
                && moves_box(#[trigger] ja[t]) implies !Self::same_cell(
            self.bsrc_r(k, ja[k]),
            self.bsrc_c(k, ja[k]),
            self.bsrc_r(t, ja[t]),
            self.bsrc_c(t, ja[t]),
        ) && !Self::same_cell(
            self.bdst_r(k, ja[k]),
            self.bdst_c(k, ja[k]),
            self.bdst_r(t, ja[t]),
            self.bdst_c(t, ja[t]),
        ) by {
            assert(!self.pair_conflict(ja, k, t));
        }
        assert forall|k: int|
            0 <= k < ja.len() && moves_box(#[trigger] ja[k]) implies self.in_bounds(
            self.bdst_r(k, ja[k]),
            self.bdst_c(k, ja[k]),
        ) && !self.wall_at(self.bdst_r(k, ja[k]), self.bdst_c(k, ja[k])) && !self.has_box(
            self.bdst_r(k, ja[k]),
            self.bdst_c(k, ja[k]),
        ) && !Self::same_cell(
            self.bsrc_r(k, ja[k]),
            self.bsrc_c(k, ja[k]),
            self.bdst_r(k, ja[k]),
            self.bdst_c(k, ja[k]),
        ) by {
            assert(self.applicable(k, ja[k]));
            if spec_action_type(ja[k]) == ActionType::Pull {
                assert(self.bdst_r(k, ja[k]) == self.rows[k]);
                assert(self.bdst_c(k, ja[k]) == self.cols[k]);
            }
        }
        assert forall|k: int, t: int|
            0 <= k < ja.len() && 0 <= t < ja.len() && moves_box(#[trigger] ja[t])
            implies !Self::same_cell(
            self.bdst_r(t, ja[t]),
            self.bdst_c(t, ja[t]),
            #[trigger] self.dest_r(k, ja[k]),
            self.dest_c(k, ja[k]),
        ) by {
            assert(self.applicable(k, ja[k]));
            assert(self.applicable(t, ja[t]));
            if k == t {
                if spec_action_type(ja[t]) == ActionType::Pull {
                    assert(!(spec_agent_row_delta(ja[k]) == 0 && spec_agent_col_delta(ja[k])
                        == 0));
                }
            } else {
                assert(!self.pair_conflict(ja, k, t));
                if spec_action_type(ja[t]) == ActionType::Pull {
                    // The box lands on agent t's old cell; no other agent can
                    // be heading there, since that cell is occupied now.
                    assert(self.occupied_by_agent(self.rows[t], self.cols[t]));
                    match spec_action_type(ja[k]) {
                        ActionType::NoOp => {},
                        ActionType::Move | ActionType::Pull => {},
                        ActionType::Push => {
                            assert(self.has_box(self.bsrc_r(k, ja[k]), self.bsrc_c(k, ja[k])));
                        },
                    }
                }
            }
        }
    }

    /// Applicability precondition law: executing any applicable,
    /// conflict-free joint action in a well-formed state yields a state that
    /// satisfies every invariant again.
    pub proof fn lemma_step_preserves_wf(self, ja: Seq<Action>)
        requires
            self.wf(),
            self.joint_applicable(ja),
            !self.conflicting(ja),
        ensures
            self.step(ja).wf(),
    {
        self.lemma_effect_cells(ja);
        let s2 = self.step(ja);
        assert(s2.n_rows() == self.n_rows());
        assert(s2.n_cols() == self.n_cols());
        assert forall|r: int| 0 <= r < s2.n_rows() implies (#[trigger] s2.boxes[r]).len()
            == s2.n_cols() by {
            assert(self.boxes[r].len() == self.n_cols());
        }
        assert(s2.dims_ok());
        assert forall|c: int| 0 <= c < s2.n_cols() implies #[trigger] s2.wall_at(0, c) by {
            assert(self.wall_at(0, c));
        }
        assert forall|c: int| 0 <= c < s2.n_cols() implies #[trigger] s2.wall_at(
            s2.n_rows() - 1,
            c,
        ) by {
            assert(self.wall_at(self.n_rows() - 1, c));
        }
        assert forall|r: int| 0 <= r < s2.n_rows() implies #[trigger] s2.wall_at(r, 0) by {
            assert(self.wall_at(r, 0));
        }
        assert forall|r: int| 0 <= r < s2.n_rows() implies #[trigger] s2.wall_at(
            r,
            s2.n_cols() - 1,
        ) by {
            assert(self.wall_at(r, self.n_cols() - 1));
        }
        assert(s2.bordered());
        // Box cells after the step hold a letter or the sentinel.
        assert forall|r: int, c: int|
            0 <= r < s2.n_rows() && 0 <= c < s2.n_cols() implies (#[trigger] s2.boxes[r][c]
            == no_box() || 'A' <= s2.boxes[r][c] <= 'Z') by {
            assert(s2.boxes[r][c] == self.step_cell_upto(ja, ja.len() as int, r, c));
            if self.box_arrives_upto(ja, ja.len() as int, r, c) {
                let k = choose|k: int|
                    0 <= k < ja.len() as int && k < ja.len() && moves_box(#[trigger] ja[k])
                        && self.bdst_r(k, ja[k]) == r && self.bdst_c(k, ja[k]) == c;
                assert(self.has_box(self.bsrc_r(k, ja[k]), self.bsrc_c(k, ja[k])));
            }
        }
        assert(s2.cells_ok());
        // Agents land in bounds, off walls, and on distinct cells.
        assert forall|i: int| 0 <= i < s2.n_agents() implies self.in_bounds(
            #[trigger] s2.rows[i],
            s2.cols[i],
        ) && !self.wall_at(s2.rows[i], s2.cols[i]) by {
            assert(s2.rows[i] == self.dest_r(i, ja[i]));
            assert(s2.cols[i] == self.dest_c(i, ja[i]));
        }
        assert forall|i: int, j: int|
            0 <= i < s2.n_agents() && 0 <= j < s2.n_agents() && i != j implies !(
        #[trigger] s2.rows[i] == #[trigger] s2.rows[j] && s2.cols[i] == s2.cols[j]) by {
            assert(s2.rows[i] == self.dest_r(i, ja[i]) && s2.cols[i] == self.dest_c(i, ja[i]));
            assert(s2.rows[j] == self.dest_r(j, ja[j]) && s2.cols[j] == self.dest_c(j, ja[j]));
            assert(!Self::same_cell(
                self.dest_r(i, ja[i]),
                self.dest_c(i, ja[i]),
                self.dest_r(j, ja[j]),
                self.dest_c(j, ja[j]),
            ));
        }
        // No agent lands on a box cell of the new grid.
        assert forall|i: int| 0 <= i < s2.n_agents() implies !s2.has_box(
            #[trigger] s2.rows[i],
            s2.cols[i],
        ) by {
            let r = self.dest_r(i, ja[i]);
            let c = self.dest_c(i, ja[i]);
            assert(s2.rows[i] == r && s2.cols[i] == c);
            assert(s2.boxes[r][c] == self.step_cell_upto(ja, ja.len() as int, r, c));
            if self.box_arrives_upto(ja, ja.len() as int, r, c) {
                let k = choose|k: int|
                    0 <= k < ja.len() as int && k < ja.len() && moves_box(#[trigger] ja[k])
                        && self.bdst_r(k, ja[k]) == r && self.bdst_c(k, ja[k]) == c;
                assert(!Self::same_cell(
                    self.bdst_r(k, ja[k]),
                    self.bdst_c(k, ja[k]),
                    self.dest_r(i, ja[i]),
                    self.dest_c(i, ja[i]),
                ));
                assert(false);
            } else if self.vacated_upto(ja, ja.len() as int, r, c) {
                assert(s2.boxes[r][c] == no_box());
            } else {
                if self.has_box(r, c) {
                    assert(moves_box(ja[i]) && Self::same_cell(
                        r,
                        c,
                        self.bsrc_r(i, ja[i]),
                        self.bsrc_c(i, ja[i]),
                    ));
                    assert(self.vacated_upto(ja, ja.len() as int, r, c));
                    assert(false);
                }
            }
        }
        // Boxes never land on walls.
        assert forall|r: int, c: int| s2.has_box(r, c) implies !s2.wall_at(r, c) by {
            assert(s2.boxes[r][c] == self.step_cell_upto(ja, ja.len() as int, r, c));
            if self.box_arrives_upto(ja, ja.len() as int, r, c) {
                let k = choose|k: int|
                    0 <= k < ja.len() as int && k < ja.len() && moves_box(#[trigger] ja[k])
                        && self.bdst_r(k, ja[k]) == r && self.bdst_c(k, ja[k]) == c;
                assert(!self.wall_at(r, c));
            } else if self.vacated_upto(ja, ja.len() as int, r, c) {
            } else {
                assert(self.has_box(r, c));
            }
        }
        assert(s2.placement_ok());
    }

    /// A grid with one cell overwritten.
    pub open spec fn grid_write(g: Seq<Seq<char>>, r: int, c: int, v: char) -> Seq<Seq<char>> {
        g.update(r, g[r].update(c, v))
    }

    /// When a box lands on (r, c), the landing agent is unique and the cell
    /// receives that agent's box.
    pub proof fn lemma_arrival_value(self, ja: Seq<Action>, upto: int, w: int)
        requires
            self.wf(),
            self.joint_applicable(ja),
            !self.conflicting(ja),
            0 <= w < upto <= ja.len(),
            moves_box(ja[w]),
        ensures
            self.box_arrives_upto(ja, upto, self.bdst_r(w, ja[w]), self.bdst_c(w, ja[w])),
            self.arriving_box_upto(ja, upto, self.bdst_r(w, ja[w]), self.bdst_c(w, ja[w]))
                == self.box_at(self.bsrc_r(w, ja[w]), self.bsrc_c(w, ja[w])),
    {
        self.lemma_effect_cells(ja);
        let r = self.bdst_r(w, ja[w]);
        let c = self.bdst_c(w, ja[w]);
        assert(self.box_arrives_upto(ja, upto, r, c));
        let kk = choose|k: int|
            0 <= k < upto && k < ja.len() && moves_box(#[trigger] ja[k]) && self.bdst_r(k, ja[k])
                == r && self.bdst_c(k, ja[k]) == c;
        if kk != w {
            assert(!Self::same_cell(
                self.bdst_r(kk, ja[kk]),
                self.bdst_c(kk, ja[kk]),
                self.bdst_r(w, ja[w]),
                self.bdst_c(w, ja[w]),
            ));
        }
        assert(kk == w);
    }

    /// How the partially-applied box grid advances over one agent: an agent
    /// that moves no box leaves it unchanged; one that does empties the box's
    /// source cell and fills its destination cell.
    #[verifier::rlimit(30)]
    pub proof fn lemma_partial_advance(self, ja: Seq<Action>, k: int)
        requires
            self.wf(),
            self.joint_applicable(ja),
            !self.conflicting(ja),
            0 <= k < ja.len(),
        ensures
            !moves_box(ja[k]) ==> self.partial_boxes(ja, k + 1) == self.partial_boxes(ja, k),
            moves_box(ja[k]) ==> self.partial_boxes(ja, k + 1) == Self::grid_write(
                Self::grid_write(
                    self.partial_boxes(ja, k),
                    self.bsrc_r(k, ja[k]),
                    self.bsrc_c(k, ja[k]),
                    no_box(),
                ),
                self.bdst_r(k, ja[k]),
                self.bdst_c(k, ja[k]),
                self.box_at(self.bsrc_r(k, ja[k]), self.bsrc_c(k, ja[k])),
            ),
            moves_box(ja[k]) ==> self.partial_boxes(ja, k)[self.bsrc_r(k, ja[k])][self.bsrc_c(
                k,
                ja[k],
            )] == self.box_at(self.bsrc_r(k, ja[k]), self.bsrc_c(k, ja[k])),
    {
        self.lemma_effect_cells(ja);
        if !moves_box(ja[k]) {
            assert forall|r: int, c: int|
                0 <= r < self.boxes.len() && 0 <= c < self.boxes[r].len()
                implies #[trigger] self.step_cell_upto(ja, k + 1, r, c) == self.step_cell_upto(
                ja,
                k,
                r,
                c,
            ) by {
                self.lemma_cell_unchanged(ja, k, r, c);
            }
            assert(self.partial_boxes(ja, k + 1) =~~= self.partial_boxes(ja, k));
        } else {
            let bsr = self.bsrc_r(k, ja[k]);
            let bsc = self.bsrc_c(k, ja[k]);
            let bdr = self.bdst_r(k, ja[k]);
            let bdc = self.bdst_c(k, ja[k]);
            let ch = self.box_at(bsr, bsc);
            // The source cell still holds the original box before agent k acts.
            assert(!self.box_arrives_upto(ja, k, bsr, bsc));
            assert(!self.vacated_upto(ja, k, bsr, bsc));
            assert(self.step_cell_upto(ja, k, bsr, bsc) == ch);
            assert(self.has_box(bsr, bsc));
            let target = Self::grid_write(
                Self::grid_write(self.partial_boxes(ja, k), bsr, bsc, no_box()),
                bdr,
                bdc,
                ch,
            );
            assert forall|r: int, c: int|
                0 <= r < self.boxes.len() && 0 <= c < self.boxes[r].len()
                implies #[trigger] self.step_cell_upto(ja, k + 1, r, c) == target[r][c] by {
                if r == bdr && c == bdc {
                    self.lemma_arrival_value(ja, k + 1, k);
                    assert(target[r][c] == ch);
                } else if r == bsr && c == bsc {
                    assert(!self.box_arrives_upto(ja, k + 1, r, c));
                    assert(self.vacated_upto(ja, k + 1, r, c));
                    assert(target[r][c] == no_box());
                } else {
                    self.lemma_cell_unchanged(ja, k, r, c);
                    assert(target[r][c] == self.step_cell_upto(ja, k, r, c));
                }
            }
            assert(self.partial_boxes(ja, k + 1) =~~= target);
        }
    }

    /// A cell that agent k's action does not touch keeps its content when
    /// agent k is folded into the partial grid.
    proof fn lemma_cell_unchanged(self, ja: Seq<Action>, k: int, r: int, c: int)
        requires
            self.wf(),
            self.joint_applicable(ja),
            !self.conflicting(ja),
            0 <= k < ja.len(),
            moves_box(ja[k]) ==> !Self::same_cell(r, c, self.bsrc_r(k, ja[k]), self.bsrc_c(
                k,
                ja[k],
            )) && !Self::same_cell(r, c, self.bdst_r(k, ja[k]), self.bdst_c(k, ja[k])),
        ensures
            self.step_cell_upto(ja, k + 1, r, c) == self.step_cell_upto(ja, k, r, c),
    {
        self.lemma_effect_cells(ja);
        assert(self.box_arrives_upto(ja, k + 1, r, c) == self.box_arrives_upto(ja, k, r, c)) by {
            if self.box_arrives_upto(ja, k + 1, r, c) {
                let w = choose|w: int|
                    0 <= w < k + 1 && w < ja.len() && moves_box(#[trigger] ja[w]) && self.bdst_r(
                        w,
                        ja[w],
                    ) == r && self.bdst_c(w, ja[w]) == c;
                assert(w != k);
                assert(self.box_arrives_upto(ja, k, r, c));
            }
        }
        assert(self.vacated_upto(ja, k + 1, r, c) == self.vacated_upto(ja, k, r, c)) by {
            if self.vacated_upto(ja, k + 1, r, c) {
                let w = choose|w: int|
                    0 <= w < k + 1 && w < ja.len() && moves_box(#[trigger] ja[w]) && self.bsrc_r(
                        w,
                        ja[w],
                    ) == r && self.bsrc_c(w, ja[w]) == c;
                assert(w != k);
                assert(self.vacated_upto(ja, k, r, c));
            }
        }
        if self.box_arrives_upto(ja, k, r, c) {
            let w = choose|w: int|
                0 <= w < k && w < ja.len() && moves_box(#[trigger] ja[w]) && self.bdst_r(w, ja[w])
                    == r && self.bdst_c(w, ja[w]) == c;
            self.lemma_arrival_value(ja, k, w);
            self.lemma_arrival_value(ja, k + 1, w);
        }
    }

    /// Before any agent acts, the partial grid is the original grid.
    pub proof fn lemma_partial_base(self, ja: Seq<Action>)
        ensures
            self.partial_boxes(ja, 0) == self.boxes,
    {
        assert(self.partial_boxes(ja, 0) =~~= self.boxes);
    }

    /// A cell that is not a wall lies strictly inside the border.
    pub proof fn lemma_nonwall_interior(self, r: int, c: int)
        requires
            self.wf(),
            self.in_bounds(r, c),
            !self.wall_at(r, c),
        ensures
            1 <= r <= self.n_rows() - 2,
            1 <= c <= self.n_cols() - 2,
    {
        if r == 0 {
            assert(self.wall_at(0, c));
        }
        if r == self.n_rows() - 1 {
            assert(self.wall_at(self.n_rows() - 1, c));
        }
        if c == 0 {
            assert(self.wall_at(r, 0));
        }
        if c == self.n_cols() - 1 {
            assert(self.wall_at(r, self.n_cols() - 1));
        }
    }

    /// Agents stand strictly inside the border.
    pub proof fn lemma_agent_interior(self, i: int)
        requires
            self.wf(),
            0 <= i < self.n_agents(),
        ensures
            1 <= self.rows[i] <= self.n_rows() - 2,
            1 <= self.cols[i] <= self.n_cols() - 2,
    {
        self.lemma_nonwall_interior(self.rows[i], self.cols[i]);
    }

    // ------------------------------------------------------------------ plans

    /// The model reached by running a plan from this model.
    pub open spec fn run_plan(self, plan: Seq<Seq<Action>>) -> Model
        decreases plan.len(),
    {
        if plan.len() == 0 {
            self
        } else {
            self.step(plan[0]).run_plan(plan.drop_first())
        }
    }

    /// Every step of the plan is applicable and conflict-free in sequence.
    pub open spec fn plan_ok(self, plan: Seq<Seq<Action>>) -> bool
        decreases plan.len(),
    {
        if plan.len() == 0 {
            true
        } else {
            &&& self.joint_applicable(plan[0])
            &&& !self.conflicting(plan[0])
            &&& self.step(plan[0]).plan_ok(plan.drop_first())
        }
    }

    /// A plan solves this model when it is executable and ends in a goal state.
    pub open spec fn solves(self, plan: Seq<Seq<Action>>) -> bool {
        self.plan_ok(plan) && self.run_plan(plan).is_goal()
    }
}

} // verus!
