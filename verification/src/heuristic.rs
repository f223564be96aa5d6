//! Heuristics: the pluggable h(s) estimates and the f(s) wrappers that
//! best-first frontiers order by. Six built-in estimates are provided, from
//! the constant zero through goal counting to Manhattan-distance sums.

use vstd::prelude::*;
use vstd::string::*;
use crate::model::Model;
use crate::state::State;

verus! {

broadcast use {crate::views::lemma_deep_len, crate::views::lemma_deep_index};

/// The digit character of agent `i`.
pub open spec fn digit_char(i: int) -> char {
    ((48 + i) as u8) as char
}

/// Manhattan distance between two coordinates.
pub open spec fn dist1(a: int, b: int) -> int {
    if a >= b {
        a - b
    } else {
        b - a
    }
}

// ------------------------------------------------------------ goal counting

/// 1 for each unsatisfied box goal and unsatisfied agent goal on (r, c).
pub open spec fn gc_cell(m: Model, r: int, c: int, boxes_only: bool) -> int {
    let g = m.goals[r][c];
    (if 'A' <= g <= 'Z' && m.boxes[r][c] != g {
        1int
    } else {
        0int
    }) + (if !boxes_only && '0' <= g <= '9' && !(g as int - 48 < m.n_agents() && m.rows[g as int
        - 48] == r && m.cols[g as int - 48] == c) {
        1int
    } else {
        0int
    })
}

/// Unsatisfied goals among the first c cells of row r.
pub open spec fn gc_row(m: Model, r: int, c: int, boxes_only: bool) -> int
    decreases c,
{
    if c <= 0 {
        0
    } else {
        gc_row(m, r, c - 1, boxes_only) + gc_cell(m, r, c - 1, boxes_only)
    }
}

/// Unsatisfied goals among the first r full rows.
pub open spec fn gc_upto(m: Model, r: int, boxes_only: bool) -> int
    decreases r,
{
    if r <= 0 {
        0
    } else {
        gc_upto(m, r - 1, boxes_only) + gc_row(m, r - 1, m.n_cols(), boxes_only)
    }
}

/// The goal-count heuristic value: every box goal whose cell holds another
/// letter, plus (unless boxes_only) every agent goal whose agent is absent.
pub open spec fn spec_goal_count(m: Model, boxes_only: bool) -> int {
    gc_upto(m, m.n_rows(), boxes_only)
}

proof fn lemma_gc_row_bound(m: Model, r: int, c: int, boxes_only: bool)
    requires
        c >= 0,
    ensures
        0 <= gc_row(m, r, c, boxes_only) <= 2 * c,
    decreases c,
{
    if c > 0 {
        lemma_gc_row_bound(m, r, c - 1, boxes_only);
    }
}

proof fn lemma_gc_upto_bound(m: Model, r: int, boxes_only: bool)
    requires
        r >= 0,
        m.n_cols() <= 512,
    ensures
        0 <= gc_upto(m, r, boxes_only) <= 1024 * r,
    decreases r,
{
    if r > 0 {
        lemma_gc_upto_bound(m, r - 1, boxes_only);
        lemma_gc_row_bound(m, r - 1, m.n_cols(), boxes_only);
    }
}

/// Counts unsatisfied goals over the whole board.
fn goal_count_exec(s: &State, boxes_only: bool) -> (r: usize)
    requires
        s@.wf(),
    ensures
        r as int == spec_goal_count(s@, boxes_only),
{
    let ghost m = s@;
    let nr = s.boxes.len();
    let nc = s.walls[0].len();
    let mut count: usize = 0;
    let mut row: usize = 0;
    proof {
        lemma_gc_upto_bound(m, 0, boxes_only);
    }
    while row < nr
        invariant
            0 <= row <= nr,
            m == s@,
            m.wf(),
            nr == m.n_rows(),
            nc == m.n_cols(),
            count as int == gc_upto(m, row as int, boxes_only),
            count as int <= 1024 * row,
        decreases nr - row,
    {
        let mut col: usize = 0;
        while col < nc
            invariant
                0 <= col <= nc,
                row < nr,
                m == s@,
                m.wf(),
                nr == m.n_rows(),
                nc == m.n_cols(),
                count as int == gc_upto(m, row as int, boxes_only) + gc_row(
                    m,
                    row as int,
                    col as int,
                    boxes_only,
                ),
                count as int <= 1024 * row + 2 * col,
            decreases nc - col,
        {
            proof {
                lemma_gc_upto_bound(m, row as int, boxes_only);
                lemma_gc_row_bound(m, row as int, col as int, boxes_only);
            }
            let g = s.goals[row][col];
            if g >= 'A' && g <= 'Z' && !(s.boxes[row][col] == g) {
                count += 1;
            }
            if !boxes_only && g >= '0' && g <= '9' {
                let gi = (g as u32 - 48) as usize;
                let sat = gi < s.agent_rows.len() && s.agent_rows[gi] == row && s.agent_cols[gi]
                    == col;
                proof {
                    if gi < s.agent_rows@.len() {
                        assert(m.rows[gi as int] == s.agent_rows@[gi as int] as int);
                        assert(m.cols[gi as int] == s.agent_cols@[gi as int] as int);
                    }
                }
                if !sat {
                    count += 1;
                }
            }
            col += 1;
        }
        row += 1;
    }
    count
}

// -------------------------------------------------------- distance scanning

/// First column at or after c in row r whose goal cell holds ch.
pub open spec fn find_in_row_from(m: Model, r: int, c: int, ch: char) -> Option<int>
    decreases m.n_cols() - c,
{
    if c < 0 || c >= m.n_cols() {
        None
    } else if m.goals[r][c] == ch {
        Some(c)
    } else {
        find_in_row_from(m, r, c + 1, ch)
    }
}

/// First goal cell holding ch, scanning rows from r downward in row-major
/// order.
pub open spec fn find_goal_from(m: Model, r: int, ch: char) -> Option<(int, int)>
    decreases m.n_rows() - r,
{
    if r < 0 || r >= m.n_rows() {
        None
    } else {
        match find_in_row_from(m, r, 0, ch) {
            Some(c) => Some((r, c)),
            None => find_goal_from(m, r + 1, ch),
        }
    }
}

/// The first goal cell for ch in scan order, if any.
pub open spec fn first_goal(m: Model, ch: char) -> Option<(int, int)> {
    find_goal_from(m, 0, ch)
}

proof fn lemma_find_in_row_bounds(m: Model, r: int, c: int, ch: char)
    ensures
        find_in_row_from(m, r, c, ch) matches Some(cc) ==> c <= cc < m.n_cols() && m.goals[r][cc]
            == ch,
    decreases m.n_cols() - c,
{
    if 0 <= c < m.n_cols() && m.goals[r][c] != ch {
        lemma_find_in_row_bounds(m, r, c + 1, ch);
    }
}

proof fn lemma_find_goal_bounds(m: Model, r: int, ch: char)
    ensures
        find_goal_from(m, r, ch) matches Some(g) ==> r <= g.0 < m.n_rows() && 0 <= g.1
            < m.n_cols() && m.goals[g.0][g.1] == ch,
    decreases m.n_rows() - r,
{
    if 0 <= r < m.n_rows() {
        lemma_find_in_row_bounds(m, r, 0, ch);
        if find_in_row_from(m, r, 0, ch) is None {
            lemma_find_goal_bounds(m, r + 1, ch);
        }
    }
}

/// Finds the first goal cell holding ch, in row-major scan order.
fn find_goal(s: &State, ch: char) -> (r: Option<(usize, usize)>)
    requires
        s@.wf(),
    ensures
        match r {
            Some(g) => first_goal(s@, ch) == Some((g.0 as int, g.1 as int)),
            None => first_goal(s@, ch) is None,
        },
{
    let ghost m = s@;
    let nr = s.boxes.len();
    let nc = s.walls[0].len();
    let mut row: usize = 0;
    while row < nr
        invariant
            0 <= row <= nr,
            m == s@,
            m.wf(),
            nr == m.n_rows(),
            nc == m.n_cols(),
            first_goal(m, ch) == find_goal_from(m, row as int, ch),
        decreases nr - row,
    {
        let mut col: usize = 0;
        while col < nc
            invariant
                0 <= col <= nc,
                row < nr,
                m == s@,
                m.wf(),
                nr == m.n_rows(),
                nc == m.n_cols(),
                first_goal(m, ch) == find_goal_from(m, row as int, ch),
                find_in_row_from(m, row as int, 0, ch) == find_in_row_from(
                    m,
                    row as int,
                    col as int,
                    ch,
                ),
            decreases nc - col,
        {
            if s.goals[row][col] == ch {
                return Some((row, col));
            }
            col += 1;
        }
        row += 1;
    }
    None
}

/// Distance between two coordinates, executably.
fn dist_exec(a: usize, b: usize) -> (r: usize)
    ensures
        r as int == dist1(a as int, b as int),
{
    if a >= b {
        a - b
    } else {
        b - a
    }
}

// --------------------------------------------------- agent distance summing

/// Distance from agent i to its first goal cell, or 0 without one.
pub open spec fn agent_goal_dist(m: Model, i: int) -> int {
    match first_goal(m, digit_char(i)) {
        Some(g) => dist1(m.rows[i], g.0) + dist1(m.cols[i], g.1),
        None => 0,
    }
}

/// Sum of the goal distances of the first i agents.
pub open spec fn sd_upto(m: Model, i: int) -> int
    decreases i,
{
    if i <= 0 {
        0
    } else {
        sd_upto(m, i - 1) + agent_goal_dist(m, i - 1)
    }
}

/// The sum-of-agent-distances heuristic value.
pub open spec fn spec_sum_distances(m: Model) -> int {
    sd_upto(m, m.n_agents())
}

proof fn lemma_sd_bound(m: Model, i: int)
    requires
        0 <= i <= m.n_agents(),
        m.wf(),
    ensures
        0 <= sd_upto(m, i) <= 1024 * i,
    decreases i,
{
    if i > 0 {
        lemma_sd_bound(m, i - 1);
        lemma_find_goal_bounds(m, 0, digit_char(i - 1));
        match first_goal(m, digit_char(i - 1)) {
            Some(g) => {
                assert(m.in_bounds(m.rows[i - 1], m.cols[i - 1]));
                assert(dist1(m.rows[i - 1], g.0) <= 512);
                assert(dist1(m.cols[i - 1], g.1) <= 512);
            },
            None => {},
        }
    }
}

/// Sums each agent's Manhattan distance to its first goal cell.
fn sum_distances_exec(s: &State) -> (r: usize)
    requires
        s@.wf(),
    ensures
        r as int == spec_sum_distances(s@),
{
    let ghost m = s@;
    let n = s.agent_rows.len();
    let mut sum: usize = 0;
    let mut i: usize = 0;
    while i < n
        invariant
            0 <= i <= n,
            m == s@,
            m.wf(),
            n == m.n_agents(),
            sum as int == sd_upto(m, i as int),
        decreases n - i,
    {
        proof {
            lemma_sd_bound(m, i as int);
            lemma_find_goal_bounds(m, 0, digit_char(i as int));
            assert(m.rows[i as int] == s.agent_rows@[i as int] as int);
            assert(m.cols[i as int] == s.agent_cols@[i as int] as int);
        }
        let ch = (48 + (i as u8)) as char;
        proof {
            assert(ch == digit_char(i as int));
        }
        match find_goal(s, ch) {
            Some(g) => {
                let d1 = dist_exec(s.agent_rows[i], g.0);
                let d2 = dist_exec(s.agent_cols[i], g.1);
                sum = sum + d1 + d2;
            },
            None => {},
        }
        i += 1;
    }
    sum
}


// ----------------------------------------------------- box distance summing

/// Distance contributed by the box on (r, c), if any: its Manhattan
/// distance to the first goal cell bearing its letter.
pub open spec fn box_cell_dist(m: Model, r: int, c: int) -> int {
    let b = m.boxes[r][c];
    if 'A' <= b <= 'Z' {
        match first_goal(m, b) {
            Some(g) => dist1(r, g.0) + dist1(c, g.1),
            None => 0,
        }
    } else {
        0
    }
}

/// Box distances over the first c cells of row r.
pub open spec fn sdb_row(m: Model, r: int, c: int) -> int
    decreases c,
{
    if c <= 0 {
        0
    } else {
        sdb_row(m, r, c - 1) + box_cell_dist(m, r, c - 1)
    }
}

/// Box distances over the first r full rows.
pub open spec fn sdb_upto(m: Model, r: int) -> int
    decreases r,
{
    if r <= 0 {
        0
    } else {
        sdb_upto(m, r - 1) + sdb_row(m, r - 1, m.n_cols())
    }
}

/// The sum-of-box-distances heuristic value.
pub open spec fn spec_sum_distances_box(m: Model) -> int {
    sdb_upto(m, m.n_rows())
}

proof fn lemma_sdb_row_bound(m: Model, r: int, c: int)
    requires
        0 <= c <= m.n_cols(),
        m.wf(),
        0 <= r < m.n_rows(),
    ensures
        0 <= sdb_row(m, r, c) <= 1024 * c,
    decreases c,
{
    if c > 0 {
        lemma_sdb_row_bound(m, r, c - 1);
        let b = m.boxes[r][c - 1];
        if 'A' <= b <= 'Z' {
            lemma_find_goal_bounds(m, 0, b);
        }
    }
}

proof fn lemma_sdb_upto_bound(m: Model, r: int)
    requires
        0 <= r <= m.n_rows(),
        m.wf(),
    ensures
        0 <= sdb_upto(m, r) <= 1048576 * r,
    decreases r,
{
    if r > 0 {
        lemma_sdb_upto_bound(m, r - 1);
        lemma_sdb_row_bound(m, r - 1, m.n_cols());
    }
}

/// Sums each box's Manhattan distance to the first goal cell of its letter.
fn sum_distances_box_exec(s: &State) -> (r: usize)
    requires
        s@.wf(),
    ensures
        r as int == spec_sum_distances_box(s@),
{
    let ghost m = s@;
    let nr = s.boxes.len();
    let nc = s.walls[0].len();
    let mut sum: usize = 0;
    let mut row: usize = 0;
    while row < nr
        invariant
            0 <= row <= nr,
            m == s@,
            m.wf(),
            nr == m.n_rows(),
            nc == m.n_cols(),
            sum as int == sdb_upto(m, row as int),
        decreases nr - row,
    {
        let mut col: usize = 0;
        while col < nc
            invariant
                0 <= col <= nc,
                row < nr,
                m == s@,
                m.wf(),
                nr == m.n_rows(),
                nc == m.n_cols(),
                sum as int == sdb_upto(m, row as int) + sdb_row(m, row as int, col as int),
            decreases nc - col,
        {
            proof {
                lemma_sdb_upto_bound(m, row as int);
                lemma_sdb_row_bound(m, row as int, col as int);
            }
            let b = s.boxes[row][col];
            if b >= 'A' && b <= 'Z' {
                match find_goal(s, b) {
                    Some(g) => {
                        proof {
                            lemma_find_goal_bounds(m, 0, b);
                        }
                        let d1 = dist_exec(row, g.0);
                        let d2 = dist_exec(col, g.1);
                        sum = sum + d1 + d2;
                    },
                    None => {},
                }
            }
            col += 1;
        }
        row += 1;
    }
    sum
}

// --------------------------------------------- nearest same-colored box

/// The smaller of two optional distances.
pub open spec fn opt_min(a: Option<int>, b: Option<int>) -> Option<int> {
    match (a, b) {
        (Some(x), Some(y)) => if x <= y {
            Some(x)
        } else {
            Some(y)
        },
        (Some(x), None) => Some(x),
        (None, y) => y,
    }
}

/// Distance from agent i to the box on (r, c), when that box shares the
/// agent's color.
pub open spec fn near_cell(m: Model, i: int, r: int, c: int) -> Option<int> {
    let b = m.boxes[r][c];
    if 'A' <= b <= 'Z' && m.box_colors[b as int - 'A' as int] == m.agent_colors[i] {
        Some(dist1(m.rows[i], r) + dist1(m.cols[i], c))
    } else {
        None
    }
}

/// Minimum same-color box distance over the first c cells of row r.
pub open spec fn near_row(m: Model, i: int, r: int, c: int) -> Option<int>
    decreases c,
{
    if c <= 0 {
        None
    } else {
        opt_min(near_row(m, i, r, c - 1), near_cell(m, i, r, c - 1))
    }
}

/// Minimum same-color box distance over the first r full rows.
pub open spec fn near_upto(m: Model, i: int, r: int) -> Option<int>
    decreases r,
{
    if r <= 0 {
        None
    } else {
        opt_min(near_upto(m, i, r - 1), near_row(m, i, r - 1, m.n_cols()))
    }
}

/// Distance from agent i to the nearest box of its color, or 0 if none.
pub open spec fn nearest_box_dist(m: Model, i: int) -> int {
    match near_upto(m, i, m.n_rows()) {
        Some(d) => d,
        None => 0,
    }
}

/// Summed nearest-box distances of the first i agents.
pub open spec fn nb_upto(m: Model, i: int) -> int
    decreases i,
{
    if i <= 0 {
        0
    } else {
        nb_upto(m, i - 1) + nearest_box_dist(m, i - 1)
    }
}

proof fn lemma_near_row_bound(m: Model, i: int, r: int, c: int)
    requires
        m.wf(),
        0 <= i < m.n_agents(),
        0 <= r < m.n_rows(),
        0 <= c <= m.n_cols(),
    ensures
        near_row(m, i, r, c) matches Some(d) ==> 0 <= d <= 1024,
    decreases c,
{
    if c > 0 {
        lemma_near_row_bound(m, i, r, c - 1);
    }
}

proof fn lemma_near_upto_bound(m: Model, i: int, r: int)
    requires
        m.wf(),
        0 <= i < m.n_agents(),
        0 <= r <= m.n_rows(),
    ensures
        near_upto(m, i, r) matches Some(d) ==> 0 <= d <= 1024,
    decreases r,
{
    if r > 0 {
        lemma_near_upto_bound(m, i, r - 1);
        lemma_near_row_bound(m, i, r - 1, m.n_cols());
    }
}

proof fn lemma_nb_bound(m: Model, i: int)
    requires
        m.wf(),
        0 <= i <= m.n_agents(),
    ensures
        0 <= nb_upto(m, i) <= 1024 * i,
    decreases i,
{
    if i > 0 {
        lemma_nb_bound(m, i - 1);
        lemma_near_upto_bound(m, i - 1, m.n_rows());
    }
}

/// Distance from agent i to the nearest box of its color, scanning the
/// whole grid; 0 when the agent has no box of its color.
fn nearest_box_dist_exec(s: &State, i: usize) -> (r: usize)
    requires
        s@.wf(),
        i < s@.n_agents(),
    ensures
        r as int == nearest_box_dist(s@, i as int),
{
    let ghost m = s@;
    let nr = s.boxes.len();
    let nc = s.walls[0].len();
    let ar = s.agent_rows[i];
    let ac = s.agent_cols[i];
    let acol = s.agent_colors[i];
    proof {
        assert(m.rows[i as int] == s.agent_rows@[i as int] as int);
        assert(m.cols[i as int] == s.agent_cols@[i as int] as int);
        assert(m.agent_colors[i as int] == s.agent_colors@[i as int]);
    }
    let mut found = false;
    let mut best: usize = 0;
    let mut row: usize = 0;
    while row < nr
        invariant
            0 <= row <= nr,
            m == s@,
            m.wf(),
            i < m.n_agents(),
            nr == m.n_rows(),
            nc == m.n_cols(),
            ar as int == m.rows[i as int],
            ac as int == m.cols[i as int],
            acol == m.agent_colors[i as int],
            match near_upto(m, i as int, row as int) {
                Some(d) => found && best as int == d,
                None => !found,
            },
        decreases nr - row,
    {
        let mut col: usize = 0;
        while col < nc
            invariant
                0 <= col <= nc,
                row < nr,
                m == s@,
                m.wf(),
                i < m.n_agents(),
                nr == m.n_rows(),
                nc == m.n_cols(),
                ar as int == m.rows[i as int],
                ac as int == m.cols[i as int],
                acol == m.agent_colors[i as int],
                match opt_min(near_upto(m, i as int, row as int), near_row(m, i as int, row as int, col as int)) {
                    Some(d) => found && best as int == d,
                    None => !found,
                },
            decreases nc - col,
        {
            proof {
                lemma_near_upto_bound(m, i as int, row as int);
                lemma_near_row_bound(m, i as int, row as int, col as int);
                assert(m.in_bounds(m.rows[i as int], m.cols[i as int]));
            }
            let b = s.boxes[row][col];
            if b >= 'A' && b <= 'Z' {
                let bcol = s.box_colors[(b as u32 - 65) as usize];
                if bcol == acol {
                    let d1 = dist_exec(ar, row);
                    let d2 = dist_exec(ac, col);
                    let d = d1 + d2;
                    if !found || d < best {
                        found = true;
                        best = d;
                    }
                }
            }
            col += 1;
        }
        row += 1;
    }
    if found {
        best
    } else {
        0
    }
}


// ------------------------------------------------------------ the plug-ins

/// A pluggable estimate of remaining cost. Every implementation is a pure
/// function of the board, so h never disturbs the search.
pub trait CustomH: Sized {
    /// The mathematical value this estimate assigns to a board.
    spec fn h_spec(&self, m: Model) -> int;

    /// The estimate's display name.
    spec fn name_spec(&self) -> Seq<char>;

    /// Estimates never return negative or unrepresentable values.
    proof fn h_spec_bounds(&self, m: Model)
        requires
            m.wf(),
        ensures
            0 <= self.h_spec(m) < 0x40000000,
    ;

    fn init(&mut self, initial_state: &State)
        ensures
            *final(self) == *old(self),
    ;

    fn h(&self, s: &State) -> (r: isize)
        requires
            s@.wf(),
        ensures
            r as int == self.h_spec(s@),
    ;

    fn name(&self) -> (r: String)
        ensures
            r@ == self.name_spec(),
    ;
}

/// The constant-zero estimate.
pub struct HZero {}

impl HZero {
    pub fn new() -> (r: Self)
        ensures
            r == (HZero {  }),
    {
        HZero {  }
    }
}

impl CustomH for HZero {
    open spec fn h_spec(&self, m: Model) -> int {
        0
    }

    open spec fn name_spec(&self) -> Seq<char> {
        "Zero"@
    }

    proof fn h_spec_bounds(&self, m: Model) {
    }

    fn init(&mut self, initial_state: &State) {
    }

    fn h(&self, s: &State) -> (r: isize) {
        0
    }

    fn name(&self) -> (r: String) {
        "Zero".to_owned()
    }
}

/// Counts unsatisfied box goals and unsatisfied agent goals.
pub struct HGoalCount {}

impl HGoalCount {
    pub fn new() -> (r: Self)
        ensures
            r == (HGoalCount {  }),
    {
        HGoalCount {  }
    }
}

impl CustomH for HGoalCount {
    open spec fn h_spec(&self, m: Model) -> int {
        spec_goal_count(m, false)
    }

    open spec fn name_spec(&self) -> Seq<char> {
        "GoalCount"@
    }

    proof fn h_spec_bounds(&self, m: Model) {
        lemma_gc_upto_bound(m, m.n_rows(), false);
    }

    fn init(&mut self, initial_state: &State) {
    }

    fn h(&self, s: &State) -> (r: isize) {
        let c = goal_count_exec(s, false);
        proof {
            lemma_gc_upto_bound(s@, s@.n_rows(), false);
        }
        c as isize
    }

    fn name(&self) -> (r: String) {
        "GoalCount".to_owned()
    }
}

/// Counts unsatisfied box goals only.
pub struct HBoxGoalCount {}

impl HBoxGoalCount {
    pub fn new() -> (r: Self)
        ensures
            r == (HBoxGoalCount {  }),
    {
        HBoxGoalCount {  }
    }
}

impl CustomH for HBoxGoalCount {
    open spec fn h_spec(&self, m: Model) -> int {
        spec_goal_count(m, true)
    }

    open spec fn name_spec(&self) -> Seq<char> {
        "BoxGoalCount"@
    }

    proof fn h_spec_bounds(&self, m: Model) {
        lemma_gc_upto_bound(m, m.n_rows(), true);
    }

    fn init(&mut self, initial_state: &State) {
    }

    fn h(&self, s: &State) -> (r: isize) {
        let c = goal_count_exec(s, true);
        proof {
            lemma_gc_upto_bound(s@, s@.n_rows(), true);
        }
        c as isize
    }

    fn name(&self) -> (r: String) {
        "BoxGoalCount".to_owned()
    }
}

/// Sums each agent's Manhattan distance to its own goal cell.
pub struct HSumDistances {}

impl HSumDistances {
    pub fn new() -> (r: Self)
        ensures
            r == (HSumDistances {  }),
    {
        HSumDistances {  }
    }
}

impl CustomH for HSumDistances {
    open spec fn h_spec(&self, m: Model) -> int {
        spec_sum_distances(m)
    }

    open spec fn name_spec(&self) -> Seq<char> {
        "SumDistances"@
    }

    proof fn h_spec_bounds(&self, m: Model) {
        lemma_sd_bound(m, m.n_agents());
    }

    fn init(&mut self, initial_state: &State) {
    }

    fn h(&self, s: &State) -> (r: isize) {
        let c = sum_distances_exec(s);
        proof {
            lemma_sd_bound(s@, s@.n_agents());
        }
        c as isize
    }

    fn name(&self) -> (r: String) {
        "SumDistances".to_owned()
    }
}

/// Sums each box's Manhattan distance to the first goal of its letter.
pub struct HSumDistancesBox {}

impl HSumDistancesBox {
    pub fn new() -> (r: Self)
        ensures
            r == (HSumDistancesBox {  }),
    {
        HSumDistancesBox {  }
    }
}

impl CustomH for HSumDistancesBox {
    open spec fn h_spec(&self, m: Model) -> int {
        spec_sum_distances_box(m)
    }

    open spec fn name_spec(&self) -> Seq<char> {
        "SumDistancesBox"@
    }

    proof fn h_spec_bounds(&self, m: Model) {
        lemma_sdb_upto_bound(m, m.n_rows());
    }

    fn init(&mut self, initial_state: &State) {
    }

    fn h(&self, s: &State) -> (r: isize) {
        let c = sum_distances_box_exec(s);
        proof {
            lemma_sdb_upto_bound(s@, s@.n_rows());
        }
        c as isize
    }

    fn name(&self) -> (r: String) {
        "SumDistancesBox".to_owned()
    }
}

/// Box distances plus each agent's distance to its nearest same-colored box.
pub struct HSumDistancesBox2 {}

impl HSumDistancesBox2 {
    pub fn new() -> (r: Self)
        ensures
            r == (HSumDistancesBox2 {  }),
    {
        HSumDistancesBox2 {  }
    }
}

impl CustomH for HSumDistancesBox2 {
    open spec fn h_spec(&self, m: Model) -> int {
        spec_sum_distances_box(m) + nb_upto(m, m.n_agents())
    }

    open spec fn name_spec(&self) -> Seq<char> {
        "SumDistancesBox2"@
    }

    proof fn h_spec_bounds(&self, m: Model) {
        lemma_sdb_upto_bound(m, m.n_rows());
        lemma_nb_bound(m, m.n_agents());
    }

    fn init(&mut self, initial_state: &State) {
    }

    fn h(&self, s: &State) -> (r: isize) {
        let ghost m = s@;
        let base = sum_distances_box_exec(s);
        proof {
            lemma_sdb_upto_bound(m, m.n_rows());
        }
        let n = s.agent_rows.len();
        let mut extra: usize = 0;
        let mut i: usize = 0;
        while i < n
            invariant
                0 <= i <= n,
                m == s@,
                m.wf(),
                n == m.n_agents(),
                extra as int == nb_upto(m, i as int),
            decreases n - i,
        {
            proof {
                lemma_nb_bound(m, i as int);
                lemma_near_upto_bound(m, i as int, m.n_rows());
            }
            let d = nearest_box_dist_exec(s, i);
            extra = extra + d;
            i += 1;
        }
        proof {
            lemma_nb_bound(m, m.n_agents());
        }
        (base + extra) as isize
    }

    fn name(&self) -> (r: String) {
        "SumDistancesBox2".to_owned()
    }
}

/// The selected estimate, chosen once per process.
pub enum CustomHChoice {
    Zero(HZero),
    GoalCount(HGoalCount),
    BoxGoalCount(HBoxGoalCount),
    SumDistances(HSumDistances),
    SumDistancesBox(HSumDistancesBox),
    SumDistancesBox2(HSumDistancesBox2),
}

impl CustomH for CustomHChoice {
    open spec fn h_spec(&self, m: Model) -> int {
        match self {
            CustomHChoice::Zero(x) => x.h_spec(m),
            CustomHChoice::GoalCount(x) => x.h_spec(m),
            CustomHChoice::BoxGoalCount(x) => x.h_spec(m),
            CustomHChoice::SumDistances(x) => x.h_spec(m),
            CustomHChoice::SumDistancesBox(x) => x.h_spec(m),
            CustomHChoice::SumDistancesBox2(x) => x.h_spec(m),
        }
    }

    open spec fn name_spec(&self) -> Seq<char> {
        match self {
            CustomHChoice::Zero(x) => x.name_spec(),
            CustomHChoice::GoalCount(x) => x.name_spec(),
            CustomHChoice::BoxGoalCount(x) => x.name_spec(),
            CustomHChoice::SumDistances(x) => x.name_spec(),
            CustomHChoice::SumDistancesBox(x) => x.name_spec(),
            CustomHChoice::SumDistancesBox2(x) => x.name_spec(),
        }
    }

    proof fn h_spec_bounds(&self, m: Model) {
        match self {
            CustomHChoice::Zero(x) => x.h_spec_bounds(m),
            CustomHChoice::GoalCount(x) => x.h_spec_bounds(m),
            CustomHChoice::BoxGoalCount(x) => x.h_spec_bounds(m),
            CustomHChoice::SumDistances(x) => x.h_spec_bounds(m),
            CustomHChoice::SumDistancesBox(x) => x.h_spec_bounds(m),
            CustomHChoice::SumDistancesBox2(x) => x.h_spec_bounds(m),
        }
    }

    fn init(&mut self, initial_state: &State) {
        match self {
            CustomHChoice::Zero(x) => x.init(initial_state),
            CustomHChoice::GoalCount(x) => x.init(initial_state),
            CustomHChoice::BoxGoalCount(x) => x.init(initial_state),
            CustomHChoice::SumDistances(x) => x.init(initial_state),
            CustomHChoice::SumDistancesBox(x) => x.init(initial_state),
            CustomHChoice::SumDistancesBox2(x) => x.init(initial_state),
        }
    }

    fn h(&self, s: &State) -> (r: isize) {
        match self {
            CustomHChoice::Zero(x) => x.h(s),
            CustomHChoice::GoalCount(x) => x.h(s),
            CustomHChoice::BoxGoalCount(x) => x.h(s),
            CustomHChoice::SumDistances(x) => x.h(s),
            CustomHChoice::SumDistancesBox(x) => x.h(s),
            CustomHChoice::SumDistancesBox2(x) => x.h(s),
        }
    }

    fn name(&self) -> (r: String) {
        match self {
            CustomHChoice::Zero(x) => x.name(),
            CustomHChoice::GoalCount(x) => x.name(),
            CustomHChoice::BoxGoalCount(x) => x.name(),
            CustomHChoice::SumDistances(x) => x.name(),
            CustomHChoice::SumDistancesBox(x) => x.name(),
            CustomHChoice::SumDistancesBox2(x) => x.name(),
        }
    }
}


// -------------------------------------------------------------- f wrappers

/// Clamps a non-negative value into the signed machine range.
pub open spec fn clip_isize(x: int) -> int {
    if x > isize::MAX as int {
        isize::MAX as int
    } else {
        x
    }
}

/// The decimal digits of n.
pub open spec fn dec_str(n: int) -> Seq<char>
    decreases n,
{
    if n < 10 {
        seq![((48 + if n < 0 { 0int } else { n }) as u8) as char]
    } else {
        dec_str(n / 10).push(((48 + n % 10) as u8) as char)
    }
}

/// Relies on std's `String::push`: appends the given character.
#[verifier::external_body]
fn push_char(s: &mut String, c: char)
    ensures
        final(s)@ == old(s)@.push(c),
{
    s.push(c)
}

/// Renders a number in decimal.
fn dec_exec(n: usize) -> (r: String)
    ensures
        r@ == dec_str(n as int),
{
    let mut digits: Vec<char> = Vec::new();
    let mut rest: usize = n;
    while rest >= 10
        invariant
            dec_str(n as int) =~= dec_str(rest as int) + digits@.reverse(),
        decreases rest,
    {
        let d = ((48 + (rest % 10) as u8)) as char;
        proof {
            assert(dec_str(rest as int) =~= dec_str(rest as int / 10).push(
                ((48 + rest as int % 10) as u8) as char,
            ));
            assert((dec_str(rest as int / 10) + digits@.push(d).reverse()) =~= dec_str(
                rest as int,
            ) + digits@.reverse());
        }
        digits.push(d);
        rest = rest / 10;
    }
    let mut out = String::new();
    let last = ((48 + (rest % 10) as u8)) as char;
    push_char(&mut out, last);
    proof {
        assert(rest % 10 == rest as int);
        assert(dec_str(rest as int) =~= seq![last]);
    }
    let mut i: usize = digits.len();
    while i > 0
        invariant
            0 <= i <= digits@.len(),
            out@ =~= dec_str(rest as int) + digits@.skip(i as int).reverse(),
        decreases i,
    {
        i -= 1;
        push_char(&mut out, digits[i]);
        proof {
            assert(digits@.skip(i as int).reverse() =~= digits@.skip(i as int + 1).reverse().push(
                digits@[i as int],
            ));
        }
    }
    proof {
        assert(digits@.skip(0) =~= digits@);
    }
    out
}

/// Computes a clipped priority g + w * h in wide arithmetic.
fn combine_f(g: usize, w: usize, h: isize) -> (r: isize)
    requires
        0 <= h < 0x40000000,
    ensures
        r as int == clip_isize(g + w * h),
{
    proof {
        let wi = w as int;
        let hi = h as int;
        assert(0 <= wi * hi < 0x400000000000000000000000) by (nonlinear_arith)
            requires
                0 <= wi,
                wi < 0x10000000000000000,
                0 <= hi,
                hi < 0x40000000,
        {
        }
    }
    let wide: i128 = g as i128 + (w as i128) * (h as i128);
    if wide > isize::MAX as i128 {
        isize::MAX
    } else {
        wide as isize
    }
}

/// A priority rule composed from the cost so far and a plugged-in estimate.
pub trait Heuristic: Sized {
    /// The estimate used, or 0 when none is plugged in.
    spec fn h_spec(&self, m: Model) -> int;

    /// The priority assigned to a state.
    spec fn f_spec(&self, s: State) -> int;

    /// The rule's display name.
    spec fn name_spec(&self) -> Seq<char>;

    proof fn h_spec_bounds(&self, m: Model)
        requires
            m.wf(),
        ensures
            0 <= self.h_spec(m) < 0x40000000,
    ;

    fn h(&self, s: &State) -> (r: isize)
        requires
            s@.wf(),
        ensures
            r as int == self.h_spec(s@),
    ;

    fn f(&self, s: &State) -> (r: isize)
        requires
            s@.wf(),
        ensures
            r as int == self.f_spec(*s),
    ;

    fn name(&self) -> (r: String)
        ensures
            r@ == self.name_spec(),
    ;
}

/// The estimate a plug-in slot denotes: 0 until one is installed.
pub open spec fn slot_h_spec(c: Option<CustomHChoice>, m: Model) -> int {
    match c {
        None => 0,
        Some(ch) => ch.h_spec(m),
    }
}

/// The name a plug-in slot denotes.
pub open spec fn slot_name_spec(c: Option<CustomHChoice>) -> Seq<char> {
    match c {
        None => "unknown"@,
        Some(ch) => ch.name_spec(),
    }
}

proof fn lemma_slot_bounds(c: Option<CustomHChoice>, m: Model)
    requires
        m.wf(),
    ensures
        0 <= slot_h_spec(c, m) < 0x40000000,
{
    match c {
        None => {},
        Some(ch) => ch.h_spec_bounds(m),
    }
}

fn slot_h(c: &Option<CustomHChoice>, s: &State) -> (r: isize)
    requires
        s@.wf(),
    ensures
        r as int == slot_h_spec(*c, s@),
{
    match c {
        None => 0,
        Some(ch) => ch.h(s),
    }
}

fn slot_name(c: &Option<CustomHChoice>) -> (r: String)
    ensures
        r@ == slot_name_spec(*c),
{
    match c {
        None => "unknown".to_owned(),
        Some(ch) => ch.name(),
    }
}

/// f = g + h.
pub struct HeuristicAStar {
    pub custom: Option<CustomHChoice>,
}

impl HeuristicAStar {
    pub fn new(initial_state: &State) -> (r: Self)
        ensures
            r.custom is None,
    {
        let _ = initial_state;
        HeuristicAStar { custom: None }
    }
}

impl Heuristic for HeuristicAStar {
    open spec fn h_spec(&self, m: Model) -> int {
        slot_h_spec(self.custom, m)
    }

    open spec fn f_spec(&self, s: State) -> int {
        clip_isize(s.g + self.h_spec(s@))
    }

    open spec fn name_spec(&self) -> Seq<char> {
        "A* evaluation (h = "@ + slot_name_spec(self.custom) + ")"@
    }

    proof fn h_spec_bounds(&self, m: Model) {
        lemma_slot_bounds(self.custom, m);
    }

    fn h(&self, s: &State) -> (r: isize) {
        slot_h(&self.custom, s)
    }

    fn f(&self, s: &State) -> (r: isize) {
        let hv = self.h(s);
        proof {
            lemma_slot_bounds(self.custom, s@);
        }
        combine_f(s.g, 1, hv)
    }

    fn name(&self) -> (r: String) {
        let mut out = "A* evaluation (h = ".to_owned();
        let inner = slot_name(&self.custom);
        out.append(inner.as_str());
        out.append(")");
        out
    }
}

/// f = g + w * h for a fixed integer weight w.
pub struct HeuristicWeightedAStar {
    pub custom: Option<CustomHChoice>,
    pub w: usize,
}

impl HeuristicWeightedAStar {
    pub fn new(initial_state: &State, w: usize) -> (r: Self)
        ensures
            r.custom is None,
            r.w == w,
    {
        let _ = initial_state;
        HeuristicWeightedAStar { custom: None, w }
    }
}

impl Heuristic for HeuristicWeightedAStar {
    open spec fn h_spec(&self, m: Model) -> int {
        slot_h_spec(self.custom, m)
    }

    open spec fn f_spec(&self, s: State) -> int {
        clip_isize(s.g + self.w * self.h_spec(s@))
    }

    open spec fn name_spec(&self) -> Seq<char> {
        "WA*("@ + dec_str(self.w as int) + ") evaluation (h = "@ + slot_name_spec(self.custom)
            + ")"@
    }

    proof fn h_spec_bounds(&self, m: Model) {
        lemma_slot_bounds(self.custom, m);
    }

    fn h(&self, s: &State) -> (r: isize) {
        slot_h(&self.custom, s)
    }

    fn f(&self, s: &State) -> (r: isize) {
        let hv = self.h(s);
        proof {
            lemma_slot_bounds(self.custom, s@);
        }
        combine_f(s.g, self.w, hv)
    }

    fn name(&self) -> (r: String) {
        let mut out = "WA*(".to_owned();
        let weight = dec_exec(self.w);
        out.append(weight.as_str());
        out.append(") evaluation (h = ");
        let inner = slot_name(&self.custom);
        out.append(inner.as_str());
        out.append(")");
        out
    }
}

/// f = h: pure greedy ordering.
pub struct HeuristicGreedy {
    pub custom: Option<CustomHChoice>,
}

impl HeuristicGreedy {
    pub fn new(initial_state: &State) -> (r: Self)
        ensures
            r.custom is None,
    {
        let _ = initial_state;
        HeuristicGreedy { custom: None }
    }
}

impl Heuristic for HeuristicGreedy {
    open spec fn h_spec(&self, m: Model) -> int {
        slot_h_spec(self.custom, m)
    }

    open spec fn f_spec(&self, s: State) -> int {
        self.h_spec(s@)
    }

    open spec fn name_spec(&self) -> Seq<char> {
        "greedy evaluation (h = "@ + slot_name_spec(self.custom) + ")"@
    }

    proof fn h_spec_bounds(&self, m: Model) {
        lemma_slot_bounds(self.custom, m);
    }

    fn h(&self, s: &State) -> (r: isize) {
        slot_h(&self.custom, s)
    }

    fn f(&self, s: &State) -> (r: isize) {
        self.h(s)
    }

    fn name(&self) -> (r: String) {
        let mut out = "greedy evaluation (h = ".to_owned();
        let inner = slot_name(&self.custom);
        out.append(inner.as_str());
        out.append(")");
        out
    }
}

/// The priority rule chosen for this run.
pub enum HeuristicEnum {
    AStar(HeuristicAStar),
    WeightedAStar(HeuristicWeightedAStar),
    Greedy(HeuristicGreedy),
}

impl HeuristicEnum {
    /// The installed plug-in, if any.
    pub open spec fn custom_of(&self) -> Option<CustomHChoice> {
        match self {
            HeuristicEnum::AStar(x) => x.custom,
            HeuristicEnum::WeightedAStar(x) => x.custom,
            HeuristicEnum::Greedy(x) => x.custom,
        }
    }

    /// The weight of a weighted rule; 1 otherwise.
    pub open spec fn weight_of(&self) -> int {
        match self {
            HeuristicEnum::WeightedAStar(x) => x.w as int,
            _ => 1,
        }
    }
}

impl Heuristic for HeuristicEnum {
    open spec fn h_spec(&self, m: Model) -> int {
        match self {
            HeuristicEnum::AStar(x) => x.h_spec(m),
            HeuristicEnum::WeightedAStar(x) => x.h_spec(m),
            HeuristicEnum::Greedy(x) => x.h_spec(m),
        }
    }

    open spec fn f_spec(&self, s: State) -> int {
        match self {
            HeuristicEnum::AStar(x) => x.f_spec(s),
            HeuristicEnum::WeightedAStar(x) => x.f_spec(s),
            HeuristicEnum::Greedy(x) => x.f_spec(s),
        }
    }

    open spec fn name_spec(&self) -> Seq<char> {
        match self {
            HeuristicEnum::AStar(x) => x.name_spec(),
            HeuristicEnum::WeightedAStar(x) => x.name_spec(),
            HeuristicEnum::Greedy(x) => x.name_spec(),
        }
    }

    proof fn h_spec_bounds(&self, m: Model) {
        match self {
            HeuristicEnum::AStar(x) => x.h_spec_bounds(m),
            HeuristicEnum::WeightedAStar(x) => x.h_spec_bounds(m),
            HeuristicEnum::Greedy(x) => x.h_spec_bounds(m),
        }
    }

    fn h(&self, s: &State) -> (r: isize) {
        match self {
            HeuristicEnum::AStar(x) => x.h(s),
            HeuristicEnum::WeightedAStar(x) => x.h(s),
            HeuristicEnum::Greedy(x) => x.h(s),
        }
    }

    fn f(&self, s: &State) -> (r: isize) {
        match self {
            HeuristicEnum::AStar(x) => x.f(s),
            HeuristicEnum::WeightedAStar(x) => x.f(s),
            HeuristicEnum::Greedy(x) => x.f(s),
        }
    }

    fn name(&self) -> (r: String) {
        match self {
            HeuristicEnum::AStar(x) => x.name(),
            HeuristicEnum::WeightedAStar(x) => x.name(),
            HeuristicEnum::Greedy(x) => x.name(),
        }
    }
}

/// Installs the chosen estimate into a priority rule. The rule keeps its
/// kind and weight; only the plug-in slot changes.
pub fn set_heuristic(e: &mut HeuristicEnum, heur: CustomHChoice)
    ensures
        final(e).custom_of() == Some(heur),
        (*final(e)) matches HeuristicEnum::AStar(_) == (*old(e)) matches HeuristicEnum::AStar(_),
        (*final(e)) matches HeuristicEnum::Greedy(_) == (*old(e)) matches HeuristicEnum::Greedy(
            _,
        ),
        (*final(e)) matches HeuristicEnum::WeightedAStar(_) == (*old(e))
            matches HeuristicEnum::WeightedAStar(_),
        final(e).weight_of() == old(e).weight_of(),
{
    let new_e = match &*e {
        HeuristicEnum::AStar(_) => HeuristicEnum::AStar(HeuristicAStar { custom: Some(heur) }),
        HeuristicEnum::WeightedAStar(x) => HeuristicEnum::WeightedAStar(
            HeuristicWeightedAStar { custom: Some(heur), w: x.w },
        ),
        HeuristicEnum::Greedy(_) => HeuristicEnum::Greedy(HeuristicGreedy { custom: Some(heur) }),
    };
    *e = new_e;
}


} // verus!
