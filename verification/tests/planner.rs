use searchclient::action::Action;
use searchclient::frontier::{Frontier, FrontierBFS, FrontierBestFirst, FrontierDFS};
use searchclient::graph_search::GraphSearch;
use searchclient::heuristic::{
    set_heuristic, CustomH, CustomHChoice, HBoxGoalCount, HGoalCount, HSumDistances,
    HSumDistancesBox, HSumDistancesBox2, HZero, Heuristic, HeuristicAStar, HeuristicEnum,
};
use searchclient::parser::parse_level;
use searchclient::color::Color;
use searchclient::state::State;
use std::rc::Rc;

fn lines(v: &[&str]) -> Vec<Vec<char>> {
    v.iter().map(|s| s.chars().collect()).collect()
}

fn level(colors: &[&str], initial: &[&str], goal: &[&str]) -> Vec<Vec<char>> {
    let mut v: Vec<&str> = vec!["#domain", "hospital", "#levelname", "test", "#colors"];
    v.extend_from_slice(colors);
    v.push("#initial");
    v.extend_from_slice(initial);
    v.push("#goal");
    v.extend_from_slice(goal);
    v.push("#end");
    lines(&v)
}

fn walk_south_level() -> Vec<Vec<char>> {
    level(
        &["red: 0, A"],
        &["+++++", "+0  +", "+   +", "+A  +", "+++++"],
        &["+++++", "+   +", "+   +", "+0  +", "+++++"],
    )
}

#[test]
fn single_agent_moves_south_twice() {
    let s = parse_level(&walk_south_level()).expect("level parses");
    let plan = GraphSearch::search(s, FrontierBFS::new()).expect("solvable");
    assert_eq!(plan.len(), 2);
    assert_eq!(plan[0], vec![Action::MoveS]);
}

#[test]
fn push_box_east_one_cell() {
    let l = level(&["red: 0, A"], &["+++++", "+0A +", "+++++"], &["+++++", "+  A+", "+++++"]);
    let s = parse_level(&l).expect("level parses");
    let plan = GraphSearch::search(s, FrontierBFS::new()).expect("solvable");
    assert_eq!(plan, vec![vec![Action::PushEE]]);
}

#[test]
fn pull_box_west_one_cell() {
    let l = level(&["red: 0, A"], &["++++++", "+ 0A +", "++++++"], &["++++++", "+ A  +", "++++++"]);
    let s = parse_level(&l).expect("level parses");
    let plan = GraphSearch::search(s, FrontierBFS::new()).expect("solvable");
    assert_eq!(plan, vec![vec![Action::PullWW]]);
}

#[test]
fn pull_then_state_matches() {
    let l = level(&["red: 0, A"], &["++++++", "+ 0A +", "++++++"], &["++++++", "+ A  +", "++++++"]);
    let s = parse_level(&l).expect("level parses");
    let rc = Rc::new(s);
    let succs = State::get_expanded_states(&rc);
    let pulled: Vec<&State> = succs
        .iter()
        .filter(|t| t.joint_action.as_deref() == Some(&[Action::PullWW]))
        .collect();
    assert_eq!(pulled.len(), 1);
    let t = pulled[0];
    assert_eq!((t.agent_rows[0], t.agent_cols[0]), (1, 1));
    assert_eq!(t.boxes[1][2], 'A');
    assert_eq!(t.boxes[1][3], '\0');
    assert_eq!(t.g, 1);
}

#[test]
fn unsolvable_level_returns_none() {
    let l = level(&["red: 0"], &["+++++", "+0+ +", "+++++"], &["+++++", "+ +0+", "+++++"]);
    let s = parse_level(&l).expect("level parses");
    assert!(GraphSearch::search(s, FrontierBFS::new()).is_none());
}

#[test]
fn two_agents_already_satisfied() {
    let l = level(
        &["red: 0, A", "blue: 1"],
        &["+++++++", "+0  1 +", "+     +", "+  A  +", "+++++++"],
        &["+++++++", "+   1 +", "+     +", "+  A  +", "+++++++"],
    );
    let s = parse_level(&l).expect("level parses");
    let plan = GraphSearch::search(s, FrontierBFS::new()).expect("solvable");
    assert_eq!(plan.len(), 0);
}

fn two_push_level() -> Vec<Vec<char>> {
    level(&["red: 0, A"], &["++++++", "+0A  +", "++++++"], &["++++++", "+   A+", "++++++"])
}

#[test]
fn astar_matches_bfs_length() {
    let s1 = parse_level(&two_push_level()).expect("level parses");
    let bfs_plan = GraphSearch::search(s1, FrontierBFS::new()).expect("solvable");

    let s2 = parse_level(&two_push_level()).expect("level parses");
    let mut he = HeuristicEnum::AStar(HeuristicAStar::new(&s2));
    set_heuristic(&mut he, CustomHChoice::BoxGoalCount(HBoxGoalCount::new()));
    let astar_plan = GraphSearch::search(s2, FrontierBestFirst::new(he)).expect("solvable");

    assert_eq!(bfs_plan.len(), 2);
    assert_eq!(astar_plan.len(), bfs_plan.len());
}

#[test]
fn dfs_finds_a_valid_plan() {
    let s = parse_level(&two_push_level()).expect("level parses");
    let plan = GraphSearch::search(s, FrontierDFS::new()).expect("solvable");
    assert!(plan.len() >= 2);
}

#[test]
fn hash_consistency_on_equal_states() {
    let a = parse_level(&walk_south_level()).expect("level parses");
    let b = parse_level(&walk_south_level()).expect("level parses");
    assert_eq!(a.calculate_hash(), b.calculate_hash());
}

#[test]
fn hash_differs_after_a_move() {
    let a = parse_level(&walk_south_level()).expect("level parses");
    let h0 = a.calculate_hash();
    let rc = Rc::new(a);
    for t in State::get_expanded_states(&rc) {
        // Only the all-NoOp successor leaves the board unchanged.
        if t.joint_action.as_deref() == Some(&[Action::NoOp]) {
            assert_eq!(t.calculate_hash(), h0);
        } else {
            assert_ne!(t.calculate_hash(), h0);
        }
    }
}

#[test]
fn successor_determinism_across_runs() {
    let a = Rc::new(parse_level(&walk_south_level()).expect("level parses"));
    let b = Rc::new(parse_level(&walk_south_level()).expect("level parses"));
    let sa = State::get_expanded_states(&a);
    let sb = State::get_expanded_states(&b);
    assert_eq!(sa.len(), sb.len());
    for (x, y) in sa.iter().zip(sb.iter()) {
        assert_eq!(x.joint_action, y.joint_action);
        assert_eq!(x.agent_rows, y.agent_rows);
        assert_eq!(x.agent_cols, y.agent_cols);
        assert_eq!(x.boxes, y.boxes);
        assert_eq!(x.calculate_hash(), y.calculate_hash());
    }
}

#[test]
fn parent_g_law_on_children() {
    let root = Rc::new(parse_level(&walk_south_level()).expect("level parses"));
    assert_eq!(root.g(), 0);
    for t in State::get_expanded_states(&root) {
        assert_eq!(t.g(), 1);
        let t_rc = Rc::new(t);
        for u in State::get_expanded_states(&t_rc) {
            assert_eq!(u.g(), 2);
        }
    }
}

#[test]
fn extract_plan_records_the_path() {
    let root = Rc::new(parse_level(&walk_south_level()).expect("level parses"));
    let succs = State::get_expanded_states(&root);
    let child = succs
        .into_iter()
        .find(|t| t.joint_action.as_deref() == Some(&[Action::MoveS]))
        .expect("south move exists");
    let plan = child.extract_plan();
    assert_eq!(plan, vec![vec![Action::MoveS]]);
}

#[test]
fn goal_closure_both_ways() {
    let solved = level(&["red: 0"], &["++++", "+0 +", "++++"], &["++++", "+0 +", "++++"]);
    let s = parse_level(&solved).expect("level parses");
    assert!(s.is_goal_state());

    let unsolved = level(&["red: 0"], &["++++", "+0 +", "++++"], &["++++", "+ 0+", "++++"]);
    let s2 = parse_level(&unsolved).expect("level parses");
    assert!(!s2.is_goal_state());
}

#[test]
fn applicability_cases() {
    let s = parse_level(&walk_south_level()).expect("level parses");
    assert!(s.is_applicable(0, Action::NoOp));
    assert!(s.is_applicable(0, Action::MoveS));
    assert!(s.is_applicable(0, Action::MoveE));
    // North and west lead into the border walls.
    assert!(!s.is_applicable(0, Action::MoveN));
    assert!(!s.is_applicable(0, Action::MoveW));
    // No box is adjacent, so no push applies.
    assert!(!s.is_applicable(0, Action::PushSS));
}

#[test]
fn push_needs_matching_color() {
    let l = level(
        &["red: 0", "blue: A"],
        &["+++++", "+0A +", "+++++"],
        &["+++++", "+  A+", "+++++"],
    );
    let s = parse_level(&l).expect("level parses");
    assert!(!s.is_applicable(0, Action::PushEE));
    assert!(GraphSearch::search(s, FrontierBFS::new()).is_none());
}

#[test]
fn conflict_same_destination() {
    let l = level(
        &["red: 0", "blue: 1"],
        &["+++++", "+0 1+", "+++++"],
        &["+++++", "+0 1+", "+++++"],
    );
    let s = parse_level(&l).expect("level parses");
    // Both agents stepping onto the middle cell collide.
    assert!(s.is_conflicting(&vec![Action::MoveE, Action::MoveW]));
    // One stepping while the other rests is fine only on distinct cells.
    assert!(!s.is_conflicting(&vec![Action::NoOp, Action::NoOp]));
    assert!(s.is_conflicting(&vec![Action::MoveE, Action::NoOp]) == false);
}

#[test]
fn heuristic_values_concrete() {
    let s = parse_level(&walk_south_level()).expect("level parses");
    assert_eq!(HZero::new().h(&s), 0);
    // The agent goal at (3,1) is unsatisfied; box A has no goal.
    assert_eq!(HGoalCount::new().h(&s), 1);
    assert_eq!(HBoxGoalCount::new().h(&s), 0);
    // Agent at (1,1), its goal cell at (3,1): Manhattan distance 2.
    assert_eq!(HSumDistances::new().h(&s), 2);
    assert_eq!(HSumDistancesBox::new().h(&s), 0);
    // Nearest red box for agent 0 is A at (3,1): distance 2.
    assert_eq!(HSumDistancesBox2::new().h(&s), 2);
}

#[test]
fn box_distance_heuristics_concrete() {
    let s = parse_level(&two_push_level()).expect("level parses");
    assert_eq!(HBoxGoalCount::new().h(&s), 1);
    // Box at (1,2), goal at (1,4): distance 2.
    assert_eq!(HSumDistancesBox::new().h(&s), 2);
    // Agent at (1,1) next to the box: distance 1 on top.
    assert_eq!(HSumDistancesBox2::new().h(&s), 3);
}

#[test]
fn astar_f_adds_g_and_h() {
    let s = parse_level(&walk_south_level()).expect("level parses");
    let mut he = HeuristicEnum::AStar(HeuristicAStar::new(&s));
    set_heuristic(&mut he, CustomHChoice::SumDistances(HSumDistances::new()));
    assert_eq!(he.h(&s), 2);
    assert_eq!(he.f(&s), 2);
    let rc = Rc::new(s);
    let child = State::get_expanded_states(&rc)
        .into_iter()
        .find(|t| t.joint_action.as_deref() == Some(&[Action::MoveS]))
        .expect("south move exists");
    // g = 1, h = 1 after stepping toward the goal.
    assert_eq!(he.f(&child), 2);
}

#[test]
fn frontier_bfs_is_fifo() {
    let root = Rc::new(parse_level(&walk_south_level()).expect("level parses"));
    let succs = State::get_expanded_states(&root);
    let hashes: Vec<u64> = succs.iter().map(|t| t.calculate_hash()).collect();
    let mut f = FrontierBFS::new();
    assert!(f.is_empty());
    for t in succs {
        f.add(t);
    }
    assert_eq!(f.size(), hashes.len());
    for h in hashes {
        let popped = f.pop().expect("non-empty");
        assert_eq!(popped.calculate_hash(), h);
    }
    assert!(f.is_empty());
}

#[test]
fn frontier_dfs_is_lifo() {
    let root = Rc::new(parse_level(&walk_south_level()).expect("level parses"));
    let succs = State::get_expanded_states(&root);
    let mut hashes: Vec<u64> = succs.iter().map(|t| t.calculate_hash()).collect();
    hashes.reverse();
    let mut f = FrontierDFS::new();
    for t in succs {
        f.add(t);
    }
    for h in hashes {
        let popped = f.pop().expect("non-empty");
        assert_eq!(popped.calculate_hash(), h);
    }
}

#[test]
fn frontier_contains_by_hash() {
    let root = Rc::new(parse_level(&walk_south_level()).expect("level parses"));
    let succs = State::get_expanded_states(&root);
    let mut f = FrontierBFS::new();
    let probe = parse_level(&walk_south_level()).expect("level parses");
    assert!(!f.contains(&probe));
    let first = succs
        .into_iter()
        .find(|t| t.joint_action.as_deref() == Some(&[Action::MoveS]))
        .expect("has a south move");
    f.add(first);
    assert!(!f.contains(&probe));
    f.add(probe);
    let probe2 = parse_level(&walk_south_level()).expect("level parses");
    assert!(f.contains(&probe2));
}

#[test]
fn best_first_pops_min_f_earliest_first() {
    let root = parse_level(&walk_south_level()).expect("level parses");
    let mut he = HeuristicEnum::AStar(HeuristicAStar::new(&root));
    set_heuristic(&mut he, CustomHChoice::SumDistances(HSumDistances::new()));
    let rc = Rc::new(root);
    let succs = State::get_expanded_states(&rc);
    // Children that move toward the goal have f = 2; the rest have f = 4.
    let expected: Vec<u64> = {
        let mut toward: Vec<u64> = Vec::new();
        let mut away: Vec<u64> = Vec::new();
        for t in &succs {
            if he.f(t) == 2 {
                toward.push(t.calculate_hash());
            } else {
                away.push(t.calculate_hash());
            }
        }
        toward.into_iter().chain(away.into_iter()).collect()
    };
    let mut f = FrontierBestFirst::new(he);
    for t in succs {
        f.add(t);
    }
    for h in expected {
        let popped = f.pop().expect("non-empty");
        assert_eq!(popped.calculate_hash(), h);
    }
}

#[test]
fn frontier_names() {
    let s = parse_level(&walk_south_level()).expect("level parses");
    assert_eq!(FrontierBFS::new().get_name(), "breadth-first search");
    assert_eq!(FrontierDFS::new().get_name(), "depth-first search");
    let he = HeuristicEnum::AStar(HeuristicAStar::new(&s));
    assert_eq!(
        FrontierBestFirst::new(he).get_name(),
        "best-first search using A* evaluation (h = unknown)"
    );
}

#[test]
fn weighted_astar_name_carries_weight() {
    let s = parse_level(&walk_south_level()).expect("level parses");
    let mut he = HeuristicEnum::WeightedAStar(
        searchclient::heuristic::HeuristicWeightedAStar::new(&s, 5),
    );
    set_heuristic(&mut he, CustomHChoice::GoalCount(HGoalCount::new()));
    assert_eq!(he.name(), "WA*(5) evaluation (h = GoalCount)");
    let mut he2 = HeuristicEnum::WeightedAStar(
        searchclient::heuristic::HeuristicWeightedAStar::new(&s, 12),
    );
    set_heuristic(&mut he2, CustomHChoice::Zero(HZero::new()));
    assert_eq!(he2.name(), "WA*(12) evaluation (h = Zero)");
}

#[test]
fn weighted_astar_weights_h() {
    let s = parse_level(&walk_south_level()).expect("level parses");
    let mut he = HeuristicEnum::WeightedAStar(
        searchclient::heuristic::HeuristicWeightedAStar::new(&s, 5),
    );
    set_heuristic(&mut he, CustomHChoice::SumDistances(HSumDistances::new()));
    // g = 0, h = 2, w = 5.
    assert_eq!(he.f(&s), 10);
}

#[test]
fn greedy_f_ignores_g() {
    let s = parse_level(&walk_south_level()).expect("level parses");
    let mut he = HeuristicEnum::Greedy(searchclient::heuristic::HeuristicGreedy::new(&s));
    set_heuristic(&mut he, CustomHChoice::SumDistances(HSumDistances::new()));
    let rc = Rc::new(s);
    let child = State::get_expanded_states(&rc)
        .into_iter()
        .find(|t| t.joint_action.as_deref() == Some(&[Action::MoveS]))
        .expect("south move exists");
    assert_eq!(he.f(&child), 1);
}

#[test]
fn action_names_and_types() {
    assert_eq!(Action::NoOp.get_name(), "NoOp");
    assert_eq!(Action::MoveN.get_name(), "Move(N)");
    assert_eq!(Action::PushNE.get_name(), "Push(N,E)");
    assert_eq!(Action::PullWS.get_name(), "Pull(W,S)");
    assert_eq!(Action::PushEE.to_string(), "Push(E,E)");
    assert_eq!(
        Action::MoveW.get_type(),
        searchclient::action::ActionType::Move
    );
    assert_eq!(Action::MoveN.agent_row_delta(), -1);
    assert_eq!(Action::MoveE.agent_col_delta(), 1);
    assert_eq!(Action::PushNE.box_row_delta(), 0);
    assert_eq!(Action::PushNE.box_col_delta(), 1);
    assert_eq!(Action::PullWS.box_row_delta(), 1);
    assert_eq!(Action::PullWS.box_col_delta(), 0);
}

#[test]
fn color_parsing() {
    assert_eq!(Color::from_string("blue"), Color::Blue);
    assert_eq!(Color::from_string("RED"), Color::Red);
    assert_eq!(Color::from_string("LightBlue"), Color::Lightblue);
    assert_eq!(Color::from_string("brown"), Color::Brown);
    assert_eq!(Color::from_string("chartreuse"), Color::Blue);
}

#[test]
fn parser_rejects_bad_levels() {
    // A hole in the border.
    let open_border = level(&["red: 0"], &["+++++", "+0  +", "++ ++"], &["+++++", "+ 0 +", "+++++"]);
    assert!(parse_level(&open_border).is_none());
    // The same agent twice.
    let dup = level(&["red: 0"], &["+++++", "+0 0+", "+++++"], &["+++++", "+0  +", "+++++"]);
    assert!(parse_level(&dup).is_none());
    // Agents must be densely numbered from 0.
    let gap = level(&["red: 0, 2"], &["+++++", "+0 2+", "+++++"], &["+++++", "+0 2+", "+++++"]);
    assert!(parse_level(&gap).is_none());
    // Truncated input.
    assert!(parse_level(&lines(&["#domain", "hospital"])).is_none());
}

#[test]
fn memory_line_shape() {
    assert_eq!(
        searchclient::memory::Memory::string_rep(),
        "[Used: 0.00 MB, Free: 0.00 MB, Alloc: 0.00 MB, MaxAlloc: 0.00 MB]"
    );
}

#[test]
fn custom_h_init_is_inert() {
    let s = parse_level(&walk_south_level()).expect("level parses");
    let mut h = HGoalCount::new();
    h.init(&s);
    assert_eq!(h.h(&s), 1);
}

#[test]
fn state_equality_ignores_lineage() {
    let a = parse_level(&walk_south_level()).expect("level parses");
    let b = parse_level(&walk_south_level()).expect("level parses");
    assert!(a.equals(&b));
    let rc = Rc::new(b);
    for t in State::get_expanded_states(&rc) {
        if t.joint_action.as_deref() == Some(&[Action::NoOp]) {
            // Same board, different lineage and cost: still equal.
            assert!(t.equals(&a));
        } else {
            assert!(!t.equals(&a));
        }
    }
}

#[test]
fn successors_satisfy_state_invariants() {
    let l = level(
        &["red: 0, A", "blue: 1"],
        &["+++++++", "+0A 1 +", "+     +", "+++++++"],
        &["+++++++", "+  A  +", "+     +", "+++++++"],
    );
    let root = Rc::new(parse_level(&l).expect("level parses"));
    let succs = State::get_expanded_states(&root);
    assert!(succs.len() > 1);
    for t in &succs {
        // No agent on a wall or box, and no two agents on one cell.
        for i in 0..t.agent_rows.len() {
            let (r, c) = (t.agent_rows[i], t.agent_cols[i]);
            assert!(!t.walls[r][c]);
            assert_eq!(t.boxes[r][c], '\0');
            for j in 0..i {
                assert!((t.agent_rows[j], t.agent_cols[j]) != (r, c));
            }
        }
        // No box on a wall, and the box count is preserved.
        let mut boxes = 0;
        for r in 0..t.boxes.len() {
            for c in 0..t.boxes[r].len() {
                if t.boxes[r][c] != '\0' {
                    assert!(!t.walls[r][c]);
                    boxes += 1;
                }
            }
        }
        assert_eq!(boxes, 1);
    }
}

#[test]
fn conflict_box_lands_on_arriving_agent() {
    let l = level(
        &["red: 0, A", "blue: 1"],
        &["+++++++", "+0A 1 +", "+++++++"],
        &["+++++++", "+0A 1 +", "+++++++"],
    );
    let s = parse_level(&l).expect("level parses");
    assert!(s.is_applicable(0, Action::PushEE));
    assert!(s.is_applicable(1, Action::MoveW));
    assert!(s.is_conflicting(&vec![Action::PushEE, Action::MoveW]));
    assert!(!s.is_conflicting(&vec![Action::PushEE, Action::MoveE]));
}

#[test]
fn conflict_shared_box_destination() {
    let l = level(
        &["red: 0, A", "blue: 1, B"],
        &["++++++++", "+0A B1 +", "++++++++"],
        &["++++++++", "+0A B1 +", "++++++++"],
    );
    let s = parse_level(&l).expect("level parses");
    assert!(s.is_applicable(0, Action::PushEE));
    assert!(s.is_applicable(1, Action::PushWW));
    assert!(s.is_conflicting(&vec![Action::PushEE, Action::PushWW]));
}

#[test]
fn bfs_driver_walks_south() {
    let s = parse_level(&walk_south_level()).expect("level parses");
    let plan = GraphSearch::search_bfs(s).expect("solvable");
    assert_eq!(plan.len(), 2);
    assert_eq!(plan[0], vec![Action::MoveS]);
}

#[test]
fn bfs_driver_pushes_east() {
    let l = level(&["red: 0, A"], &["+++++", "+0A +", "+++++"], &["+++++", "+  A+", "+++++"]);
    let s = parse_level(&l).expect("level parses");
    let plan = GraphSearch::search_bfs(s).expect("solvable");
    assert_eq!(plan, vec![vec![Action::PushEE]]);
}

#[test]
fn bfs_driver_empty_plan_on_satisfied_root() {
    let l = level(
        &["red: 0, A", "blue: 1"],
        &["+++++++", "+0  1 +", "+     +", "+  A  +", "+++++++"],
        &["+++++++", "+   1 +", "+     +", "+  A  +", "+++++++"],
    );
    let s = parse_level(&l).expect("level parses");
    let plan = GraphSearch::search_bfs(s).expect("already solved");
    assert_eq!(plan.len(), 0);
}

#[test]
fn bfs_driver_unsolvable_returns_none() {
    let l = level(&["red: 0"], &["+++++", "+0+ +", "+++++"], &["+++++", "+ +0+", "+++++"]);
    let s = parse_level(&l).expect("level parses");
    assert!(GraphSearch::search_bfs(s).is_none());
}

#[test]
fn bfs_driver_matches_generic_bfs() {
    let s1 = parse_level(&two_push_level()).expect("level parses");
    let p1 = GraphSearch::search_bfs(s1).expect("solvable");
    let s2 = parse_level(&two_push_level()).expect("level parses");
    let p2 = GraphSearch::search(s2, FrontierBFS::new()).expect("solvable");
    assert_eq!(p1, p2);
}
