//! A verified multi-agent planner core for a grid world of agents and boxes.
//!
//! Agents (digits) move about a walled grid and push or pull lettered boxes
//! of their own color. The library models states, joint actions, successor
//! generation with conflict detection, search frontiers, heuristics, and a
//! graph-search driver that extracts a plan once a goal state is reached.

pub mod action;
pub mod color;
pub mod frontier;
pub mod graph_search;
pub mod heuristic;
pub mod memory;
pub mod model;
pub mod parser;
pub mod state;
pub mod successor;
pub mod views;
