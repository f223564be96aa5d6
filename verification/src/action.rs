//! The closed primitive action set: `NoOp`, four moves, and the push/pull
//! variants in which the box never moves opposite to the agent.
//!
//! Each action exposes its agent displacement and box displacement as row
//! and column deltas, and a canonical textual name used on the wire.

use vstd::prelude::*;

verus! {

#[derive(Debug, Clone, Copy, PartialEq, Eq, Structural)]
pub enum ActionType {
    NoOp,
    Move,
    Push,
    Pull,
}

#[derive(Debug, Clone, Copy, PartialEq, Eq, Structural)]
pub enum Action {
    NoOp,
    MoveN,
    MoveS,
    MoveE,
    MoveW,
    PushNN,
    PushNE,
    PushNW,
    PushSS,
    PushSE,
    PushSW,
    PushEE,
    PushEN,
    PushES,
    PushWW,
    PushWN,
    PushWS,
    PullNN,
    PullNE,
    PullNW,
    PullSS,
    PullSE,
    PullSW,
    PullEE,
    PullEN,
    PullES,
    PullWW,
    PullWN,
    PullWS,
}

impl View for Action {
    type V = Action;

    open spec fn view(&self) -> Action {
        *self
    }
}

impl DeepView for Action {
    type V = Action;

    open spec fn deep_view(&self) -> Action {
        *self
    }
}

pub open spec fn spec_action_type(a: Action) -> ActionType {
    match a {
        Action::NoOp => ActionType::NoOp,
        Action::MoveN | Action::MoveS | Action::MoveE | Action::MoveW => ActionType::Move,
        Action::PushNN
        | Action::PushNE
        | Action::PushNW
        | Action::PushSS
        | Action::PushSE
        | Action::PushSW
        | Action::PushEE
        | Action::PushEN
        | Action::PushES
        | Action::PushWW
        | Action::PushWN
        | Action::PushWS => ActionType::Push,
        _ => ActionType::Pull,
    }
}

/// The row displacement of the acting agent: -1 north, 1 south, 0 otherwise.
pub open spec fn spec_agent_row_delta(a: Action) -> int {
    match a {
        Action::MoveN
        | Action::PushNN
        | Action::PushNE
        | Action::PushNW
        | Action::PullNN
        | Action::PullNE
        | Action::PullNW => -1,
        Action::MoveS
        | Action::PushSS
        | Action::PushSE
        | Action::PushSW
        | Action::PullSS
        | Action::PullSE
        | Action::PullSW => 1,
        _ => 0,
    }
}

/// The column displacement of the acting agent: 1 east, -1 west, 0 otherwise.
pub open spec fn spec_agent_col_delta(a: Action) -> int {
    match a {
        Action::MoveE
        | Action::PushEE
        | Action::PushEN
        | Action::PushES
        | Action::PullEE
        | Action::PullEN
        | Action::PullES => 1,
        Action::MoveW
        | Action::PushWW
        | Action::PushWN
        | Action::PushWS
        | Action::PullWW
        | Action::PullWN
        | Action::PullWS => -1,
        _ => 0,
    }
}

/// The row displacement of the touched box; 0 when no box moves.
pub open spec fn spec_box_row_delta(a: Action) -> int {
    match a {
        Action::PushNN | Action::PullNN | Action::PushEN | Action::PushWN | Action::PullEN
        | Action::PullWN => -1,
        Action::PushSS | Action::PullSS | Action::PushES | Action::PushWS | Action::PullES
        | Action::PullWS => 1,
        _ => 0,
    }
}

/// The column displacement of the touched box; 0 when no box moves.
pub open spec fn spec_box_col_delta(a: Action) -> int {
    match a {
        Action::PushNE | Action::PushSE | Action::PushEE | Action::PullNE | Action::PullSE
        | Action::PullEE => 1,
        Action::PushNW | Action::PushSW | Action::PushWW | Action::PullNW | Action::PullSW
        | Action::PullWW => -1,
        _ => 0,
    }
}

/// Whether the action displaces a box.
pub open spec fn moves_box(a: Action) -> bool {
    spec_action_type(a) == ActionType::Push || spec_action_type(a) == ActionType::Pull
}

/// The canonical wire name of each action.
pub open spec fn spec_action_name(a: Action) -> Seq<char> {
    match a {
        Action::NoOp => "NoOp"@,
        Action::MoveN => "Move(N)"@,
        Action::MoveS => "Move(S)"@,
        Action::MoveE => "Move(E)"@,
        Action::MoveW => "Move(W)"@,
        Action::PushNN => "Push(N,N)"@,
        Action::PushNE => "Push(N,E)"@,
        Action::PushNW => "Push(N,W)"@,
        Action::PushSS => "Push(S,S)"@,
        Action::PushSE => "Push(S,E)"@,
        Action::PushSW => "Push(S,W)"@,
        Action::PushEE => "Push(E,E)"@,
        Action::PushEN => "Push(E,N)"@,
        Action::PushES => "Push(E,S)"@,
        Action::PushWW => "Push(W,W)"@,
        Action::PushWN => "Push(W,N)"@,
        Action::PushWS => "Push(W,S)"@,
        Action::PullNN => "Pull(N,N)"@,
        Action::PullNE => "Pull(N,E)"@,
        Action::PullNW => "Pull(N,W)"@,
        Action::PullSS => "Pull(S,S)"@,
        Action::PullSE => "Pull(S,E)"@,
        Action::PullSW => "Pull(S,W)"@,
        Action::PullEE => "Pull(E,E)"@,
        Action::PullEN => "Pull(E,N)"@,
        Action::PullES => "Pull(E,S)"@,
        Action::PullWW => "Pull(W,W)"@,
        Action::PullWN => "Pull(W,N)"@,
        Action::PullWS => "Pull(W,S)"@,
    }
}

impl Action {
    pub fn get_name(&self) -> (r: &'static str)
        ensures
            r@ == spec_action_name(*self),
    {
        match self {
            Action::NoOp => "NoOp",
            Action::MoveN => "Move(N)",
            Action::MoveS => "Move(S)",
            Action::MoveE => "Move(E)",
            Action::MoveW => "Move(W)",
            Action::PushNN => "Push(N,N)",
            Action::PushNE => "Push(N,E)",
            Action::PushNW => "Push(N,W)",
            Action::PushSS => "Push(S,S)",
            Action::PushSE => "Push(S,E)",
            Action::PushSW => "Push(S,W)",
            Action::PushEE => "Push(E,E)",
            Action::PushEN => "Push(E,N)",
            Action::PushES => "Push(E,S)",
            Action::PushWW => "Push(W,W)",
            Action::PushWN => "Push(W,N)",
            Action::PushWS => "Push(W,S)",
            Action::PullNN => "Pull(N,N)",
            Action::PullNE => "Pull(N,E)",
            Action::PullNW => "Pull(N,W)",
            Action::PullSS => "Pull(S,S)",
            Action::PullSE => "Pull(S,E)",
            Action::PullSW => "Pull(S,W)",
            Action::PullEE => "Pull(E,E)",
            Action::PullEN => "Pull(E,N)",
            Action::PullES => "Pull(E,S)",
            Action::PullWW => "Pull(W,W)",
            Action::PullWN => "Pull(W,N)",
            Action::PullWS => "Pull(W,S)",
        }
    }

    pub fn to_string(&self) -> (r: String)
        ensures
            r@ == spec_action_name(*self),
    {
        self.get_name().to_owned()
    }

    pub fn get_type(&self) -> (r: ActionType)
        ensures
            r == spec_action_type(*self),
    {
        match self {
            Action::NoOp => ActionType::NoOp,
            Action::MoveN | Action::MoveS | Action::MoveE | Action::MoveW => ActionType::Move,
            Action::PushNN
            | Action::PushNE
            | Action::PushNW
            | Action::PushSS
            | Action::PushSE
            | Action::PushSW
            | Action::PushEE
            | Action::PushEN
            | Action::PushES
            | Action::PushWW
            | Action::PushWN
            | Action::PushWS => ActionType::Push,
            _ => ActionType::Pull,
        }
    }

    pub fn agent_row_delta(&self) -> (r: isize)
        ensures
            r as int == spec_agent_row_delta(*self),
    {
        match self {
            Action::MoveN
            | Action::PushNN
            | Action::PushNE
            | Action::PushNW
            | Action::PullNN
            | Action::PullNE
            | Action::PullNW => -1,
            Action::MoveS
            | Action::PushSS
            | Action::PushSE
            | Action::PushSW
            | Action::PullSS
            | Action::PullSE
            | Action::PullSW => 1,
            _ => 0,
        }
    }

    pub fn agent_col_delta(&self) -> (r: isize)
        ensures
            r as int == spec_agent_col_delta(*self),
    {
        match self {
            Action::MoveE
            | Action::PushEE
            | Action::PushEN
            | Action::PushES
            | Action::PullEE
            | Action::PullEN
            | Action::PullES => 1,
            Action::MoveW
            | Action::PushWW
            | Action::PushWN
            | Action::PushWS
            | Action::PullWW
            | Action::PullWN
            | Action::PullWS => -1,
            _ => 0,
        }
    }

    pub fn box_row_delta(&self) -> (r: isize)
        ensures
            r as int == spec_box_row_delta(*self),
    {
        match self {
            Action::PushNN | Action::PullNN | Action::PushEN | Action::PushWN | Action::PullEN
            | Action::PullWN => -1,
            Action::PushSS | Action::PullSS | Action::PushES | Action::PushWS | Action::PullES
            | Action::PullWS => 1,
            _ => 0,
        }
    }

    pub fn box_col_delta(&self) -> (r: isize)
        ensures
            r as int == spec_box_col_delta(*self),
    {
        match self {
            Action::PushNE | Action::PushSE | Action::PushEE | Action::PullNE | Action::PullSE
            | Action::PullEE => 1,
            Action::PushNW | Action::PushSW | Action::PushWW | Action::PullNW | Action::PullSW
            | Action::PullWW => -1,
            _ => 0,
        }
    }
}

/// The 29 actions in their canonical enumeration order.
pub open spec fn spec_all_actions() -> Seq<Action> {
    seq![
        Action::NoOp,
        Action::MoveN,
        Action::MoveS,
        Action::MoveE,
        Action::MoveW,
        Action::PushNN,
        Action::PushNE,
        Action::PushNW,
        Action::PushSS,
        Action::PushSE,
        Action::PushSW,
        Action::PushEE,
        Action::PushEN,
        Action::PushES,
        Action::PushWW,
        Action::PushWN,
        Action::PushWS,
        Action::PullNN,
        Action::PullNE,
        Action::PullNW,
        Action::PullSS,
        Action::PullSE,
        Action::PullSW,
        Action::PullEE,
        Action::PullEN,
        Action::PullES,
        Action::PullWW,
        Action::PullWN,
        Action::PullWS,
    ]
}

pub fn all_actions() -> (r: Vec<Action>)
    ensures
        r@ == spec_all_actions(),
{
    let mut v: Vec<Action> = Vec::new();
    v.push(Action::NoOp);
    v.push(Action::MoveN);
    v.push(Action::MoveS);
    v.push(Action::MoveE);
    v.push(Action::MoveW);
    v.push(Action::PushNN);
    v.push(Action::PushNE);
    v.push(Action::PushNW);
    v.push(Action::PushSS);
    v.push(Action::PushSE);
    v.push(Action::PushSW);
    v.push(Action::PushEE);
    v.push(Action::PushEN);
    v.push(Action::PushES);
    v.push(Action::PushWW);
    v.push(Action::PushWN);
    v.push(Action::PushWS);
    v.push(Action::PullNN);
    v.push(Action::PullNE);
    v.push(Action::PullNW);
    v.push(Action::PullSS);
    v.push(Action::PullSE);
    v.push(Action::PullSW);
    v.push(Action::PullEE);
    v.push(Action::PullEN);
    v.push(Action::PullES);
    v.push(Action::PullWW);
    v.push(Action::PullWN);
    v.push(Action::PullWS);
    proof {
        assert(v@ =~= spec_all_actions());
    }
    v
}

} // verus!
