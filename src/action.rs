//! Actions: the unit in which the reference trace and the observed history
//! are compared.
use vstd::prelude::*;
use crate::json::{Json, JsonV, compare};
use crate::order::lemma_cmp_json_zero;

verus! {

/// The role an action plays in the system under test.
#[derive(Debug, Clone, Copy, PartialEq, Eq, Structural)]
pub enum ActionType {
    Input,
    Output,
    Internal,
    Setup,
    Check,
}

/// The two brackets around the work a node does for one action.
#[derive(Debug, Clone, Copy, PartialEq, Eq, Structural)]
pub enum ActionBeginEnd {
    Begin,
    End,
}

/// An action: its type, the node it comes from, the node it goes to and a
/// normalised payload.
#[derive(Debug)]
pub struct Action {
    pub action_type: ActionType,
    pub source: u64,
    pub dest: u64,
    pub payload: Json,
}

/// The model of an action.
pub struct ActionV {
    pub action_type: ActionType,
    pub source: u64,
    pub dest: u64,
    pub payload: JsonV,
}

/// The model of an optional action.
pub open spec fn opt_view(o: Option<Action>) -> Option<ActionV> {
    match o {
        Some(x) => Some(x@),
        None => None,
    }
}

impl Action {
    pub open spec fn view(&self) -> ActionV {
        ActionV {
            action_type: self.action_type,
            source: self.source,
            dest: self.dest,
            payload: self.payload@,
        }
    }

    pub fn new(action_type: ActionType, source: u64, dest: u64, payload: Json) -> (r: Action)
        ensures
            r@ == (ActionV { action_type, source, dest, payload: payload@ }),
    {
        Action { action_type, source, dest, payload }
    }

    /// Structural equality over all four fields.
    pub fn same_as(&self, other: &Action) -> (r: bool)
        ensures
            r == (self@ == other@),
    {
        let c = compare(&self.payload, &other.payload);
        proof {
            lemma_cmp_json_zero(self.payload@, other.payload@);
        }
        self.action_type == other.action_type && self.source == other.source && self.dest
            == other.dest && c == 0
    }

    /// A copy of the action.
    pub fn copy(&self) -> (r: Action)
        ensures
            r@ == self@,
    {
        Action {
            action_type: self.action_type,
            source: self.source,
            dest: self.dest,
            payload: self.payload.deep_clone(),
        }
    }
}

} // verus!
