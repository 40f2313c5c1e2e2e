//! The source of the reference trace: hands out its actions one at a time,
//! then reports the end.
use vstd::prelude::*;
use vstd::string::StringExecFns;
use crate::action::{Action, ActionV};
use crate::player::actions_view;
use crate::text::{action_text, write_action};

verus! {

/// The whole trace as text, one action per line.
pub open spec fn trace_text_of(s: Seq<ActionV>) -> Seq<char>
    decreases s.len(),
{
    if s.len() == 0 {
        Seq::empty()
    } else {
        trace_text_of(s.subrange(0, s.len() - 1)) + action_text(s[s.len() - 1]) + "\n"@
    }
}

/// A pull-based reader over the reference trace.
pub struct ActionIncoming {
    actions: Vec<Action>,
    pos: usize,
}

impl ActionIncoming {
    /// The whole trace.
    pub closed spec fn trace_v(&self) -> Seq<ActionV> {
        actions_view(self.actions@)
    }

    /// How many actions have been handed out.
    pub closed spec fn pos_v(&self) -> nat {
        self.pos as nat
    }

    pub closed spec fn wf(&self) -> bool {
        self.pos <= self.actions.len()
    }

    pub fn new(actions: Vec<Action>) -> (r: ActionIncoming)
        ensures
            r.wf(),
            r.trace_v() == actions_view(actions@),
            r.pos_v() == 0,
    {
        ActionIncoming { actions, pos: 0 }
    }

    /// The whole trace as a single string, for diagnostics.
    pub fn trace_text(&self) -> (r: String)
        ensures
            r@ == trace_text_of(self.trace_v()),
    {
        let ghost t = self.trace_v();
        let mut out = String::new();
        let mut i: usize = 0;
        proof {
            assert(t.subrange(0, 0).len() == 0);
        }
        while i < self.actions.len()
            invariant
                i <= self.actions.len(),
                t == actions_view(self.actions@),
                out@ == trace_text_of(t.subrange(0, i as int)),
            decreases self.actions.len() - i,
        {
            proof {
                let p = t.subrange(0, i as int + 1);
                assert(p.subrange(0, i as int) =~= t.subrange(0, i as int));
            }
            write_action(&self.actions[i], &mut out);
            out.append("\n");
            i = i + 1;
        }
        proof {
            assert(t.subrange(0, t.len() as int) =~= t);
        }
        out
    }

    /// The next action of the trace, or `None` at its end.
    pub fn next(&mut self) -> (r: Option<Action>)
        requires
            old(self).wf(),
        ensures
            final(self).wf(),
            final(self).trace_v() == old(self).trace_v(),
            old(self).pos_v() < old(self).trace_v().len() ==> (r matches Some(a)
                && a@ == old(self).trace_v()[old(self).pos_v() as int])
                && final(self).pos_v() == old(self).pos_v() + 1,
            old(self).pos_v() == old(self).trace_v().len() ==> r is None
                && final(self).pos_v() == old(self).pos_v(),
    {
        if self.pos < self.actions.len() {
            let a = self.actions[self.pos].copy();
            self.pos = self.pos + 1;
            Some(a)
        } else {
            None
        }
    }
}

} // verus!
