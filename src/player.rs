//! The trace player: the server side of the harness. It holds the reference
//! trace and the requests that nodes sent, and decides which request may
//! proceed. Receiving requests, sending acknowledgements and timers belong to
//! the caller, which hands each request to `receive` and then calls
//! `try_release` until it returns `None`.
use vstd::prelude::*;
use crate::action::{Action, ActionType, ActionV};
use crate::error::DtmError;

verus! {

broadcast use vstd::seq_lib::group_to_multiset_ensures;

/// How the player orders the actions it releases.
#[derive(Debug, Clone, Copy, PartialEq, Eq, Structural)]
pub struct TestOption {
    /// An action counts as observed only once both its Begin and its End came.
    pub wait_both_begin_and_end_action: bool,
    /// Output actions are observed only once both brackets came, so that they
    /// complete in trace order.
    pub sequential_output_action: bool,
    /// How long the caller waits for a request before giving up.
    pub seconds_wait_message_timeout: u64,
}

impl TestOption {
    /// Both policies off, and a wait of a few seconds.
    pub fn default_options() -> (r: TestOption)
        ensures
            !r.wait_both_begin_and_end_action,
            !r.sequential_output_action,
            r.seconds_wait_message_timeout == 5,
    {
        TestOption {
            wait_both_begin_and_end_action: false,
            sequential_output_action: false,
            seconds_wait_message_timeout: 5,
        }
    }
}

/// Whether an action is released only when both its brackets are pending.
pub open spec fn needs_both(opt: TestOption, a: ActionV) -> bool {
    opt.wait_both_begin_and_end_action || (opt.sequential_output_action && a.action_type
        == ActionType::Output)
}

/// A node's request to go past one bracket of an action.
#[derive(Debug)]
pub struct ActionReq {
    pub id: String,
    pub action: Action,
    pub begin: bool,
}

/// The model of a request.
pub struct ReqV {
    pub id: Seq<char>,
    pub action: ActionV,
    pub begin: bool,
}

impl ActionReq {
    pub open spec fn view(&self) -> ReqV {
        ReqV { id: self.id@, action: self.action@, begin: self.begin }
    }
}

pub open spec fn reqs_view(s: Seq<ActionReq>) -> Seq<ReqV> {
    Seq::new(s.len(), |i: int| s[i]@)
}

pub open spec fn actions_view(s: Seq<Action>) -> Seq<ActionV> {
    Seq::new(s.len(), |i: int| s[i]@)
}

/// The index of the first pending request for `a` with the given bracket, or -1.
pub open spec fn first_match(p: Seq<ReqV>, a: ActionV, begin: bool) -> int
    decreases p.len(),
{
    if p.len() == 0 {
        -1
    } else {
        let r = first_match(p.drop_last(), a, begin);
        if r >= 0 {
            r
        } else if p.last().action == a && p.last().begin == begin {
            p.len() - 1
        } else {
            -1
        }
    }
}

/// Whether a request is acknowledged as it arrives: the End of an action
/// released on its Begin alone, once that action has been released.
pub open spec fn acked_at_once(opt: TestOption, history: Seq<ActionV>, q: ReqV) -> bool {
    !q.begin && !needs_both(opt, q.action) && history.contains(q.action)
}

/// Whether the release of `a` takes an End along: always where both
/// brackets are needed, otherwise when an End for it waits already.
pub open spec fn takes_end(opt: TestOption, p: Seq<ReqV>, a: ActionV) -> bool {
    needs_both(opt, a) || first_match(p, a, false) >= 0
}

/// The pending queue `p` after the release of `a`: the first Begin for it is
/// gone, and the first End too when both brackets are needed; the other
/// requests keep their order.
pub open spec fn remaining(p: Seq<ReqV>, a: ActionV, both: bool) -> Seq<ReqV> {
    let ib = first_match(p, a, true);
    let ie = first_match(p, a, false);
    if !both {
        p.remove(ib)
    } else if ib < ie {
        p.remove(ie).remove(ib)
    } else {
        p.remove(ib).remove(ie)
    }
}

/// Replays a reference trace against the requests of the nodes.
pub struct Player {
    trace: Vec<Action>,
    cursor: usize,
    pending: Vec<ActionReq>,
    history: Vec<Action>,
    option: TestOption,
}

impl Player {
    pub closed spec fn trace_v(&self) -> Seq<ActionV> {
        actions_view(self.trace@)
    }

    /// How many actions of the trace have been released.
    pub closed spec fn cursor_v(&self) -> nat {
        self.cursor as nat
    }

    /// The requests received and not yet acknowledged, in arrival order.
    pub closed spec fn pending_v(&self) -> Seq<ReqV> {
        reqs_view(self.pending@)
    }

    /// The actions released so far, in the order of release.
    pub closed spec fn history_v(&self) -> Seq<ActionV> {
        actions_view(self.history@)
    }

    pub closed spec fn option_v(&self) -> TestOption {
        self.option
    }

    pub closed spec fn wf(&self) -> bool {
        &&& self.cursor <= self.trace.len()
        &&& self.history_v() == self.trace_v().subrange(0, self.cursor as int)
    }

    /// Whether the next action of the trace can be released now.
    pub open spec fn releasable(&self) -> bool {
        let a = self.trace_v()[self.cursor_v() as int];
        &&& self.cursor_v() < self.trace_v().len()
        &&& first_match(self.pending_v(), a, true) >= 0
        &&& needs_both(self.option_v(), a) ==> first_match(self.pending_v(), a, false) >= 0
    }

    /// The observed history is the prefix of the trace released so far.
    pub proof fn lemma_history_is_prefix(&self)
        requires
            self.wf(),
        ensures
            self.cursor_v() <= self.trace_v().len(),
            self.history_v() == self.trace_v().subrange(0, self.cursor_v() as int),
    {
    }

    /// Once the whole trace has been released, the observed history equals
    /// the reference trace element by element.
    pub proof fn lemma_completed_run(&self)
        requires
            self.wf(),
            self.cursor_v() == self.trace_v().len(),
        ensures
            self.history_v() == self.trace_v(),
    {
        assert(self.trace_v().subrange(0, self.cursor as int) =~= self.trace_v());
    }

    pub fn new(trace: Vec<Action>, option: TestOption) -> (r: Player)
        ensures
            r.wf(),
            r.trace_v() == actions_view(trace@),
            r.cursor_v() == 0,
            r.pending_v() == Seq::<ReqV>::empty(),
            r.history_v() == Seq::<ActionV>::empty(),
            r.option_v() == option,
    {
        let r = Player { trace, cursor: 0, pending: Vec::new(), history: Vec::new(), option };
        proof {
            assert(r.pending_v() =~= Seq::<ReqV>::empty());
            assert(r.history_v() =~= r.trace_v().subrange(0, 0));
        }
        r
    }

    /// Whether the whole trace has been released.
    pub fn is_done(&self) -> (r: bool)
        requires
            self.wf(),
        ensures
            r == (self.cursor_v() == self.trace_v().len()),
    {
        self.cursor == self.trace.len()
    }

    /// The action the player waits for, if the trace is not finished.
    pub fn expected(&self) -> (r: Option<&Action>)
        requires
            self.wf(),
        ensures
            match r {
                Some(a) => self.cursor_v() < self.trace_v().len() && a@ == self.trace_v()[self.cursor_v() as int],
                None => self.cursor_v() == self.trace_v().len(),
            },
    {
        if self.cursor < self.trace.len() {
            Some(&self.trace[self.cursor])
        } else {
            None
        }
    }

    /// The actions of the pending requests, in arrival order.
    pub fn pending_actions(&self) -> (r: Vec<Action>)
        ensures
            actions_view(r@) == Seq::new(self.pending_v().len(), |i: int| self.pending_v()[i].action),
    {
        let mut out: Vec<Action> = Vec::new();
        let mut i: usize = 0;
        while i < self.pending.len()
            invariant
                i <= self.pending.len(),
                out.len() == i,
                forall|k: int| 0 <= k < i ==> out@[k]@ == self.pending@[k].action@,
            decreases self.pending.len() - i,
        {
            out.push(self.pending[i].action.copy());
            i = i + 1;
        }
        proof {
            assert(actions_view(out@) =~= Seq::new(
                self.pending_v().len(),
                |i: int| self.pending_v()[i].action,
            ));
        }
        out
    }

    /// What the caller reports when its wait for a request ran out: a
    /// mismatch while the trace is unfinished.
    pub fn on_timeout(&self) -> (r: Result<(), DtmError>)
        requires
            self.wf(),
        ensures
            r is Err <==> self.cursor_v() < self.trace_v().len(),
            r matches Err(e) ==> e == DtmError::Mismatch,
    {
        if self.cursor < self.trace.len() {
            Err(DtmError::Mismatch)
        } else {
            Ok(())
        }
    }
}

proof fn lemma_first_match_prefix(p: Seq<ReqV>, a: ActionV, begin: bool, k: int)
    requires
        0 <= k <= p.len(),
        first_match(p.subrange(0, k), a, begin) >= 0,
    ensures
        first_match(p, a, begin) == first_match(p.subrange(0, k), a, begin),
    decreases p.len() - k,
{
    if k < p.len() {
        let q = p.subrange(0, k + 1);
        assert(q.drop_last() =~= p.subrange(0, k));
        lemma_first_match_prefix(p, a, begin, k + 1);
    } else {
        assert(p.subrange(0, k) =~= p);
    }
}

proof fn lemma_first_match_range(p: Seq<ReqV>, a: ActionV, begin: bool)
    ensures
        -1 <= first_match(p, a, begin) < p.len(),
        first_match(p, a, begin) >= 0 ==> p[first_match(p, a, begin)].action == a && p[first_match(
            p,
            a,
            begin,
        )].begin == begin,
    decreases p.len(),
{
    if p.len() > 0 {
        lemma_first_match_range(p.drop_last(), a, begin);
    }
}

proof fn lemma_reqs_remove(s: Seq<ActionReq>, i: int)
    requires
        0 <= i < s.len(),
    ensures
        reqs_view(s.remove(i)) == reqs_view(s).remove(i),
        reqs_view(s.remove(i)).to_multiset() == reqs_view(s).to_multiset().remove(s[i]@),
{
    assert(reqs_view(s.remove(i)) =~= reqs_view(s).remove(i));
    vstd::seq_lib::to_multiset_remove(reqs_view(s), i);
}

impl Player {
    fn find_first(&self, a: &Action, begin: bool) -> (r: Option<usize>)
        ensures
            match r {
                Some(i) => i < self.pending.len() && first_match(self.pending_v(), a@, begin) == i,
                None => first_match(self.pending_v(), a@, begin) == -1,
            },
    {
        let ghost p = self.pending_v();
        let mut i: usize = 0;
        proof {
            assert(p.subrange(0, 0).len() == 0);
        }
        while i < self.pending.len()
            invariant
                i <= self.pending.len(),
                p == self.pending_v(),
                first_match(p.subrange(0, i as int), a@, begin) == -1,
            decreases self.pending.len() - i,
        {
            let q = &self.pending[i];
            let hit = q.begin == begin && q.action.same_as(a);
            proof {
                let pre = p.subrange(0, i as int + 1);
                assert(pre.drop_last() =~= p.subrange(0, i as int));
                assert(pre.last() == p[i as int]);
            }
            if hit {
                proof {
                    lemma_first_match_prefix(p, a@, begin, i as int + 1);
                }
                return Some(i);
            }
            i = i + 1;
        }
        proof {
            assert(p.subrange(0, p.len() as int) =~= p);
        }
        None
    }

    /// Whether `a` has been released already.
    fn released_before(&self, a: &Action) -> (r: bool)
        ensures
            r == self.history_v().contains(a@),
    {
        let mut i: usize = 0;
        while i < self.history.len()
            invariant
                i <= self.history.len(),
                forall|k: int| 0 <= k < i ==> self.history_v()[k] != a@,
            decreases self.history.len() - i,
        {
            if self.history[i].same_as(a) {
                proof {
                    assert(self.history_v()[i as int] == a@);
                }
                return true;
            }
            i = i + 1;
        }
        false
    }

    /// Takes a request in. The End of an action that is released on its Begin
    /// alone, and has been released, is acknowledged at once and handed back;
    /// any other request waits.
    pub fn receive(&mut self, req: ActionReq) -> (r: Option<ActionReq>)
        requires
            old(self).wf(),
        ensures
            final(self).wf(),
            final(self).trace_v() == old(self).trace_v(),
            final(self).cursor_v() == old(self).cursor_v(),
            final(self).history_v() == old(self).history_v(),
            final(self).option_v() == old(self).option_v(),
            acked_at_once(old(self).option_v(), old(self).history_v(), req@) ==> (r matches Some(x)
                && x@ == req@) && final(self).pending_v() == old(self).pending_v(),
            !acked_at_once(old(self).option_v(), old(self).history_v(), req@) ==> r is None
                && final(self).pending_v() == old(self).pending_v().push(req@),
    {
        let both = self.option.wait_both_begin_and_end_action || (self.option.sequential_output_action
            && req.action.action_type == ActionType::Output);
        if !req.begin && !both && self.released_before(&req.action) {
            return Some(req);
        }
        let ghost before = self.pending@;
        self.pending.push(req);
        proof {
            assert(self.pending_v() =~= reqs_view(before).push(req@));
        }
        None
    }

    /// Releases the next action of the trace if the requests it needs are
    /// pending: the first pending Begin for it, and the first pending End too,
    /// which must be there where both brackets are needed. Hands back the released requests, which
    /// the caller acknowledges.
    pub fn try_release(&mut self) -> (r: Option<Vec<ActionReq>>)
        requires
            old(self).wf(),
        ensures
            final(self).wf(),
            final(self).trace_v() == old(self).trace_v(),
            final(self).option_v() == old(self).option_v(),
            r is Some <==> old(self).releasable(),
            match r {
                None => final(self).cursor_v() == old(self).cursor_v()
                    && final(self).pending_v() == old(self).pending_v()
                    && final(self).history_v() == old(self).history_v(),
                Some(rs) => {
                    let a = old(self).trace_v()[old(self).cursor_v() as int];
                    let p = old(self).pending_v();
                    &&& final(self).cursor_v() == old(self).cursor_v() + 1
                    &&& final(self).history_v() == old(self).history_v().push(a)
                    &&& rs.len() == if takes_end(old(self).option_v(), p, a) { 2int } else { 1int }
                    &&& rs@[0]@ == p[first_match(p, a, true)]
                    &&& takes_end(old(self).option_v(), p, a) ==> rs@[1]@ == p[first_match(p, a, false)]
                    &&& final(self).pending_v() == remaining(p, a, takes_end(old(self).option_v(), p, a))
                    &&& p.to_multiset() == final(self).pending_v().to_multiset().add(
                        reqs_view(rs@).to_multiset(),
                    )
                },
            },
    {
        if self.cursor >= self.trace.len() {
            return None;
        }
        let ghost a = self.trace_v()[self.cursor as int];
        let ghost p = self.pending_v();
        let ghost old_pending = self.pending@;
        proof {
            assert(self.trace@[self.cursor as int]@ == a);
            lemma_first_match_range(p, a, true);
            lemma_first_match_range(p, a, false);
        }
        let ib = match self.find_first(&self.trace[self.cursor], true) {
            Some(i) => i,
            None => {
                return None;
            },
        };
        let both = self.option.wait_both_begin_and_end_action || (self.option.sequential_output_action
            && self.trace[self.cursor].action_type == ActionType::Output);
        let mut out: Vec<ActionReq> = Vec::new();
        let ie_opt = self.find_first(&self.trace[self.cursor], false);
        if both && ie_opt.is_none() {
            return None;
        }
        if ie_opt.is_some() {
            let ie = ie_opt.unwrap();
            if ib < ie {
                let e = self.pending.remove(ie);
                proof {
                    lemma_reqs_remove(old_pending, ie as int);
                }
                let ghost mid = self.pending@;
                let b = self.pending.remove(ib);
                proof {
                    lemma_reqs_remove(mid, ib as int);
                }
                out.push(b);
                out.push(e);
            } else {
                let b = self.pending.remove(ib);
                proof {
                    lemma_reqs_remove(old_pending, ib as int);
                }
                let ghost mid = self.pending@;
                let e = self.pending.remove(ie);
                proof {
                    lemma_reqs_remove(mid, ie as int);
                }
                out.push(b);
                out.push(e);
            }
            proof {
                assert(reqs_view(out@) =~= seq![out@[0]@, out@[1]@]);
                assert(seq![out@[0]@, out@[1]@] =~= seq![out@[0]@].push(out@[1]@));
                assert(seq![out@[0]@] =~= Seq::<ReqV>::empty().push(out@[0]@));
                assert(p.to_multiset() =~= self.pending_v().to_multiset().add(reqs_view(out@).to_multiset()));
            }
        } else {
            let b = self.pending.remove(ib);
            proof {
                lemma_reqs_remove(old_pending, ib as int);
            }
            out.push(b);
            proof {
                assert(reqs_view(out@) =~= Seq::<ReqV>::empty().push(out@[0]@));
                assert(p.to_multiset() =~= self.pending_v().to_multiset().add(reqs_view(out@).to_multiset()));
            }
        }
        let ghost old_history = self.history@;
        let c = self.trace[self.cursor].copy();
        self.history.push(c);
        self.cursor = self.cursor + 1;
        proof {
            assert(self.history_v() =~= actions_view(old_history).push(a));
            assert(self.trace_v().subrange(0, self.cursor as int) =~= self.trace_v().subrange(
                0,
                self.cursor - 1,
            ).push(a));
        }
        Some(out)
    }

    /// Whether the observed history equals the reference trace, element by element.
    pub fn history_matches(&self) -> (r: bool)
        ensures
            r == (self.history_v() == self.trace_v()),
    {
        if self.history.len() != self.trace.len() {
            proof {
                assert(self.history_v().len() != self.trace_v().len());
            }
            return false;
        }
        let mut i: usize = 0;
        while i < self.history.len()
            invariant
                i <= self.history.len(),
                self.history.len() == self.trace.len(),
                forall|k: int| 0 <= k < i ==> self.history@[k]@ == self.trace@[k]@,
            decreases self.history.len() - i,
        {
            if !self.history[i].same_as(&self.trace[i]) {
                proof {
                    assert(self.history_v()[i as int] != self.trace_v()[i as int]);
                }
                return false;
            }
            i = i + 1;
        }
        proof {
            assert(self.history_v() =~= self.trace_v());
        }
        true
    }
}

} // verus!
