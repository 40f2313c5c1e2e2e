use sedeve_dtm::action::{Action, ActionBeginEnd, ActionType};
use sedeve_dtm::driver::{check_response, make_ack, make_request, new_request, request_id, MessageControl};
use sedeve_dtm::error::DtmError;
use sedeve_dtm::incoming::ActionIncoming;
use sedeve_dtm::json::Json;
use sedeve_dtm::player::{ActionReq, Player, TestOption};

fn act(t: ActionType, src: u64, dst: u64, payload: Json) -> Action {
    Action::new(t, src, dst, payload)
}

fn s(x: &str) -> Json {
    Json::Str(x.to_string())
}

fn n(x: &str) -> Json {
    Json::Number(x.to_string())
}

fn req(id: &str, a: Action, begin: bool) -> ActionReq {
    ActionReq { id: id.to_string(), action: a, begin }
}

fn opts(both: bool, seq_out: bool) -> TestOption {
    TestOption { wait_both_begin_and_end_action: both, sequential_output_action: seq_out, seconds_wait_message_timeout: 1 }
}

fn ids(rs: &[ActionReq]) -> Vec<String> {
    rs.iter().map(|r| r.id.clone()).collect()
}

#[test]
fn single_input_release() {
    let a = || act(ActionType::Input, 1, 1, s("x"));
    let mut p = Player::new(vec![a()], TestOption::default_options());
    assert!(p.receive(req("b", a(), true)).is_none());
    let rs = p.try_release().unwrap();
    assert_eq!(ids(&rs), vec!["b".to_string()]);
    let end = p.receive(req("e", a(), false)).unwrap();
    assert_eq!(end.id, "e");
    assert!(p.try_release().is_none());
    assert!(p.is_done());
    assert!(p.history_matches());
    assert_eq!(p.on_timeout(), Ok(()));
}

#[test]
fn reorder_tolerance() {
    let a = |v: &str| act(ActionType::Internal, 1, 1, n(v));
    let mut p = Player::new(vec![a("1"), a("2")], opts(false, false));
    assert!(p.receive(req("b2", a("2"), true)).is_none());
    assert!(p.try_release().is_none());
    assert!(p.receive(req("b1", a("1"), true)).is_none());
    assert_eq!(ids(&p.try_release().unwrap()), vec!["b1".to_string()]);
    assert_eq!(ids(&p.try_release().unwrap()), vec!["b2".to_string()]);
    assert!(p.try_release().is_none());
    assert!(p.is_done());
    assert!(p.history_matches());
}

#[test]
fn strict_bracketing() {
    let a = |v: &str| act(ActionType::Internal, 1, 1, n(v));
    let mut p = Player::new(vec![a("1"), a("2")], opts(true, false));
    assert!(p.receive(req("b1", a("1"), true)).is_none());
    assert!(p.try_release().is_none());
    assert!(p.receive(req("e1", a("1"), false)).is_none());
    assert_eq!(ids(&p.try_release().unwrap()), vec!["b1".to_string(), "e1".to_string()]);
    assert!(p.receive(req("b2", a("2"), true)).is_none());
    assert!(p.try_release().is_none());
    assert!(p.receive(req("e2", a("2"), false)).is_none());
    assert_eq!(ids(&p.try_release().unwrap()), vec!["b2".to_string(), "e2".to_string()]);
    assert!(p.is_done());
    assert!(p.history_matches());
}

#[test]
fn sequential_outputs() {
    let o = |v: &str| act(ActionType::Output, 1, 0, s(v));
    let mut p = Player::new(vec![o("A"), o("B")], opts(false, true));
    assert!(p.receive(req("bA", o("A"), true)).is_none());
    assert!(p.receive(req("bB", o("B"), true)).is_none());
    assert!(p.receive(req("eB", o("B"), false)).is_none());
    assert!(p.try_release().is_none());
    assert!(p.receive(req("eA", o("A"), false)).is_none());
    assert_eq!(ids(&p.try_release().unwrap()), vec!["bA".to_string(), "eA".to_string()]);
    assert_eq!(ids(&p.try_release().unwrap()), vec!["bB".to_string(), "eB".to_string()]);
    assert!(p.is_done());
    assert!(p.history_matches());
}

#[test]
fn mismatch_detected() {
    let mut p = Player::new(vec![act(ActionType::Input, 1, 1, s("x"))], opts(false, false));
    assert!(p.receive(req("b", act(ActionType::Input, 1, 1, s("y")), true)).is_none());
    assert!(p.try_release().is_none());
    assert_eq!(p.on_timeout(), Err(DtmError::Mismatch));
    assert!(p.expected().unwrap().same_as(&act(ActionType::Input, 1, 1, s("x"))));
    let pending = p.pending_actions();
    assert_eq!(pending.len(), 1);
    assert!(pending[0].same_as(&act(ActionType::Input, 1, 1, s("y"))));
    assert!(!p.is_done());
    assert!(!p.history_matches());
}

#[test]
fn repeated_action_served_first_come_first_served() {
    let a = || act(ActionType::Internal, 2, 3, n("7"));
    let mut p = Player::new(vec![a(), a()], opts(false, false));
    assert!(p.receive(req("first", a(), true)).is_none());
    assert!(p.receive(req("second", a(), true)).is_none());
    assert_eq!(ids(&p.try_release().unwrap()), vec!["first".to_string()]);
    assert_eq!(ids(&p.try_release().unwrap()), vec!["second".to_string()]);
    assert!(p.is_done());
}

#[test]
fn empty_trace_is_done() {
    let mut p = Player::new(vec![], opts(false, false));
    assert!(p.is_done());
    assert!(p.expected().is_none());
    assert!(p.try_release().is_none());
    assert!(p.history_matches());
}

/// Three nodes run a deterministic schedule of internal and output actions
/// against the player, which checks the history at the end.
fn run_nodes(enable_check: bool) {
    let mut trace = vec![];
    for tx in 0..4u64 {
        for node in 1..=3u64 {
            trace.push(act(ActionType::Internal, node, node, n(&(tx * 10 + node).to_string())));
        }
        trace.push(act(ActionType::Output, 1, 0, n(&tx.to_string())));
    }
    let copy: Vec<Action> = trace.iter().map(|a| a.copy()).collect();
    let mut p = Player::new(trace, opts(false, true));
    // nodes send their requests in reverse order of the trace
    let mut acked = 0usize;
    let mut sent = 0usize;
    for (i, a) in copy.iter().enumerate().rev() {
        if p.receive(req(&format!("b{}", i), a.copy(), true)).is_some() {
            acked += 1;
        }
        sent += 1;
        if p.receive(req(&format!("e{}", i), a.copy(), false)).is_some() {
            acked += 1;
        }
        sent += 1;
    }
    while let Some(rs) = p.try_release() {
        acked += rs.len();
    }
    assert_eq!(acked, sent);
    assert!(p.is_done());
    if enable_check {
        assert!(p.history_matches());
    }
}

#[test]
fn test_dtm_player_check_all() {
    run_nodes(true);
}

#[test]
fn test_dtm_player_no_check() {
    run_nodes(false);
}

#[test]
fn driver_request_and_ack() {
    let a = act(ActionType::Input, 1, 2, s("x"));
    let m = make_request(a.copy(), ActionBeginEnd::Begin, "id-1".to_string());
    match &m {
        MessageControl::ActionReq { id, action, begin } => {
            assert_eq!(id, "id-1");
            assert!(action.same_as(&a));
            assert!(*begin);
        }
        _ => panic!("expected a request"),
    }
    let id = request_id(&m).unwrap();
    assert_eq!(check_response(&id, &make_ack(&id)), Ok(()));
    assert_eq!(check_response(&id, &make_ack(&"other".to_string())), Err(DtmError::InvariantViolation));
    assert_eq!(check_response(&id, &MessageControl::Stop), Err(DtmError::InvariantViolation));
    assert!(request_id(&MessageControl::Stop).is_none());
}

#[test]
fn driver_fresh_ids() {
    let a = act(ActionType::Output, 1, 0, s("x"));
    let m1 = new_request(a.copy(), ActionBeginEnd::End);
    let m2 = new_request(a.copy(), ActionBeginEnd::End);
    let i1 = request_id(&m1).unwrap();
    let i2 = request_id(&m2).unwrap();
    assert_eq!(i1.len(), 36);
    for (k, c) in i1.chars().enumerate() {
        if k == 8 || k == 13 || k == 18 || k == 23 {
            assert_eq!(c, '-');
        } else {
            assert!(c.is_ascii_digit() || ('a'..='f').contains(&c));
        }
    }
    assert_ne!(i1, i2);
    match m1 {
        MessageControl::ActionReq { begin, .. } => assert!(!begin),
        _ => panic!("expected a request"),
    }
}

#[test]
fn incoming_hands_out_trace_then_ends() {
    let mut inc = ActionIncoming::new(vec![act(ActionType::Input, 1, 1, s("a")), act(ActionType::Output, 1, 0, s("b"))]);
    assert!(inc.next().unwrap().same_as(&act(ActionType::Input, 1, 1, s("a"))));
    assert!(inc.next().unwrap().same_as(&act(ActionType::Output, 1, 0, s("b"))));
    assert!(inc.next().is_none());
    assert!(inc.next().is_none());
    assert_eq!(inc.trace_text(), "Input 1->1 \"a\"\nOutput 1->0 \"b\"\n");
}

#[test]
fn trace_text_renders_values() {
    let payload = Json::Object(vec![
        ("k".to_string(), Json::Array(vec![n("12"), Json::Bool(true), Json::Null])),
        ("m".to_string(), Json::Object(vec![])),
    ]);
    let inc = ActionIncoming::new(vec![act(ActionType::Internal, 10, 205, payload)]);
    assert_eq!(inc.trace_text(), "Internal 10->205 {\"k\":[12,true,null],\"m\":{}}\n");
    assert_eq!(ActionIncoming::new(vec![]).trace_text(), "");
}

#[test]
fn end_of_unreleased_action_waits() {
    let x = || act(ActionType::Input, 1, 1, s("x"));
    let y = || act(ActionType::Input, 1, 1, s("y"));
    let mut p = Player::new(vec![x()], opts(false, false));
    assert!(p.receive(req("ey", y(), false)).is_none());
    assert!(p.try_release().is_none());
    assert_eq!(p.on_timeout(), Err(DtmError::Mismatch));
    assert!(p.receive(req("ex", x(), false)).is_none());
    assert!(p.try_release().is_none());
    assert!(p.receive(req("bx", x(), true)).is_none());
    assert_eq!(ids(&p.try_release().unwrap()), vec!["bx".to_string(), "ex".to_string()]);
    assert_eq!(p.pending_actions().len(), 1);
    assert!(p.is_done());
}
