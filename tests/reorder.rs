use sedeve_dtm::action::{Action, ActionType};
use sedeve_dtm::error::DtmError;
use sedeve_dtm::json::Json;
use sedeve_dtm::reorder::ActionReorder;

fn act(payload: &str) -> Action {
    Action::new(ActionType::Internal, 1, 2, Json::Str(payload.to_string()))
}

#[test]
fn delivered_action_is_the_awaited_one() {
    let mut r = ActionReorder::new(3);
    assert_eq!(r.seconds_timeout(), 3);
    let a = act("a");
    r.begin_wait(&a).unwrap();
    assert!(r.take_arrived(&a).is_none());
    r.add_action(&a).unwrap();
    let got = r.take_arrived(&a).unwrap();
    assert!(got.same_as(&a));
}

#[test]
fn add_before_wait() {
    let mut r = ActionReorder::new(1);
    let a = act("a");
    r.add_action(&a).unwrap();
    r.begin_wait(&a).unwrap();
    assert!(r.take_arrived(&a).unwrap().same_as(&a));
    assert!(r.take_arrived(&a).is_none());
}

#[test]
fn second_add_into_full_slot_is_refused() {
    let mut r = ActionReorder::new(1);
    let a = act("a");
    r.add_action(&a).unwrap();
    assert_eq!(r.add_action(&a), Err(DtmError::InvariantViolation));
    assert!(r.take_arrived(&a).is_some());
    r.add_action(&a).unwrap();
}

#[test]
fn actions_do_not_cross() {
    let mut r = ActionReorder::new(1);
    let a = act("a");
    let b = act("b");
    r.begin_wait(&a).unwrap();
    r.add_action(&b).unwrap();
    assert!(r.take_arrived(&a).is_none());
    assert!(r.take_arrived(&b).unwrap().same_as(&b));
}

#[test]
fn cancelled_wait_leaves_delivery_for_next_waiter() {
    let mut r = ActionReorder::new(1);
    let a = act("a");
    r.begin_wait(&a).unwrap();
    r.cancel_wait(&a);
    r.add_action(&a).unwrap();
    r.begin_wait(&a).unwrap();
    assert!(r.take_arrived(&a).unwrap().same_as(&a));
}
