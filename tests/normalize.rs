use sedeve_dtm::action::{Action, ActionType};
use sedeve_dtm::canon::canonical_list;
use sedeve_dtm::error::DtmError;
use sedeve_dtm::json::{compare, compare_text, Json};
use sedeve_dtm::kind;
use sedeve_dtm::normalize::{find_field, get_typed_value, parse_kind};

fn num(s: &str) -> Json {
    Json::Number(s.to_string())
}

fn st(s: &str) -> Json {
    Json::Str(s.to_string())
}

fn obj(fields: Vec<(&str, Json)>) -> Json {
    Json::Object(fields.into_iter().map(|(k, v)| (k.to_string(), v)).collect())
}

fn typed(k: u32, object: Json) -> Json {
    obj(vec![("kind", num(&k.to_string())), ("object", object)])
}

fn same(a: &Json, b: &Json) -> bool {
    compare(a, b) == 0
}

fn no_dict() -> Vec<(String, Json)> {
    Vec::new()
}

#[test]
fn constant_substitution() {
    let dict = vec![("N1".to_string(), num("1"))];
    let v = typed(kind::STRING_VALUE, st("N1"));
    let r = get_typed_value(&v, &dict).unwrap();
    assert!(same(&r, &num("1")));
    let from_trace = Action::new(ActionType::Input, 1, 1, r);
    let from_node = Action::new(ActionType::Input, 1, 1, num("1"));
    assert!(from_trace.same_as(&from_node));
    let other = Action::new(ActionType::Input, 1, 1, num("2"));
    assert!(!from_trace.same_as(&other));
}

#[test]
fn model_value_without_entry_stays_a_name() {
    let dict = vec![("N1".to_string(), num("1"))];
    let v = typed(kind::MODEL_VALUE, st("N2"));
    let r = get_typed_value(&v, &dict).unwrap();
    assert!(same(&r, &st("N2")));
}

#[test]
fn plain_kinds_are_verbatim() {
    let r = get_typed_value(&typed(kind::INT_VALUE, num("42")), &no_dict()).unwrap();
    assert!(same(&r, &num("42")));
    let r = get_typed_value(&typed(kind::BOOL_VALUE, Json::Bool(true)), &no_dict()).unwrap();
    assert!(same(&r, &Json::Bool(true)));
    let r = get_typed_value(&typed(kind::REAL_VALUE, num("1.5")), &no_dict()).unwrap();
    assert!(same(&r, &num("1.5")));
}

#[test]
fn tuple_keeps_order() {
    let v = typed(
        kind::TUPLE_VALUE,
        Json::Array(vec![typed(kind::INT_VALUE, num("2")), typed(kind::INT_VALUE, num("1"))]),
    );
    let r = get_typed_value(&v, &no_dict()).unwrap();
    assert!(same(&r, &Json::Array(vec![num("2"), num("1")])));
}

#[test]
fn set_is_sorted_and_deduplicated() {
    let v = typed(
        kind::SET_ENUM_VALUE,
        Json::Array(vec![
            typed(kind::INT_VALUE, num("3")),
            typed(kind::INT_VALUE, num("1")),
            typed(kind::INT_VALUE, num("3")),
            typed(kind::INT_VALUE, num("2")),
        ]),
    );
    let r = get_typed_value(&v, &no_dict()).unwrap();
    assert!(same(&r, &Json::Array(vec![num("1"), num("2"), num("3")])));
}

#[test]
fn sets_in_any_order_normalise_alike() {
    let a = typed(
        kind::SET_CUP_VALUE,
        Json::Array(vec![typed(kind::STRING_VALUE, st("b")), typed(kind::STRING_VALUE, st("a"))]),
    );
    let b = typed(
        kind::SET_CAP_VALUE,
        Json::Array(vec![
            typed(kind::STRING_VALUE, st("a")),
            typed(kind::STRING_VALUE, st("b")),
            typed(kind::STRING_VALUE, st("a")),
        ]),
    );
    let ra = get_typed_value(&a, &no_dict()).unwrap();
    let rb = get_typed_value(&b, &no_dict()).unwrap();
    assert!(same(&ra, &rb));
    assert!(same(&ra, &Json::Array(vec![st("a"), st("b")])));
}

#[test]
fn empty_set() {
    let r = get_typed_value(&typed(kind::SET_ENUM_VALUE, Json::Array(vec![])), &no_dict()).unwrap();
    assert!(same(&r, &Json::Array(vec![])));
}

#[test]
fn canonical_twice_is_canonical_once() {
    let items = vec![num("5"), st("x"), num("1"), num("5"), Json::Null, Json::Bool(false)];
    let once = canonical_list(&items);
    let twice = canonical_list(&once);
    assert_eq!(once.len(), 5);
    assert_eq!(once.len(), twice.len());
    for i in 0..once.len() {
        assert!(same(&once[i], &twice[i]));
    }
    assert!(matches!(once[0], Json::Null));
}

#[test]
fn record_fields_are_normalised() {
    let dict = vec![("N1".to_string(), num("1"))];
    let v = typed(
        kind::RECORD_VALUE,
        obj(vec![("node", typed(kind::MODEL_VALUE, st("N1"))), ("term", typed(kind::INT_VALUE, num("7")))]),
    );
    let r = get_typed_value(&v, &dict).unwrap();
    assert!(same(&r, &obj(vec![("node", num("1")), ("term", num("7"))])));
}

#[test]
fn function_becomes_sorted_pairs() {
    let entry = |d: &str, v: &str| obj(vec![("domain", typed(kind::INT_VALUE, num(d))), ("value", typed(kind::STRING_VALUE, st(v)))]);
    let v = typed(kind::FCN_RCD_VALUE, obj(vec![("0", entry("2", "b")), ("1", entry("1", "a"))]));
    let r = get_typed_value(&v, &no_dict()).unwrap();
    let expected = Json::Array(vec![
        Json::Array(vec![num("1"), st("a")]),
        Json::Array(vec![num("2"), st("b")]),
    ]);
    assert!(same(&r, &expected));
    let lam = typed(kind::FCN_LAMBDA_VALUE, obj(vec![("0", entry("1", "a")), ("1", entry("2", "b"))]));
    assert!(same(&get_typed_value(&lam, &no_dict()).unwrap(), &expected));
}

#[test]
fn unknown_kind_is_malformed() {
    let r = get_typed_value(&typed(99, num("1")), &no_dict());
    assert_eq!(r.unwrap_err(), DtmError::MalformedValue);
    let wide = obj(vec![("kind", num("4294967296")), ("object", num("1"))]);
    assert_eq!(get_typed_value(&wide, &no_dict()).unwrap_err(), DtmError::MalformedValue);
}

#[test]
fn missing_kind_or_object_is_malformed() {
    let no_kind = obj(vec![("object", num("1"))]);
    assert_eq!(get_typed_value(&no_kind, &no_dict()).unwrap_err(), DtmError::MalformedValue);
    let no_object = obj(vec![("kind", num("1"))]);
    assert_eq!(get_typed_value(&no_object, &no_dict()).unwrap_err(), DtmError::MalformedValue);
    assert_eq!(get_typed_value(&num("1"), &no_dict()).unwrap_err(), DtmError::MalformedValue);
}

#[test]
fn wrong_container_is_malformed() {
    let r = get_typed_value(&typed(kind::TUPLE_VALUE, num("1")), &no_dict());
    assert_eq!(r.unwrap_err(), DtmError::MalformedValue);
    let r = get_typed_value(&typed(kind::RECORD_VALUE, Json::Array(vec![])), &no_dict());
    assert_eq!(r.unwrap_err(), DtmError::MalformedValue);
    let r = get_typed_value(&typed(kind::STRING_VALUE, num("1")), &no_dict());
    assert_eq!(r.unwrap_err(), DtmError::MalformedValue);
    let bad_entry = typed(kind::FCN_RCD_VALUE, obj(vec![("0", obj(vec![("domain", typed(kind::INT_VALUE, num("1")))]))]));
    assert_eq!(get_typed_value(&bad_entry, &no_dict()).unwrap_err(), DtmError::MalformedValue);
}

#[test]
fn nested_error_is_reported() {
    let v = typed(kind::TUPLE_VALUE, Json::Array(vec![typed(kind::INT_VALUE, num("1")), num("2")]));
    assert_eq!(get_typed_value(&v, &no_dict()).unwrap_err(), DtmError::MalformedValue);
}

#[test]
fn kind_tags_are_read() {
    assert_eq!(parse_kind(&num("8")), Some(8));
    assert_eq!(parse_kind(&num("4294967295")), Some(u32::MAX));
    assert_eq!(parse_kind(&num("4294967296")), None);
    assert_eq!(parse_kind(&num("4294967297")), None);
    assert_eq!(parse_kind(&num("18446744073709551615")), None);
    assert_eq!(parse_kind(&num("18446744073709551616")), None);
    assert_eq!(parse_kind(&num("-1")), None);
    assert_eq!(parse_kind(&num("1.0")), None);
    assert_eq!(parse_kind(&num("")), None);
    assert_eq!(parse_kind(&st("1")), None);
}

#[test]
fn first_field_is_found() {
    let fs = vec![("a".to_string(), num("1")), ("b".to_string(), num("2")), ("a".to_string(), num("3"))];
    assert_eq!(find_field(&fs, &"a".to_string()), Some(0));
    assert_eq!(find_field(&fs, &"b".to_string()), Some(1));
    assert_eq!(find_field(&fs, &"c".to_string()), None);
}

#[test]
fn order_of_values() {
    assert_eq!(compare(&Json::Null, &Json::Bool(false)), -1);
    assert_eq!(compare(&Json::Bool(true), &Json::Bool(false)), 1);
    assert_eq!(compare(&num("10"), &num("9")), -1);
    assert_eq!(compare(&st("b"), &num("1")), 1);
    assert_eq!(compare(&Json::Array(vec![num("1")]), &Json::Array(vec![num("1"), num("0")])), -1);
    assert_eq!(compare(&obj(vec![("a", num("1"))]), &obj(vec![("a", num("1"))])), 0);
    assert_eq!(compare(&obj(vec![("a", num("2"))]), &obj(vec![("b", num("1"))])), -1);
    assert_eq!(compare_text(&"é".to_string(), &"z".to_string()), 1);
}

#[test]
fn deep_clone_copies() {
    let v = obj(vec![("a", Json::Array(vec![num("1"), st("x")]))]);
    let c = v.deep_clone();
    assert!(same(&v, &c));
}

#[test]
fn record_fields_in_any_order_normalise_alike() {
    let r1 = typed(kind::RECORD_VALUE, obj(vec![("b", typed(kind::INT_VALUE, num("2"))), ("a", typed(kind::INT_VALUE, num("1")))]));
    let r2 = typed(kind::RECORD_VALUE, obj(vec![("a", typed(kind::INT_VALUE, num("1"))), ("b", typed(kind::INT_VALUE, num("2")))]));
    let n1 = get_typed_value(&r1, &no_dict()).unwrap();
    let n2 = get_typed_value(&r2, &no_dict()).unwrap();
    assert!(same(&n1, &n2));
    assert!(same(&n1, &obj(vec![("a", num("1")), ("b", num("2"))])));
}

#[test]
fn record_with_repeated_name_is_malformed() {
    let r = typed(kind::RECORD_VALUE, obj(vec![("a", typed(kind::INT_VALUE, num("1"))), ("a", typed(kind::INT_VALUE, num("2")))]));
    assert_eq!(get_typed_value(&r, &no_dict()).unwrap_err(), DtmError::MalformedValue);
}

#[test]
fn set_of_records_in_any_field_order() {
    let rec = |x: &str, y: &str| {
        typed(kind::RECORD_VALUE, obj(vec![(x, typed(kind::INT_VALUE, num("1"))), (y, typed(kind::INT_VALUE, num("2")))]))
    };
    let rec_rev = |x: &str, y: &str| {
        typed(kind::RECORD_VALUE, obj(vec![(y, typed(kind::INT_VALUE, num("2"))), (x, typed(kind::INT_VALUE, num("1")))]))
    };
    let s1 = typed(kind::SET_OF_RCDS_VALUE, Json::Array(vec![rec("a", "b"), rec_rev("a", "b")]));
    let r = get_typed_value(&s1, &no_dict()).unwrap();
    assert!(same(&r, &Json::Array(vec![obj(vec![("a", num("1")), ("b", num("2"))])])));
}

#[test]
fn function_entries_under_any_names() {
    let entry = |d: &str, v: &str| obj(vec![("domain", typed(kind::INT_VALUE, num(d))), ("value", typed(kind::INT_VALUE, num(v)))]);
    let f1 = typed(kind::FCN_RCD_VALUE, obj(vec![("x", entry("1", "5")), ("y", entry("2", "6"))]));
    let f2 = typed(kind::FCN_RCD_VALUE, obj(vec![("p", entry("2", "6")), ("q", entry("1", "5")), ("r", entry("1", "5"))]));
    assert!(same(&get_typed_value(&f1, &no_dict()).unwrap(), &get_typed_value(&f2, &no_dict()).unwrap()));
}
