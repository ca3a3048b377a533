use inox2d::json_data::{
    has_fitting_digit_runs, is_canonical, json_lower, json_raise, Json, MAX_DIGIT_RUN,
};

fn number(positive: bool, mantissa: u64, exponent: i16) -> Json {
    Json::Number { positive, mantissa, exponent }
}

#[test]
fn json_lower_copies_every_variant() {
    let text = r#"{"n": null, "t": true, "f": false, "i": 12, "neg": -7, "s": "short",
        "l": "a string that is too long for the short form of the crate",
        "a": [1, [], {}, "x"], "o": {"k": {"deep": [null]}}}"#;
    let value = json::parse(text).unwrap();
    let expected = Json::Object(vec![
        ("n".to_string(), Json::Null),
        ("t".to_string(), Json::Boolean(true)),
        ("f".to_string(), Json::Boolean(false)),
        ("i".to_string(), number(true, 12, 0)),
        ("neg".to_string(), number(false, 7, 0)),
        ("s".to_string(), Json::Text("short".to_string())),
        (
            "l".to_string(),
            Json::Text("a string that is too long for the short form of the crate".to_string()),
        ),
        (
            "a".to_string(),
            Json::Array(vec![
                number(true, 1, 0),
                Json::Array(vec![]),
                Json::Object(vec![]),
                Json::Text("x".to_string()),
            ]),
        ),
        (
            "o".to_string(),
            Json::Object(vec![(
                "k".to_string(),
                Json::Object(vec![("deep".to_string(), Json::Array(vec![Json::Null]))]),
            )]),
        ),
    ]);
    assert_eq!(json_lower(&value), expected);
}

#[test]
fn json_lower_keeps_the_decimal_parts_of_a_number() {
    assert_eq!(json_lower(&json::parse("0.5").unwrap()), number(true, 5, -1));
    assert_eq!(json_lower(&json::parse("-0.25").unwrap()), number(false, 25, -2));
    assert_eq!(json_lower(&json::parse("4294967295").unwrap()), number(true, 4294967295, 0));
    assert_eq!(json_lower(&json::parse("1e3").unwrap()), number(true, 1, 3));
}

#[test]
fn json_lower_tells_a_number_that_is_none() {
    let value = json::JsonValue::Number(json::number::NAN);
    assert_eq!(json_lower(&value), Json::NotANumber);
    assert_eq!(json_raise(&Json::NotANumber).dump(), "null");
    assert_eq!(json_lower(&json_raise(&Json::NotANumber)), Json::NotANumber);
}

#[test]
fn json_raise_gives_back_what_json_lower_took() {
    let json = Json::Object(vec![
        ("uuid".to_string(), number(true, 7, 0)),
        ("zsort".to_string(), number(false, 125, -3)),
        ("name".to_string(), Json::Text("a \"quoted\" name".to_string())),
        (
            "children".to_string(),
            Json::Array(vec![Json::Null, Json::Boolean(false), Json::Object(vec![])]),
        ),
    ]);
    let value = json_raise(&json);
    assert_eq!(json_lower(&value), json);
    assert_eq!(
        value.dump(),
        r#"{"uuid":7,"zsort":-0.125,"name":"a \"quoted\" name","children":[null,false,{}]}"#
    );
    assert_eq!(json_lower(&json::parse(&value.dump()).unwrap()), json);
}

#[test]
fn digit_runs_are_measured_between_other_bytes() {
    assert!(has_fitting_digit_runs(b""));
    assert!(has_fitting_digit_runs(b"no digits at all"));
    let longest = "1".repeat(MAX_DIGIT_RUN);
    assert!(has_fitting_digit_runs(longest.as_bytes()));
    assert!(has_fitting_digit_runs(format!("{longest}.{longest}e{longest}").as_bytes()));
    let too_long = "0".repeat(MAX_DIGIT_RUN + 1);
    assert!(!has_fitting_digit_runs(too_long.as_bytes()));
    assert!(!has_fitting_digit_runs(format!("x{too_long}").as_bytes()));
    assert!(!has_fitting_digit_runs(format!("{longest}.{too_long}y").as_bytes()));
    assert!(has_fitting_digit_runs(format!("{longest}/{longest}:{longest}").as_bytes()));
}

#[test]
fn is_canonical_tells_what_the_crate_would_change() {
    assert!(is_canonical(&Json::Null));
    assert!(is_canonical(&Json::NotANumber));
    assert!(is_canonical(&number(true, 10, 0)));
    assert!(is_canonical(&number(true, 10, 3)));
    assert!(is_canonical(&number(false, 125, -3)));
    assert!(!is_canonical(&number(true, 10, -1)));
    assert!(!is_canonical(&number(true, 0, -6)));
    assert!(is_canonical(&Json::Array(vec![number(true, 1, -1), Json::Array(vec![])])));
    assert!(!is_canonical(&Json::Array(vec![Json::Null, number(true, 20, -2)])));
    let object = |first: &str, second: &str, value: Json| {
        Json::Object(vec![(first.to_string(), Json::Null), (second.to_string(), value)])
    };
    assert!(is_canonical(&object("a", "b", Json::Null)));
    assert!(!is_canonical(&object("a", "a", Json::Null)));
    assert!(!is_canonical(&object("a", "b", number(true, 100, -2))));
    assert!(!is_canonical(&Json::Array(vec![object("k", "k", Json::Null)])));
}
