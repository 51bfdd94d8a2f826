use tzstats_middleware::json::{find_key, put_entry, Json};
use tzstats_middleware::transform::{hijack, rename_key, KeyRules, RuleMode};

fn num(n: &str) -> Json {
    Json::Number(n.to_string())
}

fn text(s: &str) -> Json {
    Json::String(s.to_string())
}

fn obj(entries: Vec<(&str, Json)>) -> Json {
    Json::Object(entries.into_iter().map(|(k, v)| (k.to_string(), v)).collect())
}

fn keys(j: &Json) -> Vec<String> {
    match j {
        Json::Object(es) => es.iter().map(|(k, _)| k.clone()).collect(),
        _ => panic!("not an object"),
    }
}

#[test]
fn duplicate_adds_fees_beside_fee() {
    let rules = KeyRules::duplicate_fee();
    let out = hijack(obj(vec![("balance", num("100")), ("fee", num("5"))]), &rules);
    assert_eq!(
        out,
        obj(vec![("balance", num("100")), ("fee", num("5")), ("fees", num("5"))])
    );
}

#[test]
fn duplicate_twice_is_the_same_as_once() {
    let rules = KeyRules::duplicate_fee();
    let input = obj(vec![
        ("fee", obj(vec![("fee", num("1"))])),
        ("items", Json::Array(vec![obj(vec![("fee", num("2"))]), Json::Null])),
    ]);
    let once = hijack(input.copy(), &rules);
    let twice = hijack(once.copy(), &rules);
    assert_eq!(once, twice);
    assert_eq!(keys(&once), vec!["fee", "items", "fees"]);
    match &once {
        Json::Object(es) => {
            assert_eq!(es[0].1, obj(vec![("fee", num("1")), ("fees", num("1"))]));
            assert_eq!(es[0].1, es[2].1);
        }
        _ => panic!("not an object"),
    }
}

#[test]
fn duplicate_overwrites_an_existing_fees_in_place() {
    let rules = KeyRules::duplicate_fee();
    let out = hijack(obj(vec![("fees", num("9")), ("fee", num("5"))]), &rules);
    assert_eq!(out, obj(vec![("fees", num("5")), ("fee", num("5"))]));
}

#[test]
fn object_without_fee_is_unchanged() {
    let rules = KeyRules::duplicate_fee();
    let input = obj(vec![("balance", num("1")), ("name", text("fee"))]);
    assert_eq!(hijack(input.copy(), &rules), input);
}

#[test]
fn leaves_are_unchanged() {
    let rules = KeyRules::duplicate_fee();
    assert_eq!(hijack(Json::Null, &rules), Json::Null);
    assert_eq!(hijack(Json::Bool(true), &rules), Json::Bool(true));
    assert_eq!(hijack(num("-1.5e3"), &rules), num("-1.5e3"));
    assert_eq!(hijack(text("fee"), &rules), text("fee"));
}

#[test]
fn arrays_keep_length_and_order() {
    let rules = KeyRules::duplicate_fee();
    let input = Json::Array(vec![
        num("3"),
        obj(vec![("fee", num("1"))]),
        text("x"),
        Json::Array(vec![]),
    ]);
    let out = hijack(input, &rules);
    assert_eq!(
        out,
        Json::Array(vec![
            num("3"),
            obj(vec![("fee", num("1")), ("fees", num("1"))]),
            text("x"),
            Json::Array(vec![]),
        ])
    );
}

#[test]
fn empty_containers_stay_empty() {
    let rules = KeyRules::plural_to_singular();
    assert_eq!(hijack(Json::Array(vec![]), &rules), Json::Array(vec![]));
    assert_eq!(hijack(Json::Object(vec![]), &rules), Json::Object(vec![]));
}

#[test]
fn depth_five_each_level_transformed() {
    let rules = KeyRules::duplicate_fee();
    // depth 1 object, depth 2 array, depth 3 object with fee, depth 4 array, depth 5 object with fee
    let input = obj(vec![
        ("balance", num("7")),
        (
            "list",
            Json::Array(vec![obj(vec![
                ("fee", num("3")),
                ("inner", Json::Array(vec![obj(vec![("fee", num("4"))])])),
            ])]),
        ),
    ]);
    let out = hijack(input, &rules);
    let expected = obj(vec![
        ("balance", num("7")),
        (
            "list",
            Json::Array(vec![obj(vec![
                ("fee", num("3")),
                (
                    "inner",
                    Json::Array(vec![obj(vec![("fee", num("4")), ("fees", num("4"))])]),
                ),
                ("fees", num("3")),
            ])]),
        ),
    ]);
    assert_eq!(out, expected);
    assert_eq!(keys(&out), vec!["balance", "list"]);
}

#[test]
fn rename_rewards_to_reward() {
    let rules = KeyRules::plural_to_singular();
    assert_eq!(
        hijack(obj(vec![("rewards", num("3"))]), &rules),
        obj(vec![("reward", num("3"))])
    );
}

#[test]
fn rename_keeps_unrelated_keys_and_order() {
    let rules = KeyRules::plural_to_singular();
    let input = obj(vec![
        ("a", num("1")),
        ("fees", num("2")),
        ("deposits", Json::Array(vec![obj(vec![("rewards", num("5"))])])),
        ("z", Json::Null),
    ]);
    let out = hijack(input, &rules);
    assert_eq!(
        out,
        obj(vec![
            ("a", num("1")),
            ("fee", num("2")),
            ("deposit", Json::Array(vec![obj(vec![("reward", num("5"))])])),
            ("z", Json::Null),
        ])
    );
}

#[test]
fn rename_to_plural() {
    let rules = KeyRules::singular_to_plural();
    let out = hijack(obj(vec![("fee", num("1")), ("deposit", num("2")), ("x", num("3"))]), &rules);
    assert_eq!(out, obj(vec![("fees", num("1")), ("deposits", num("2")), ("x", num("3"))]));
}

#[test]
fn rename_collision_later_entry_wins_at_first_place() {
    let rules = KeyRules::plural_to_singular();
    let out = hijack(obj(vec![("rewards", num("1")), ("b", num("0")), ("reward", num("2"))]), &rules);
    assert_eq!(out, obj(vec![("reward", num("2")), ("b", num("0"))]));
}

#[test]
fn custom_duplicate_table_applies_pairs_in_order() {
    let rules = KeyRules {
        mode: RuleMode::Duplicate,
        pairs: vec![
            ("a".to_string(), "b".to_string()),
            ("b".to_string(), "c".to_string()),
        ],
    };
    let out = hijack(obj(vec![("a", num("1"))]), &rules);
    assert_eq!(out, obj(vec![("a", num("1")), ("b", num("1")), ("c", num("1"))]));
}

#[test]
fn rename_key_maps_and_passes_through() {
    let rules = KeyRules::plural_to_singular();
    assert_eq!(rename_key("deposits".to_string(), &rules.pairs), "deposit");
    assert_eq!(rename_key("balance".to_string(), &rules.pairs), "balance");
}

#[test]
fn find_and_put_entries() {
    let mut es: Vec<(String, Json)> = vec![("x".to_string(), num("1"))];
    assert_eq!(find_key(&es, &"x".to_string()), Some(0));
    assert_eq!(find_key(&es, &"y".to_string()), None);
    put_entry(&mut es, "y".to_string(), num("2"));
    put_entry(&mut es, "x".to_string(), num("3"));
    assert_eq!(Json::Object(es), obj(vec![("x", num("3")), ("y", num("2"))]));
}

#[test]
fn copy_is_equal() {
    let input = obj(vec![("a", Json::Array(vec![num("1"), text("s"), Json::Bool(false)]))]);
    assert_eq!(input.copy(), input);
}
