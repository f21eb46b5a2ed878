use csvs::select::strategy::{
    edge_filename, gather_keys, plan_options, plan_query, plan_select, plan_select_schema, plan_values,
};
use csvs::{Branch, Entry, Leaves, Schema, Tablet, Trunks};

fn names(list: &[&str]) -> Vec<String> {
    list.iter().map(|s| (*s).to_owned()).collect()
}

fn branch(trunks: &[&str], leaves: &[&str]) -> Branch {
    Branch { trunks: Trunks(names(trunks)), leaves: Leaves(names(leaves)) }
}

fn schema() -> Schema {
    Schema(vec![
        ("datum".to_owned(), branch(&["set"], &["date", "name"])),
        ("date".to_owned(), branch(&["datum"], &[])),
        ("name".to_owned(), branch(&["datum"], &["lang"])),
        ("lang".to_owned(), branch(&["name"], &[])),
        ("set".to_owned(), branch(&[], &["datum"])),
    ])
}

fn node(base: &str, value: Option<&str>, leaves: Vec<(&str, Vec<Entry>)>) -> Entry {
    Entry {
        base: base.to_owned(),
        base_value: value.map(|v| v.to_owned()),
        leader_value: None,
        leaves: leaves.into_iter().map(|(k, v)| (k.to_owned(), v)).collect(),
    }
}

fn flags(t: &Tablet) -> String {
    let mut out = String::new();
    for (on, letter) in [
        (t.thing_is_first, 'T'),
        (t.trait_is_first, 't'),
        (t.trait_is_regex, 'r'),
        (t.passthrough, 'p'),
        (t.querying, 'q'),
        (t.eager, 'e'),
        (t.accumulating, 'a'),
    ] {
        if on {
            out.push(letter);
        }
    }
    out
}

fn show(plan: &[Tablet]) -> Vec<String> {
    plan.iter()
        .map(|t| format!("{} thing={} trait={} base={} {}", t.filename, t.thing, t.trait_, t.base, flags(t)))
        .collect()
}

#[test]
fn edge_filename_joins_the_names() {
    assert_eq!(edge_filename("datum", "name"), "datum-name.csv");
    assert_eq!(edge_filename("", ""), "-.csv");
}

#[test]
fn plan_select_schema_is_one_step() {
    let plan = plan_select_schema(&node("_", Some("_"), vec![]));
    assert_eq!(show(&plan), vec!["_-_.csv thing=_ trait=_ base=_ t"]);
}

#[test]
fn gather_keys_names_every_attribute() {
    let query = node(
        "datum",
        Some("date"),
        vec![
            ("name", vec![node("name", Some("n1"), vec![("lang", vec![node("lang", Some("en"), vec![])])])]),
            ("date", vec![node("date", Some("2001"), vec![])]),
            ("file", vec![node("file", None, vec![]), node("file", None, vec![("hash", vec![])])]),
        ],
    );
    assert_eq!(gather_keys(&query), names(&["name", "lang", "file", "hash"]));
    assert_eq!(gather_keys(&node("datum", None, vec![])), Vec::<String>::new());
}

#[test]
fn plan_query_starts_with_the_deepest_attribute() {
    let query = node(
        "datum",
        None,
        vec![
            ("date", vec![node("date", Some("2001"), vec![])]),
            ("name", vec![node("name", None, vec![("lang", vec![node("lang", Some("en"), vec![])])])]),
        ],
    );
    assert_eq!(
        show(&plan_query(&schema(), &query)),
        vec![
            "name-lang.csv thing=name trait=lang base=name Trqe",
            "datum-name.csv thing=datum trait=name base=datum Trqe",
            "datum-date.csv thing=datum trait=date base=datum Trqe",
        ]
    );
}

#[test]
fn plan_options_lists_leaves_then_trunks() {
    assert_eq!(
        show(&plan_options(&schema(), "datum")),
        vec![
            "datum-date.csv thing=datum trait=datum base=datum Ttrea",
            "datum-name.csv thing=datum trait=datum base=datum Ttrea",
            "set-datum.csv thing=datum trait=set base=set rea",
        ]
    );
    assert!(plan_options(&schema(), "nowhere").is_empty());
}

#[test]
fn plan_values_goes_down_from_the_base() {
    assert_eq!(
        show(&plan_values(&schema(), &node("datum", None, vec![]))),
        vec![
            "datum-date.csv thing=date trait=datum base=datum tpe",
            "datum-name.csv thing=name trait=datum base=datum tpe",
            "name-lang.csv thing=lang trait=name base=name tp",
        ]
    );
}

#[test]
fn plan_select_falls_back_to_the_options() {
    let wildcard = node("name", None, vec![]);
    assert_eq!(
        show(&plan_select(&schema(), &wildcard)),
        vec![
            "name-lang.csv thing=name trait=name base=name Ttrea",
            "datum-name.csv thing=name trait=datum base=datum rea",
            "name-lang.csv thing=lang trait=name base=name tpe",
        ]
    );
    let filtered = node("name", None, vec![("lang", vec![node("lang", Some("en"), vec![])])]);
    assert_eq!(
        show(&plan_select(&schema(), &filtered)),
        vec![
            "name-lang.csv thing=name trait=lang base=name Trqe",
            "name-lang.csv thing=lang trait=name base=name tpe",
        ]
    );
}
