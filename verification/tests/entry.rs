use csvs::entry::mow::mow;
use csvs::entry::sow::sow;
use csvs::{Entry, Error, Grain, IntoValue, Value};

fn text(s: &str) -> Value {
    Value::String(s.to_owned())
}

fn object(members: Vec<(&str, Value)>) -> Value {
    Value::Object(members.into_iter().map(|(k, v)| (k.to_owned(), v)).collect())
}

fn leaf(base: &str, value: &str) -> Entry {
    Entry {
        base: base.to_owned(),
        base_value: Some(value.to_owned()),
        leader_value: None,
        leaves: vec![],
    }
}

fn node(base: &str, value: Option<&str>, leaves: Vec<(&str, Vec<Entry>)>) -> Entry {
    Entry {
        base: base.to_owned(),
        base_value: value.map(|v| v.to_owned()),
        leader_value: None,
        leaves: leaves.into_iter().map(|(k, v)| (k.to_owned(), v)).collect(),
    }
}

fn grain(base: &str, base_value: Option<&str>, leaf: &str, leaf_value: Option<&str>) -> Grain {
    Grain {
        base: base.to_owned(),
        base_value: base_value.map(|v| v.to_owned()),
        leaf: leaf.to_owned(),
        leaf_value: leaf_value.map(|v| v.to_owned()),
    }
}

fn plain(grains: &[Grain]) -> Vec<(String, Option<String>, String, Option<String>)> {
    grains
        .iter()
        .map(|g| (g.base.clone(), g.base_value.clone(), g.leaf.clone(), g.leaf_value.clone()))
        .collect()
}

fn same(a: &Entry, b: &Entry) -> bool {
    a.base == b.base
        && a.base_value == b.base_value
        && a.leader_value == b.leader_value
        && a.leaves.len() == b.leaves.len()
        && a.leaves.iter().zip(b.leaves.iter()).all(|(x, y)| {
            x.0 == y.0 && x.1.len() == y.1.len() && x.1.iter().zip(y.1.iter()).all(|(p, q)| same(p, q))
        })
}

fn same_value(a: &Value, b: &Value) -> bool {
    match (a, b) {
        (Value::Null, Value::Null) => true,
        (Value::Bool(x), Value::Bool(y)) => x == y,
        (Value::Number(x), Value::Number(y)) => x == y,
        (Value::String(x), Value::String(y)) => x == y,
        (Value::Array(x), Value::Array(y)) => {
            x.len() == y.len() && x.iter().zip(y.iter()).all(|(p, q)| same_value(p, q))
        }
        (Value::Object(x), Value::Object(y)) => {
            x.len() == y.len()
                && x.iter().zip(y.iter()).all(|(p, q)| p.0 == q.0 && same_value(&p.1, &q.1))
        }
        _ => false,
    }
}

fn datum() -> Entry {
    node(
        "datum",
        Some("d1"),
        vec![
            ("name", vec![leaf("name", "n1"), leaf("name", "n2")]),
            ("date", vec![node("date", Some("2001"), vec![("era", vec![leaf("era", "ce")])])]),
        ],
    )
}

#[test]
fn mow_of_a_trait_gives_its_things() {
    let grains = mow(&datum(), "datum", "name");
    assert_eq!(
        plain(&grains),
        plain(&[
            grain("datum", Some("d1"), "name", Some("n1")),
            grain("datum", Some("d1"), "name", Some("n2")),
        ])
    );
}

#[test]
fn mow_of_a_trait_without_the_thing_gives_one_open_grain() {
    let grains = datum().mow("datum", "place");
    assert_eq!(plain(&grains), plain(&[grain("datum", Some("d1"), "place", None)]));
}

#[test]
fn mow_of_a_thing_gives_its_traits() {
    let grains = mow(&datum(), "name", "datum");
    assert_eq!(
        plain(&grains),
        plain(&[
            grain("datum", Some("d1"), "name", Some("n1")),
            grain("datum", Some("d1"), "name", Some("n2")),
        ])
    );
    assert!(mow(&datum(), "place", "datum").is_empty());
}

#[test]
fn mow_of_a_node_with_itself_gives_one_grain() {
    let grains = mow(&datum(), "datum", "datum");
    assert_eq!(plain(&grains), plain(&[grain("datum", Some("d1"), "datum", Some("d1"))]));
}

#[test]
fn mow_below_the_base_reads_the_trait_list() {
    let grains = mow(&datum(), "date", "era");
    assert_eq!(plain(&grains), plain(&[grain("date", Some("2001"), "era", Some("ce"))]));
    let grains = mow(&datum(), "name", "lang");
    assert_eq!(
        plain(&grains),
        plain(&[grain("name", Some("n1"), "lang", None), grain("name", Some("n2"), "lang", None)])
    );
}

#[test]
fn mow_goes_into_the_children() {
    let outer = node("set", Some("s1"), vec![("datum", vec![datum()])]);
    let grains = mow(&outer, "date", "era");
    assert_eq!(plain(&grains), plain(&[grain("date", Some("2001"), "era", Some("ce"))]));
}

#[test]
fn sow_on_a_thing_sets_its_value() {
    let fresh = node("datum", None, vec![]);
    let got = sow(&fresh, &grain("name", Some("n1"), "datum", Some("d1")), "name", "datum").unwrap();
    assert!(same(&got, &node("datum", Some("d1"), vec![])));
    let again = got.sow(&grain("name", Some("n2"), "datum", Some("d1")), "name", "datum").unwrap();
    assert!(same(&again, &got));
    let open = got.sow(&grain("name", Some("n2"), "datum", None), "name", "datum").unwrap();
    assert!(same(&open, &got));
}

#[test]
fn sow_of_another_value_on_a_thing_is_refused() {
    let held = node("datum", Some("d1"), vec![]);
    let got = sow(&held, &grain("name", Some("n1"), "datum", Some("d2")), "name", "datum");
    assert_eq!(got.err(), Some(Error::ConflictingValue));
}

#[test]
fn sow_on_a_trait_adds_a_child() {
    let got = sow(&datum(), &grain("datum", Some("d1"), "name", Some("n3")), "datum", "name").unwrap();
    let mut want = datum();
    want.leaves[0].1.push(leaf("name", "n3"));
    assert!(same(&got, &want));
    let got = sow(&datum(), &grain("datum", Some("d1"), "place", Some("here")), "datum", "place").unwrap();
    let mut want = datum();
    want.leaves.push(("place".to_owned(), vec![leaf("place", "here")]));
    assert!(same(&got, &want));
}

#[test]
fn sow_below_the_base_adds_to_the_matching_item() {
    let got = sow(&datum(), &grain("name", Some("n2"), "lang", Some("en")), "name", "lang").unwrap();
    let mut want = datum();
    want.leaves[0].1[1].leaves.push(("lang".to_owned(), vec![leaf("lang", "en")]));
    assert!(same(&got, &want));
}

#[test]
fn sow_goes_into_the_children() {
    let outer = node("set", Some("s1"), vec![("datum", vec![datum()])]);
    let got = sow(&outer, &grain("date", Some("2001"), "era", Some("bce")), "date", "era").unwrap();
    let mut inner = datum();
    inner.leaves[1].1[0].leaves[0].1.push(leaf("era", "bce"));
    assert!(same(&got, &node("set", Some("s1"), vec![("datum", vec![inner])])));
}

#[test]
fn sow_of_a_fact_that_is_there_changes_nothing() {
    let entry = node("datum", Some("d1"), vec![("name", vec![leaf("name", "n1")])]);
    let got = sow(&entry, &grain("datum", Some("d1"), "name", Some("n1")), "datum", "name").unwrap();
    assert!(same(&got, &entry));
    assert_eq!(got.leaves[0].1.len(), 1);
    let got = sow(&datum(), &grain("name", Some("n1"), "lang", None), "name", "lang").unwrap();
    let again = sow(&got, &grain("name", Some("n1"), "lang", None), "name", "lang").unwrap();
    assert_eq!(again.leaves[0].1[0].leaves[0].1.len(), 1);
    let got = sow(&datum(), &grain("date", Some("2001"), "era", Some("ce")), "date", "era").unwrap();
    assert!(same(&got, &datum()));
}

#[test]
fn sow_twice_gives_what_sow_once_gives() {
    let outer = node("set", Some("s1"), vec![("datum", vec![datum()])]);
    let cases = vec![
        (node("datum", None, vec![]), grain("name", Some("n1"), "datum", Some("d1")), "name", "datum"),
        (datum(), grain("datum", Some("d1"), "name", Some("n3")), "datum", "name"),
        (datum(), grain("datum", Some("d1"), "place", None), "datum", "place"),
        (datum(), grain("name", Some("n2"), "lang", Some("en")), "name", "lang"),
        (outer, grain("date", Some("2001"), "era", Some("bce")), "date", "era"),
    ];
    for (entry, g, t, th) in cases {
        let once = sow(&entry, &g, t, th).unwrap();
        assert!(!same(&once, &entry));
        let twice = sow(&once, &g, t, th).unwrap();
        assert!(same(&twice, &once));
    }
}

#[test]
fn sow_goes_by_the_trait_and_the_thing() {
    let got = sow(&datum(), &grain("other", Some("n2"), "another", Some("en")), "name", "lang").unwrap();
    let mut want = datum();
    want.leaves[0].1[1].leaves.push(("lang".to_owned(), vec![leaf("lang", "en")]));
    assert!(same(&got, &want));
    assert_eq!(got.leaves.len(), 2);
}

#[test]
fn a_grain_that_was_mown_can_be_sown_and_mown_again() {
    let entry = datum();
    for (t, th) in [("datum", "name"), ("date", "era"), ("name", "lang"), ("datum", "datum")] {
        for g in mow(&entry, t, th) {
            let after = sow(&entry, &g, t, th).unwrap();
            let again = plain(&mow(&after, t, th));
            assert!(again.contains(&plain(&[g])[0]));
        }
    }
}

#[test]
fn entry_try_from_reads_strings_arrays_and_objects() {
    let value = object(vec![
        ("_", text("datum")),
        ("datum", text("d1")),
        ("__", text("name")),
        ("name", Value::Array(vec![text("n1"), text("n2")])),
        (
            "date",
            object(vec![("_", text("date")), ("date", text("2001")), ("era", text("ce"))]),
        ),
    ]);
    let got = Entry::try_from(&value).unwrap();
    let mut want = datum();
    want.leader_value = Some("name".to_owned());
    assert!(same(&got, &want));
}

#[test]
fn entry_try_from_refuses_other_shapes() {
    for value in [
        Value::Null,
        Value::Bool(true),
        Value::Number("1".to_owned()),
        text("datum"),
        Value::Array(vec![]),
        object(vec![("datum", text("d1"))]),
        object(vec![("_", Value::Number("1".to_owned()))]),
        object(vec![("_", text("datum")), ("datum", Value::Null)]),
        object(vec![("_", text("datum")), ("__", Value::Bool(false))]),
        object(vec![("_", text("datum")), ("name", Value::Number("2".to_owned()))]),
        object(vec![("_", text("datum")), ("name", Value::Array(vec![Value::Null]))]),
        object(vec![("_", text("datum")), ("name", Value::Array(vec![Value::Array(vec![])]))]),
        object(vec![("_", text("datum")), ("name", object(vec![("name", text("n1"))]))]),
    ] {
        assert_eq!(Entry::try_from(&value).err(), Some(Error::MalformedQuery));
    }
}

#[test]
fn entry_into_value_condenses_children_without_leaves() {
    let got = datum().into_value();
    let want = object(vec![
        ("_", text("datum")),
        ("datum", text("d1")),
        ("name", Value::Array(vec![text("n1"), text("n2")])),
        (
            "date",
            object(vec![("_", text("date")), ("date", text("2001")), ("era", text("ce"))]),
        ),
    ]);
    assert!(same_value(&got, &want));
}

#[test]
fn entry_round_trip_gives_the_entry_back() {
    let entry = datum();
    let back = Entry::try_from(&datum().into_value()).unwrap();
    assert!(same(&back, &entry));
}

#[test]
fn what_is_written_for_a_query_states_what_the_query_states() {
    let value = object(vec![
        ("name", Value::Array(vec![
            text("n1"),
            object(vec![("name", text("n2")), ("_", text("name")), ("lang", text("en"))]),
            object(vec![("_", text("name")), ("name", text("n3"))]),
        ])),
        ("__", text("name")),
        ("datum", text("d1")),
        ("date", object(vec![("_", text("date")), ("date", text("2001"))])),
        ("_", text("datum")),
    ]);
    let entry = Entry::try_from(&value).unwrap();
    let written = entry.clone().into_value();
    let want = object(vec![
        ("_", text("datum")),
        ("datum", text("d1")),
        ("__", text("name")),
        ("name", Value::Array(vec![
            text("n1"),
            object(vec![("_", text("name")), ("name", text("n2")), ("lang", text("en"))]),
            text("n3"),
        ])),
        ("date", text("2001")),
    ]);
    assert!(same_value(&written, &want));
    let again = Entry::try_from(&written).unwrap();
    assert!(same(&again, &entry));
    assert_eq!(again.leader_value.as_deref(), Some("name"));
    assert_eq!(again.leaves[0].1.len(), 3);
}

#[test]
fn grain_try_from_and_into_value() {
    let value = object(vec![("_", text("datum")), ("datum", text("d1")), ("name", text("n1"))]);
    let got = Grain::try_from(&value).unwrap();
    assert_eq!(plain(&[got]), plain(&[grain("datum", Some("d1"), "name", Some("n1"))]));
    assert!(same_value(&grain("datum", Some("d1"), "name", Some("n1")).into_value(), &value));

    let bare = object(vec![("_", text("datum")), ("datum", text("d1"))]);
    let got = Grain::try_from(&bare).unwrap();
    assert_eq!(plain(&[got]), plain(&[grain("datum", Some("d1"), "", None)]));
    assert!(same_value(&grain("datum", Some("d1"), "name", None).into_value(), &bare));

    let open = object(vec![("_", text("datum")), ("datum", Value::Null)]);
    assert!(same_value(&grain("datum", None, "name", None).into_value(), &open));

    let crowded = object(vec![
        ("_", text("datum")),
        ("datum", text("d1")),
        ("name", text("n1")),
        ("date", text("2001")),
    ]);
    assert_eq!(Grain::try_from(&crowded).err(), Some(Error::MalformedQuery));
    let wrong = object(vec![("_", text("datum")), ("name", Value::Bool(true))]);
    assert_eq!(Grain::try_from(&wrong).err(), Some(Error::MalformedQuery));
}
