use csvs::select::line::{finish, make_state_initial, select_line_stream, step};
use csvs::select::schema::select_schema_line_stream;
use csvs::select::tablet::select_tablet;
use csvs::{Entry, Error, Grain, IntoValue, Line, State, Tablet, Value};

fn line(key: &str, value: &str) -> Line {
    Line { key: key.to_owned(), value: value.to_owned() }
}

fn node(base: &str, value: Option<&str>, leaves: Vec<(&str, Vec<Entry>)>) -> Entry {
    Entry {
        base: base.to_owned(),
        base_value: value.map(|v| v.to_owned()),
        leader_value: None,
        leaves: leaves.into_iter().map(|(k, v)| (k.to_owned(), v)).collect(),
    }
}

fn show(entry: &Option<Entry>) -> String {
    fn inner(entry: &Entry) -> String {
        let mut out = format!("{}={}", entry.base, entry.base_value.clone().unwrap_or("?".to_owned()));
        for (name, items) in &entry.leaves {
            let list: Vec<String> = items.iter().map(inner).collect();
            out.push_str(&format!(" {}[{}]", name, list.join(";")));
        }
        out
    }
    match entry {
        Some(e) => inner(e),
        None => "-".to_owned(),
    }
}

fn tablet(filename: &str, thing: &str, trait_: &str, base: &str, flags: &str) -> Tablet {
    Tablet {
        filename: filename.to_owned(),
        thing: thing.to_owned(),
        trait_: trait_.to_owned(),
        thing_is_first: flags.contains('T'),
        trait_is_first: flags.contains('t'),
        base: base.to_owned(),
        trait_is_regex: flags.contains('r'),
        passthrough: flags.contains('p'),
        querying: flags.contains('q'),
        eager: flags.contains('e'),
        accumulating: flags.contains('a'),
    }
}

fn state(entry: Option<Entry>, query: Option<Entry>, seen: Option<Vec<&str>>) -> State {
    State {
        entry,
        query,
        fst: None,
        is_match: false,
        match_map: seen.map(|s| s.into_iter().map(|t| t.to_owned()).collect()),
        has_match: false,
        thing_querying: None,
    }
}

fn brief(s: &State) -> String {
    format!(
        "entry({}) query({}) seen={:?} settled={:?}",
        show(&s.entry),
        show(&s.query),
        s.match_map,
        s.thing_querying
    )
}

#[test]
fn initial_state_of_a_querying_step_carries_the_entry_over() {
    let query = node("datum", None, vec![("name", vec![node("name", Some("n"), vec![])])]);
    let mut before = state(Some(node("name", Some("n1"), vec![])), Some(query), Some(vec!["x"]));
    before.thing_querying = Some("n1".to_owned());
    before.is_match = true;
    before.has_match = true;
    before.fst = Some("k".to_owned());
    let got = make_state_initial(&before, &tablet("set-datum.csv", "set", "datum", "set", "Trqe"));
    assert_eq!(
        brief(&got),
        "entry(set=? name[name=n1]) query(datum=? name[name=n]) seen=Some([\"x\"]) settled=None"
    );
    assert!(!got.is_match && !got.has_match && got.fst.is_none());
    let got = make_state_initial(&before, &tablet("datum-name.csv", "datum", "name", "datum", "Trqe"));
    assert_eq!(brief(&got), "entry(datum=?) query(datum=? name[name=n]) seen=Some([\"x\"]) settled=None");
    let got = make_state_initial(&before, &tablet("x-name.csv", "name", "x", "name", "Trqe"));
    assert_eq!(
        brief(&got),
        "entry(name=n1) query(datum=? name[name=n]) seen=Some([\"x\"]) settled=Some(\"n1\")"
    );
}

#[test]
fn initial_state_of_a_value_step_takes_the_entry_as_query() {
    let before = state(Some(node("datum", Some("d1"), vec![])), Some(node("datum", None, vec![])), None);
    let got = make_state_initial(&before, &tablet("datum-name.csv", "name", "datum", "datum", "tpe"));
    assert_eq!(brief(&got), "entry(datum=d1) query(datum=d1) seen=None settled=None");
    let got = make_state_initial(
        &state(None, Some(node("datum", None, vec![])), Some(vec![])),
        &tablet("set-datum.csv", "datum", "set", "set", "rea"),
    );
    assert_eq!(brief(&got), "entry(set=?) query(set=?) seen=Some([]) settled=None");
    let got = make_state_initial(
        &state(None, Some(node("datum", None, vec![])), Some(vec![])),
        &tablet("datum-name.csv", "datum", "datum", "datum", "Ttrea"),
    );
    assert_eq!(brief(&got), "entry(datum=?) query(datum=?) seen=Some([]) settled=None");
}

#[test]
fn an_eager_step_hands_on_each_matched_group() {
    let query = node("datum", None, vec![("name", vec![node("name", Some("^n"), vec![])])]);
    let file = vec![line("d1", "n1"), line("d1", "m1"), line("d2", "x"), line("d3", "n3"), line("d3", "n4")];
    let got = select_line_stream(
        &file,
        &state(None, Some(query), Some(vec![])),
        &tablet("datum-name.csv", "datum", "name", "datum", "Trqe"),
    )
    .unwrap();
    let shown: Vec<String> = got.iter().map(brief).collect();
    assert_eq!(
        shown,
        vec![
            "entry(datum=d1) query(datum=d1 name[name=^n]) seen=None settled=Some(\"d1\")",
            "entry(datum=d3) query(datum=d3 name[name=^n]) seen=None settled=Some(\"d3\")",
        ]
    );
}

#[test]
fn a_step_that_is_not_eager_hands_on_at_the_end() {
    let entry = node("datum", Some("d1"), vec![("name", vec![node("name", Some("n1"), vec![])])]);
    let file = vec![line("n0", "xx"), line("n1", "en"), line("n1", "fr"), line("n2", "de")];
    let got = select_line_stream(
        &file,
        &state(Some(entry), None, None),
        &tablet("name-lang.csv", "lang", "name", "name", "tp"),
    )
    .unwrap();
    let shown: Vec<String> = got.iter().map(|s| show(&s.entry)).collect();
    assert_eq!(shown, vec!["datum=d1 name[name=n1 lang[lang=en;lang=fr]]"]);
}

#[test]
fn a_value_step_without_a_match_hands_the_entry_on() {
    let entry = node("datum", Some("d1"), vec![]);
    let got = select_line_stream(
        &vec![line("d2", "n2")],
        &state(Some(entry), None, None),
        &tablet("datum-name.csv", "name", "datum", "datum", "tpe"),
    )
    .unwrap();
    let shown: Vec<String> = got.iter().map(brief).collect();
    assert_eq!(shown, vec!["entry(datum=d1) query(datum=d1) seen=None settled=None"]);
}

#[test]
fn a_collecting_step_closes_with_the_things_seen() {
    let file = vec![line("d1", "a"), line("d1", "b"), line("d2", "c"), line("d1", "d")];
    let got = select_line_stream(
        &file,
        &state(None, Some(node("datum", None, vec![])), Some(vec!["d0"])),
        &tablet("datum-name.csv", "datum", "datum", "datum", "Ttrea"),
    )
    .unwrap();
    let shown: Vec<String> = got.iter().map(brief).collect();
    assert_eq!(
        shown,
        vec![
            "entry(datum=d1) query(datum=?) seen=None settled=None",
            "entry(datum=d2) query(datum=?) seen=None settled=None",
            "entry(datum=?) query(datum=?) seen=Some([\"d0\", \"d1\", \"d2\"]) settled=None",
        ]
    );
}

#[test]
fn step_and_finish_do_what_the_scan_does() {
    let query = node("datum", None, vec![("name", vec![node("name", Some("n1"), vec![])])]);
    let t = tablet("datum-name.csv", "datum", "name", "datum", "Trqe");
    let start = make_state_initial(&state(None, Some(query.clone()), Some(vec![])), &t);
    let grains: Vec<Grain> = query.mow("name", "datum");
    let (current, handed) = step(&start, start.clone(), &t, &grains, &line("d1", "n1")).unwrap();
    assert!(handed.is_none());
    assert!(current.is_match && current.has_match);
    assert_eq!(current.fst.as_deref(), Some("d1"));
    let (current, handed) = step(&start, current, &t, &grains, &line("d2", "zz")).unwrap();
    assert_eq!(show(&handed.unwrap().entry), "datum=d1");
    assert!(!current.is_match && current.has_match);
    assert_eq!(show(&current.entry), "datum=?");
    assert!(finish(&start, &current, &t).is_empty());
}

#[test]
fn a_scan_without_a_query_is_a_broken_plan() {
    let got = select_line_stream(
        &vec![],
        &state(None, None, None),
        &tablet("datum-name.csv", "datum", "name", "datum", "Trqe"),
    );
    assert_eq!(got.err(), Some(Error::BrokenPlan));
}

#[test]
fn a_scan_that_would_overwrite_a_value_is_refused() {
    let entry = node("name", Some("n1"), vec![]);
    let got = select_line_stream(
        &vec![line("n2", "n1")],
        &state(Some(entry), None, None),
        &tablet("name-name.csv", "name", "name", "name", "T"),
    );
    assert_eq!(got.err(), Some(Error::ConflictingValue));
}

#[test]
fn select_tablet_drops_forwards_and_scans() {
    let closing = state(Some(node("datum", None, vec![])), Some(node("datum", None, vec![])), Some(vec!["d1"]));
    let result = state(Some(node("datum", Some("d1"), vec![])), Some(node("datum", None, vec![])), None);
    let value = tablet("datum-name.csv", "name", "datum", "datum", "tpe");
    let file = vec![line("d1", "n1")];
    let got = select_tablet(&file, &value, &vec![closing.clone(), result.clone()]).unwrap();
    let shown: Vec<String> = got.iter().map(|s| show(&s.entry)).collect();
    assert_eq!(shown, vec!["datum=d1 name[name=n1]"]);

    let collecting = tablet("datum-date.csv", "datum", "datum", "datum", "Ttrea");
    let mut settled = result.clone();
    settled.thing_querying = Some("d1".to_owned());
    let got = select_tablet(&vec![line("d9", "x")], &collecting, &vec![settled, closing.clone()]).unwrap();
    let shown: Vec<String> = got.iter().map(brief).collect();
    assert_eq!(
        shown,
        vec![
            "entry(datum=d1) query(datum=?) seen=None settled=None",
            "entry(datum=d9) query(datum=?) seen=None settled=None",
            "entry(datum=?) query(datum=?) seen=Some([\"d1\", \"d9\"]) settled=None",
        ]
    );
}

#[test]
fn the_schema_step_builds_the_record_of_the_schema() {
    let query = node("_", Some("_"), vec![]);
    let file = vec![line("datum", "name"), line("name", "lang"), line("datum", "date")];
    let got = select_schema_line_stream(&file, &query);
    assert_eq!(show(&got.entry), "_=_ datum[datum=name;datum=date] name[name=lang]");
    assert!(got.query.is_none() && got.match_map.is_none());

    let schema_step = tablet("_-_.csv", "_", "_", "_", "t");
    let got = select_tablet(&file, &schema_step, &vec![state(None, None, None)]);
    assert_eq!(got.err(), Some(Error::BrokenPlan));
}

#[test]
fn state_into_value_names_every_part() {
    let mut s = state(Some(node("datum", Some("d1"), vec![])), None, Some(vec!["d1"]));
    s.fst = Some("k".to_owned());
    s.is_match = true;
    let value = s.into_value();
    let members = match value {
        Value::Object(members) => members,
        _ => panic!("not an object"),
    };
    let keys: Vec<&str> = members.iter().map(|m| m.0.as_str()).collect();
    assert_eq!(keys, vec!["fst", "isMatch", "hasMatch", "matchMap", "thingQuerying", "entry", "query"]);
    assert!(matches!(&members[0].1, Value::String(s) if s == "k"));
    assert!(matches!(&members[1].1, Value::Bool(true)));
    assert!(matches!(&members[2].1, Value::Bool(false)));
    assert!(matches!(&members[3].1, Value::Object(m) if m.len() == 1 && m[0].0 == "d1" && matches!(m[0].1, Value::Bool(true))));
    assert!(matches!(&members[4].1, Value::Null));
    assert!(matches!(&members[5].1, Value::Object(m) if m.len() == 2));
    assert!(matches!(&members[6].1, Value::Null));
}

#[test]
fn line_from_fields_fills_in_missing_columns() {
    let full = Line::from_fields(&vec!["a".to_owned(), "b".to_owned(), "c".to_owned()]);
    assert_eq!((full.key.as_str(), full.value.as_str()), ("a", "b"));
    let short = Line::from_fields(&vec!["a".to_owned()]);
    assert_eq!((short.key.as_str(), short.value.as_str()), ("a", ""));
    let none = Line::from_fields(&vec![]);
    assert_eq!((none.key.as_str(), none.value.as_str()), ("", ""));
}
