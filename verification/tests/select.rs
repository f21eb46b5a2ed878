use csvs::dataset::Dataset;
use csvs::entry::Entry;
use csvs::error::Error;
use csvs::line::Line;

fn line(key: &str, value: &str) -> Line {
    Line { key: key.to_owned(), value: value.to_owned() }
}

fn leaf(base: &str, value: &str) -> Entry {
    Entry {
        base: base.to_owned(),
        base_value: Some(value.to_owned()),
        leader_value: None,
        leaves: vec![],
    }
}

fn query(base: &str, leaves: Vec<(&str, Vec<Entry>)>) -> Entry {
    Entry {
        base: base.to_owned(),
        base_value: None,
        leader_value: None,
        leaves: leaves.into_iter().map(|(k, v)| (k.to_owned(), v)).collect(),
    }
}

fn small() -> Dataset {
    Dataset {
        files: vec![
            ("_-_.csv".to_owned(), vec![line("datum", "date"), line("datum", "name")]),
            ("datum-date.csv".to_owned(), vec![line("d1", "2001-01-01")]),
            ("datum-name.csv".to_owned(), vec![line("d1", "name1")]),
        ],
    }
}

fn items<'a>(entry: &'a Entry, name: &str) -> Vec<&'a str> {
    entry
        .leaves
        .iter()
        .filter(|(k, _)| k == name)
        .flat_map(|(_, v)| v.iter())
        .map(|e| e.base_value.as_deref().unwrap())
        .collect()
}

#[test]
fn select_by_name_gives_the_whole_entry() {
    let got = small().select_record(vec![query("datum", vec![("name", vec![leaf("name", "name1")])])]).unwrap();
    assert_eq!(got.len(), 1);
    let entry = &got[0];
    assert_eq!(entry.base, "datum");
    assert_eq!(entry.base_value.as_deref(), Some("d1"));
    assert_eq!(entry.leader_value, None);
    assert_eq!(entry.leaves.len(), 2);
    assert_eq!(items(entry, "name"), vec!["name1"]);
    assert_eq!(items(entry, "date"), vec!["2001-01-01"]);
}

#[test]
fn select_without_a_matching_row_gives_nothing() {
    let got = small().select_record(vec![query("datum", vec![("name", vec![leaf("name", "nobody")])])]);
    assert_eq!(got.map(|v| v.len()), Ok(0));
}

#[test]
fn select_of_an_unknown_base_is_refused() {
    let got = small().select_record(vec![query("event", vec![])]);
    assert_eq!(got.err(), Some(Error::UnknownSchemaNode));
}

#[test]
fn select_of_an_unknown_attribute_is_refused() {
    let got = small().select_record(vec![query("datum", vec![("place", vec![leaf("place", "x")])])]);
    assert_eq!(got.err(), Some(Error::UnknownSchemaNode));
}

#[test]
fn select_with_a_broken_pattern_is_refused() {
    let got = small().select_record(vec![query("datum", vec![("name", vec![leaf("name", "(")])])]);
    assert_eq!(got.err(), Some(Error::RegexCompileError));
}

#[test]
fn wildcard_gives_each_value_once() {
    let dataset = Dataset {
        files: vec![
            ("_-_.csv".to_owned(), vec![line("datum", "date"), line("datum", "name")]),
            (
                "datum-date.csv".to_owned(),
                vec![line("d1", "2001-01-01"), line("d2", "2002-02-02"), line("d3", "2003-03-03")],
            ),
            (
                "datum-name.csv".to_owned(),
                vec![line("d1", "name1"), line("d2", "name2"), line("d2", "name2b")],
            ),
        ],
    };
    let got = dataset.select_record(vec![query("datum", vec![])]).unwrap();
    let values: Vec<&str> = got.iter().map(|e| e.base_value.as_deref().unwrap()).collect();
    assert_eq!(values, vec!["d1", "d2", "d3"]);
    for entry in &got {
        assert_eq!(entry.base, "datum");
        match entry.base_value.as_deref().unwrap() {
            "d1" => {
                assert_eq!(items(entry, "date"), vec!["2001-01-01"]);
                assert_eq!(items(entry, "name"), vec!["name1"]);
            }
            "d2" => {
                assert_eq!(items(entry, "date"), vec!["2002-02-02"]);
                assert_eq!(items(entry, "name"), vec!["name2", "name2b"]);
            }
            "d3" => {
                assert_eq!(items(entry, "date"), vec!["2003-03-03"]);
                assert_eq!(items(entry, "name"), Vec::<&str>::new());
            }
            other => panic!("unexpected value {}", other),
        }
    }
}

#[test]
fn select_schema_reads_the_edges() {
    let schema = small().select_schema().unwrap();
    assert_eq!(schema.0.len(), 3);
    assert_eq!(schema.0[0].0, "datum");
    assert_eq!(schema.0[0].1.leaves.0, vec!["date", "name"]);
    assert!(schema.0[0].1.trunks.0.is_empty());
    assert_eq!(schema.0[1].0, "date");
    assert_eq!(schema.0[1].1.trunks.0, vec!["datum"]);
    assert_eq!(schema.0[2].0, "name");
    assert_eq!(schema.0[2].1.trunks.0, vec!["datum"]);
}

#[test]
fn select_of_the_schema_gives_its_record() {
    let got = small()
        .select_record(vec![Entry {
            base: "_".to_owned(),
            base_value: Some("_".to_owned()),
            leader_value: None,
            leaves: vec![],
        }])
        .unwrap();
    assert_eq!(got.len(), 1);
    assert_eq!(got[0].base, "_");
    assert_eq!(items(&got[0], "datum"), vec!["date", "name"]);
}

#[test]
fn a_missing_file_is_an_empty_file() {
    let dataset = Dataset {
        files: vec![
            ("_-_.csv".to_owned(), vec![line("datum", "date"), line("datum", "name")]),
            ("datum-name.csv".to_owned(), vec![line("d1", "name1")]),
        ],
    };
    let got = dataset.select_record(vec![query("datum", vec![("name", vec![leaf("name", "name1")])])]).unwrap();
    assert_eq!(got.len(), 1);
    assert_eq!(got[0].base_value.as_deref(), Some("d1"));
    assert_eq!(items(&got[0], "date"), Vec::<&str>::new());
}

#[test]
fn wildcard_takes_values_in_the_order_they_first_stand() {
    let dataset = Dataset {
        files: vec![
            ("_-_.csv".to_owned(), vec![line("datum", "date"), line("datum", "name")]),
            ("datum-date.csv".to_owned(), vec![line("d2", "2002"), line("d4", "2004")]),
            (
                "datum-name.csv".to_owned(),
                vec![line("d1", "a"), line("d2", "b"), line("d2", "c"), line("d3", "d"), line("d4", "e")],
            ),
        ],
    };
    let got = dataset.select_record(vec![query("datum", vec![])]).unwrap();
    let values: Vec<&str> = got.iter().map(|e| e.base_value.as_deref().unwrap()).collect();
    assert_eq!(values, vec!["d2", "d4", "d1", "d3"]);
    assert_eq!(items(&got[0], "name"), vec!["b", "c"]);
    assert_eq!(items(&got[0], "date"), vec!["2002"]);
    assert_eq!(items(&got[2], "name"), vec!["a"]);
    assert_eq!(items(&got[2], "date"), Vec::<&str>::new());
}

#[test]
fn a_pattern_is_searched_for_anywhere_in_the_value() {
    let dataset = Dataset {
        files: vec![
            ("_-_.csv".to_owned(), vec![line("datum", "name")]),
            (
                "datum-name.csv".to_owned(),
                vec![line("d1", "alpha"), line("d2", "beta"), line("d3", "alphabet"), line("d4", "Alpha")],
            ),
        ],
    };
    let ask = |pattern: &str| -> Vec<String> {
        dataset
            .select_record(vec![query("datum", vec![("name", vec![leaf("name", pattern)])])])
            .unwrap()
            .iter()
            .map(|e| e.base_value.clone().unwrap())
            .collect()
    };
    assert_eq!(ask("alpha"), vec!["d1", "d3"]);
    assert_eq!(ask("^alpha$"), vec!["d1"]);
    assert_eq!(ask("et"), vec!["d2", "d3"]);
    assert_eq!(ask("^(?i)alpha"), vec!["d1", "d3", "d4"]);
    assert_eq!(ask("gamma"), Vec::<String>::new());
}

#[test]
fn a_row_that_stands_twice_gives_one_child() {
    let dataset = Dataset {
        files: vec![
            ("_-_.csv".to_owned(), vec![line("datum", "name")]),
            (
                "datum-name.csv".to_owned(),
                vec![line("d1", "name1"), line("d1", "name1"), line("d1", "name1b"), line("d2", "name1")],
            ),
        ],
    };
    let got = dataset.select_record(vec![query("datum", vec![])]).unwrap();
    assert_eq!(got.len(), 2);
    assert_eq!(got[0].base_value.as_deref(), Some("d1"));
    assert_eq!(items(&got[0], "name"), vec!["name1", "name1b"]);
    assert_eq!(got[1].base_value.as_deref(), Some("d2"));
    assert_eq!(items(&got[1], "name"), vec!["name1"]);
}

#[test]
fn the_schema_names_no_node_twice() {
    let dataset = Dataset {
        files: vec![(
            "_-_.csv".to_owned(),
            vec![line("datum", "name"), line("name", "lang"), line("datum", "name"), line("datum", "date")],
        )],
    };
    let schema = dataset.select_schema().unwrap();
    let names: Vec<&str> = schema.0.iter().map(|(name, _)| name.as_str()).collect();
    assert_eq!(names, vec!["datum", "name", "date", "lang"]);
    assert_eq!(schema.0[0].1.leaves.0, vec!["name", "name", "date"]);
    assert_eq!(schema.0[1].1.trunks.0, vec!["datum", "datum"]);
    assert_eq!(schema.find_crown("datum"), vec!["datum", "name", "date", "lang"]);
    assert_eq!(schema.find_crown("name"), vec!["name", "lang"]);
}

#[test]
fn an_answer_rests_on_the_files_of_its_plan() {
    let mut more = small();
    more.files.push(("set-datum.csv".to_owned(), vec![line("s1", "d1")]));
    more.files.push(("notes.csv".to_owned(), vec![line("d1", "x"), line("d9", "y")]));
    for q in [query("datum", vec![]), query("datum", vec![("name", vec![leaf("name", "name1")])])] {
        let a = small().select_record(vec![q.clone()]).unwrap();
        let b = more.select_record(vec![q]).unwrap();
        assert_eq!(a.len(), b.len());
        for (x, y) in a.iter().zip(b.iter()) {
            assert_eq!(x.base_value, y.base_value);
            assert_eq!(items(x, "name"), items(y, "name"));
            assert_eq!(items(x, "date"), items(y, "date"));
            assert_eq!(x.leaves.len(), y.leaves.len());
        }
    }
}
