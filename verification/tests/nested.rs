use csvs::{Dataset, Entry, Line};

fn line(key: &str, value: &str) -> Line {
    Line { key: key.to_owned(), value: value.to_owned() }
}

fn node(base: &str, value: Option<&str>, leaves: Vec<(&str, Vec<Entry>)>) -> Entry {
    Entry {
        base: base.to_owned(),
        base_value: value.map(|v| v.to_owned()),
        leader_value: None,
        leaves: leaves.into_iter().map(|(k, v)| (k.to_owned(), v)).collect(),
    }
}

fn show(entry: &Entry) -> String {
    let mut out = format!("{}={}", entry.base, entry.base_value.clone().unwrap_or_default());
    for (name, items) in &entry.leaves {
        let inner: Vec<String> = items.iter().map(show).collect();
        out.push_str(&format!(" {}[{}]", name, inner.join(";")));
    }
    out
}

fn nested() -> Dataset {
    Dataset {
        files: vec![
            ("_-_.csv".to_owned(), vec![line("datum", "name"), line("name", "lang")]),
            ("datum-name.csv".to_owned(), vec![line("d1", "n1"), line("d2", "n2")]),
            ("name-lang.csv".to_owned(), vec![line("n1", "en"), line("n2", "fr")]),
        ],
    }
}

#[test]
fn a_filter_below_a_leaf_finds_the_base() {
    let query = node(
        "datum",
        None,
        vec![("name", vec![node("name", None, vec![("lang", vec![node("lang", Some("fr"), vec![])])])])],
    );
    let got = nested().select_record(vec![query]).unwrap();
    let shown: Vec<String> = got.iter().map(show).collect();
    assert_eq!(shown, vec!["datum=d2 name[name=n2 lang[lang=fr]]"]);
}

#[test]
fn a_wildcard_fills_in_the_nested_leaves() {
    let got = nested().select_record(vec![node("datum", None, vec![])]).unwrap();
    let shown: Vec<String> = got.iter().map(show).collect();
    assert_eq!(
        shown,
        vec!["datum=d1 name[name=n1 lang[lang=en]]", "datum=d2 name[name=n2 lang[lang=fr]]"]
    );
}
