use csvs::schema::find_crown::find_crown;
use csvs::schema::{Branch, Leaves, Schema, Trunks};
use csvs::{Entry, Error};

fn datum_schema() -> Schema {
    Schema(vec![
        (
            "datum".to_owned(),
            Branch {
                trunks: Trunks(vec![]),
                leaves: Leaves(vec!["date".to_owned(), "name".to_owned()]),
            },
        ),
        (
            "date".to_owned(),
            Branch { trunks: Trunks(vec!["datum".to_owned()]), leaves: Leaves(vec![]) },
        ),
        (
            "name".to_owned(),
            Branch { trunks: Trunks(vec!["datum".to_owned()]), leaves: Leaves(vec![]) },
        ),
    ])
}

#[test]
fn find_crown_test() {
    let schema = datum_schema();

    let mut crown = find_crown(&schema, "datum");

    crown.sort();

    assert_eq!(crown, vec!["date", "datum", "name"]);
}

#[test]
fn schema_find_crown_test() {
    let schema = datum_schema();

    let crown = schema.find_crown("datum");

    assert_eq!(crown.clone().sort(), vec!["datum", "name", "date"].clone().sort());
}

fn names(list: &[&str]) -> Vec<String> {
    list.iter().map(|s| (*s).to_owned()).collect()
}

fn branch(trunks: &[&str], leaves: &[&str]) -> Branch {
    Branch { trunks: Trunks(names(trunks)), leaves: Leaves(names(leaves)) }
}

fn deep_schema() -> Schema {
    Schema(vec![
        ("datum".to_owned(), branch(&[], &["date", "name", "file"])),
        ("date".to_owned(), branch(&["datum"], &[])),
        ("name".to_owned(), branch(&["datum"], &["lang"])),
        ("file".to_owned(), branch(&["datum"], &["hash", "lang"])),
        ("lang".to_owned(), branch(&["name", "file"], &[])),
        ("hash".to_owned(), branch(&["file"], &["salt"])),
        ("salt".to_owned(), branch(&["hash"], &[])),
        ("other".to_owned(), branch(&[], &[])),
    ])
}

#[test]
fn is_connected_follows_the_trunks() {
    let schema = deep_schema();
    assert!(schema.is_connected("datum", "datum"));
    assert!(schema.is_connected("datum", "salt"));
    assert!(schema.is_connected("file", "lang"));
    assert!(schema.is_connected("name", "lang"));
    assert!(!schema.is_connected("name", "hash"));
    assert!(!schema.is_connected("salt", "datum"));
    assert!(!schema.is_connected("datum", "other"));
    assert!(schema.is_connected("nowhere", "nowhere"));
    assert!(!schema.is_connected("datum", "nowhere"));
}

#[test]
fn is_connected_ends_on_a_cycle() {
    let schema = Schema(vec![
        ("a".to_owned(), branch(&["c"], &["b"])),
        ("b".to_owned(), branch(&["a"], &["c"])),
        ("c".to_owned(), branch(&["b"], &["a"])),
        ("d".to_owned(), branch(&[], &[])),
    ]);
    assert!(schema.is_connected("a", "c"));
    assert!(schema.is_connected("c", "a"));
    assert!(!schema.is_connected("d", "a"));
    assert_eq!(schema.find_crown("b"), names(&["a", "b", "c"]));
    assert_eq!(schema.get_nesting_level("a"), 4);
}

#[test]
fn find_crown_keeps_the_order_of_the_schema() {
    let schema = deep_schema();
    assert_eq!(schema.find_crown("file"), names(&["file", "lang", "hash", "salt"]));
    assert_eq!(schema.find_crown("other"), names(&["other"]));
    assert_eq!(schema.find_crown("nowhere"), Vec::<String>::new());
}

#[test]
fn count_leaves_counts() {
    let schema = deep_schema();
    assert_eq!(schema.count_leaves("datum"), 3);
    assert_eq!(schema.count_leaves("salt"), 0);
    assert_eq!(schema.count_leaves("nowhere"), 0);
    assert_eq!(csvs::schema::count_leaves::count_leaves(&schema, "file"), 2);
}

#[test]
fn nesting_level_is_the_longest_way_up() {
    let schema = deep_schema();
    assert_eq!(schema.get_nesting_level("datum"), 0);
    assert_eq!(schema.get_nesting_level("date"), 1);
    assert_eq!(schema.get_nesting_level("lang"), 2);
    assert_eq!(schema.get_nesting_level("hash"), 2);
    assert_eq!(schema.get_nesting_level("salt"), 3);
    assert_eq!(schema.get_nesting_level("nowhere"), 0);
    assert_eq!(csvs::schema::get_nesting_level::get_nesting_level(&schema, "name"), 1);
}

#[test]
fn sort_descending_goes_from_the_roots_down() {
    let schema = deep_schema();
    let given = names(&["salt", "name", "lang", "datum", "hash", "date", "file", "name"]);
    assert_eq!(
        schema.sort_nesting_descending(given),
        names(&["datum", "date", "file", "name", "name", "hash", "lang", "salt"])
    );
}

#[test]
fn sort_ascending_goes_from_the_deepest_up() {
    let schema = deep_schema();
    let given = names(&["salt", "name", "lang", "datum", "hash", "date", "file"]);
    assert_eq!(
        schema.sort_nesting_ascending(given),
        names(&["salt", "lang", "hash", "name", "file", "date", "datum"])
    );
    let given = names(&["b", "a", "ab", "", "é", "z"]);
    assert_eq!(
        csvs::schema::sort_nesting_ascending::sort_nesting_ascending(&schema, given),
        names(&["é", "z", "b", "ab", "a", ""])
    );
}

#[test]
fn schema_try_from_reads_the_edges_in_order() {
    let child = |trunk: &str, leaf: Option<&str>| Entry {
        base: trunk.to_owned(),
        base_value: leaf.map(|l| l.to_owned()),
        leader_value: None,
        leaves: vec![],
    };
    let record = Entry {
        base: "_".to_owned(),
        base_value: Some("_".to_owned()),
        leader_value: None,
        leaves: vec![
            ("a".to_owned(), vec![child("a", Some("b")), child("a", None), child("a", Some("c"))]),
            ("b".to_owned(), vec![child("b", Some("c"))]),
        ],
    };
    let schema = Schema::try_from(&record).unwrap();
    let flat: Vec<(String, Vec<String>, Vec<String>)> = schema
        .0
        .iter()
        .map(|(name, b)| (name.clone(), b.trunks.0.clone(), b.leaves.0.clone()))
        .collect();
    assert_eq!(
        flat,
        vec![
            ("a".to_owned(), names(&[]), names(&["b", "c"])),
            ("b".to_owned(), names(&["a"]), names(&["c"])),
            ("c".to_owned(), names(&["a", "b"]), names(&[])),
        ]
    );
    let mut wrong = record;
    wrong.base = "datum".to_owned();
    assert_eq!(Schema::try_from(&wrong).err(), Some(Error::MalformedQuery));
}

#[test]
fn the_comparisons_are_those_of_the_sorts() {
    let schema = deep_schema();
    assert!(schema.descends_before("datum", "name"));
    assert!(!schema.descends_before("name", "datum"));
    assert!(schema.descends_before("date", "name"));
    assert!(!schema.descends_before("name", "date"));
    assert!(!schema.descends_before("name", "name"));
    assert!(schema.ascends_before("name", "datum"));
    assert!(!schema.ascends_before("datum", "name"));
    assert!(schema.ascends_before("name", "date"));
    assert!(!schema.ascends_before("name", "name"));
    assert!(csvs::schema::sort_nesting_descending::comes_before(&schema, "datum", "lang"));
    assert!(csvs::schema::sort_nesting_ascending::comes_first(&schema, "lang", "datum"));
}

#[test]
fn a_crown_names_no_node_twice() {
    let schema = deep_schema();
    for (base, _) in &schema.0 {
        let crown = schema.find_crown(base);
        assert!(crown.contains(base));
        for (i, name) in crown.iter().enumerate() {
            assert!(schema.is_connected(base, name));
            assert!(!crown[..i].contains(name));
        }
        for (name, _) in &schema.0 {
            assert_eq!(crown.contains(name), schema.is_connected(base, name));
        }
    }
}
