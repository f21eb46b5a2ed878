use csvs::delete::{delete_lines, delete_tablet, plan_delete};
use csvs::insert::{insert_file, insert_lines, plan_insert};
use csvs::records::write_file;
use csvs::update::{
    merge_lines, plan_update, update_file, update_line_stream, update_schema_line_stream, update_tablet,
};
use csvs::{Branch, Entry, Error, Grain, Leaves, Line, Schema, Trunks};

fn names(list: &[&str]) -> Vec<String> {
    list.iter().map(|s| (*s).to_owned()).collect()
}

fn branch(trunks: &[&str], leaves: &[&str]) -> Branch {
    Branch { trunks: Trunks(names(trunks)), leaves: Leaves(names(leaves)) }
}

fn schema() -> Schema {
    Schema(vec![
        ("datum".to_owned(), branch(&["set"], &["date", "name"])),
        ("date".to_owned(), branch(&["datum"], &[])),
        ("name".to_owned(), branch(&["datum"], &["lang"])),
        ("lang".to_owned(), branch(&["name"], &[])),
        ("set".to_owned(), branch(&[], &["datum"])),
    ])
}

fn node(base: &str, value: Option<&str>, leaves: Vec<(&str, Vec<Entry>)>) -> Entry {
    Entry {
        base: base.to_owned(),
        base_value: value.map(|v| v.to_owned()),
        leader_value: None,
        leaves: leaves.into_iter().map(|(k, v)| (k.to_owned(), v)).collect(),
    }
}

fn lines(rows: &[(&str, &str)]) -> Vec<Line> {
    rows.iter().map(|(k, v)| Line { key: (*k).to_owned(), value: (*v).to_owned() }).collect()
}

fn rows(lines: &[Line]) -> Vec<(String, String)> {
    lines.iter().map(|l| (l.key.clone(), l.value.clone())).collect()
}

fn pairs(rows: &[(&str, &str)]) -> Vec<(String, String)> {
    rows.iter().map(|(k, v)| ((*k).to_owned(), (*v).to_owned())).collect()
}

#[test]
fn plan_delete_names_every_file_of_the_base() {
    let plan = plan_delete(&schema(), &node("datum", Some("d1"), vec![])).unwrap();
    let shown: Vec<(String, String, bool)> =
        plan.iter().map(|t| (t.filename.clone(), t.trait_.clone(), t.trait_is_first)).collect();
    assert_eq!(
        shown,
        vec![
            ("set-datum.csv".to_owned(), "d1".to_owned(), false),
            ("datum-date.csv".to_owned(), "d1".to_owned(), true),
            ("datum-name.csv".to_owned(), "d1".to_owned(), true),
        ]
    );
    assert_eq!(plan_delete(&schema(), &node("datum", None, vec![])).err(), Some(Error::MalformedQuery));
    assert!(plan_delete(&schema(), &node("nowhere", Some("x"), vec![])).unwrap().is_empty());
}

#[test]
fn delete_lines_takes_out_the_value_and_nothing_else() {
    let plan = plan_delete(&schema(), &node("datum", Some("d1"), vec![])).unwrap();
    let file = lines(&[("d0", "a"), ("d1", "b"), ("d1", "c"), ("d2", "d1"), ("d3", "e")]);
    assert_eq!(rows(&delete_lines(&file, &plan[1])), pairs(&[("d0", "a"), ("d2", "d1"), ("d3", "e")]));
    assert_eq!(
        rows(&delete_lines(&file, &plan[0])),
        pairs(&[("d0", "a"), ("d1", "b"), ("d1", "c"), ("d3", "e")])
    );
    let only = lines(&[("d1", "b")]);
    assert!(delete_lines(&only, &plan[1]).is_empty());
    let other = lines(&[("d5", "b"), ("d6", "c")]);
    assert_eq!(rows(&delete_lines(&other, &plan[1])), rows(&other));
}

#[test]
fn plan_insert_names_every_edge_of_the_crown() {
    let plan = plan_insert(&schema(), &node("datum", Some("d1"), vec![])).unwrap();
    let shown: Vec<(String, String, String)> =
        plan.iter().map(|t| (t.filename.clone(), t.trunk.clone(), t.branch.clone())).collect();
    assert_eq!(
        shown,
        vec![
            ("set-datum.csv".to_owned(), "set".to_owned(), "datum".to_owned()),
            ("datum-date.csv".to_owned(), "datum".to_owned(), "date".to_owned()),
            ("datum-name.csv".to_owned(), "datum".to_owned(), "name".to_owned()),
            ("name-lang.csv".to_owned(), "name".to_owned(), "lang".to_owned()),
        ]
    );
}

fn full() -> Entry {
    node(
        "datum",
        Some("d1"),
        vec![
            (
                "name",
                vec![
                    node("name", Some("n2"), vec![("lang", vec![node("lang", Some("fr"), vec![])])]),
                    node("name", Some("n1"), vec![]),
                ],
            ),
            ("date", vec![node("date", None, vec![])]),
        ],
    )
}

#[test]
fn insert_lines_writes_the_facts_that_hold_a_value() {
    let plan = plan_insert(&schema(), &full()).unwrap();
    assert!(insert_lines(&full(), &plan[0]).is_empty());
    assert!(insert_lines(&full(), &plan[1]).is_empty());
    assert_eq!(rows(&insert_lines(&full(), &plan[2])), pairs(&[("d1", "n2"), ("d1", "n1")]));
    assert_eq!(rows(&insert_lines(&full(), &plan[3])), pairs(&[("n2", "fr")]));
}

#[test]
fn plan_update_rewrites_the_schema_file_for_the_schema() {
    let plan = plan_update(&schema(), &node("_", Some("_"), vec![]));
    assert_eq!(plan.len(), 1);
    assert_eq!(plan[0].filename, "_-_.csv");
    assert_eq!(plan[0].trunk, "_");
    assert_eq!(plan[0].branch, "_");
    let plan = plan_update(&schema(), &node("name", None, vec![]));
    let files: Vec<String> = plan.iter().map(|t| t.filename.clone()).collect();
    assert_eq!(files, names(&["datum-name.csv", "name-lang.csv"]));
}

#[test]
fn update_schema_lines_come_in_order() {
    let record = node(
        "_",
        Some("_"),
        vec![
            ("name", vec![node("name", Some("lang"), vec![])]),
            (
                "datum",
                vec![
                    node("datum", Some("name"), vec![]),
                    node("datum", None, vec![]),
                    node("datum", Some("date"), vec![]),
                    node("d", Some("zzz"), vec![]),
                ],
            ),
        ],
    );
    assert_eq!(
        rows(&update_schema_line_stream(&record)),
        pairs(&[("datum", "zzz"), ("datum", ""), ("datum", "date"), ("datum", "name"), ("name", "lang")])
    );
}

#[test]
fn update_lines_replace_the_rows_of_their_keys() {
    let plan = plan_update(&schema(), &full());
    let file = lines(&[("d0", "a"), ("d1", "old"), ("d1", "older"), ("d2", "b")]);
    assert_eq!(
        rows(&update_line_stream(&file, &full(), &plan[2])),
        pairs(&[("d0", "a"), ("d1", "n1"), ("d1", "n2"), ("d2", "b")])
    );
    let file = lines(&[("d0", "a"), ("d2", "b")]);
    assert_eq!(
        rows(&update_line_stream(&file, &full(), &plan[2])),
        pairs(&[("d0", "a"), ("d1", "n1"), ("d1", "n2"), ("d2", "b")])
    );
    let file = lines(&[("d0", "a")]);
    assert_eq!(
        rows(&update_line_stream(&file, &full(), &plan[2])),
        pairs(&[("d0", "a"), ("d1", "n1"), ("d1", "n2")])
    );
    assert_eq!(rows(&update_line_stream(&vec![], &full(), &plan[2])), pairs(&[("d1", "n1"), ("d1", "n2")]));
    let file = lines(&[("d1", "old")]);
    assert_eq!(rows(&update_line_stream(&file, &full(), &plan[1])), pairs(&[]));
}

#[test]
fn merge_lines_takes_keys_in_order() {
    let grain = |base: &str, leaf: Option<&str>| Grain {
        base: "datum".to_owned(),
        base_value: Some(base.to_owned()),
        leaf: "name".to_owned(),
        leaf_value: leaf.map(|l| l.to_owned()),
    };
    let grains = vec![grain("k3", Some("b")), grain("k1", Some("z")), grain("k3", Some("a")), grain("k5", None)];
    let file = lines(&[("k0", "x"), ("k2", "y"), ("k3", "old"), ("k4", "w"), ("k5", "gone")]);
    assert_eq!(
        rows(&merge_lines(&file, &grains)),
        pairs(&[("k0", "x"), ("k1", "z"), ("k2", "y"), ("k3", "a"), ("k3", "b"), ("k4", "w")])
    );
}

#[test]
fn update_tablet_tells_the_schema_file_from_the_others() {
    let record = node("_", Some("_"), vec![("datum", vec![node("datum", Some("name"), vec![])])]);
    let plan = plan_update(&schema(), &record);
    let old = lines(&[("datum", "date")]);
    assert_eq!(rows(&update_tablet(&old, &record, &plan[0])), pairs(&[("datum", "name")]));
    let plan = plan_update(&schema(), &full());
    let file = lines(&[("d0", "a"), ("d1", "old")]);
    assert_eq!(
        rows(&update_tablet(&file, &full(), &plan[2])),
        pairs(&[("d0", "a"), ("d1", "n1"), ("d1", "n2")])
    );
}

#[test]
fn delete_tablet_gives_the_file_without_the_value() {
    let plan = plan_delete(&schema(), &node("datum", Some("d1"), vec![])).unwrap();
    let got = delete_tablet(b"d0,a\nd1,b\nd1,c\nd2,d1\n", &plan[1]).unwrap();
    assert_eq!(got, Some(b"d0,a\nd2,d1\n".to_vec()));
    let got = delete_tablet(b"d0,a\nd1,b\nd1,c\nd2,d1\n", &plan[0]).unwrap();
    assert_eq!(got, Some(b"d0,a\nd1,b\nd1,c\n".to_vec()));
    let got = delete_tablet(b"d5,\"b,c\"\n", &plan[1]).unwrap();
    assert_eq!(got, Some(b"d5,\"b,c\"\n".to_vec()));
}

#[test]
fn delete_tablet_leaves_no_file_where_no_row_stays() {
    let plan = plan_delete(&schema(), &node("datum", Some("d1"), vec![])).unwrap();
    assert_eq!(delete_tablet(b"d1,b\nd1,c\n", &plan[1]), Ok(None));
    assert_eq!(delete_tablet(b"", &plan[1]), Ok(None));
}

#[test]
fn delete_tablet_refuses_a_file_with_uneven_records() {
    let plan = plan_delete(&schema(), &node("datum", Some("d1"), vec![])).unwrap();
    assert_eq!(delete_tablet(b"d0,a\nd1\n", &plan[1]), Err(Error::CsvFormatError));
    assert_eq!(delete_tablet(&[0xff, 0xfe, b'\n'], &plan[1]), Err(Error::CsvFormatError));
}

#[test]
fn write_file_gives_no_file_for_no_rows() {
    assert_eq!(write_file(&vec![]), Ok(None));
    assert_eq!(write_file(&lines(&[("d1", "n1"), ("d2", "a b")])), Ok(Some(b"d1,n1\nd2,a b\n".to_vec())));
}

#[test]
fn update_file_merges_the_rows_of_the_entry() {
    let plan = plan_update(&schema(), &full());
    let got = update_file(b"d0,a\nd1,old\n", &full(), &plan[2]).unwrap();
    assert_eq!(got, Some(b"d0,a\nd1,n1\nd1,n2\n".to_vec()));
    let got = update_file(b"", &full(), &plan[2]).unwrap();
    assert_eq!(got, Some(b"d1,n1\nd1,n2\n".to_vec()));
    let got = update_file(b"d0,a\nd1\n", &full(), &plan[2]).unwrap();
    assert_eq!(got, Some(b"d0,a\nd1,n1\nd1,n2\n".to_vec()));
    assert_eq!(update_file(&[0xff, b'\n'], &full(), &plan[2]), Err(Error::CsvFormatError));
}

#[test]
fn update_file_leaves_no_file_where_no_row_is_left() {
    let plan = plan_update(&schema(), &full());
    assert_eq!(update_file(b"d1,old\n", &full(), &plan[1]), Ok(None));
    assert_eq!(update_file(b"", &full(), &plan[1]), Ok(None));
    assert_eq!(update_file(b"d0,a\nd1,old\n", &full(), &plan[1]), Ok(Some(b"d0,a\n".to_vec())));
}

#[test]
fn update_file_writes_the_schema_file_from_the_record() {
    let record = node("_", Some("_"), vec![("datum", vec![node("datum", Some("name"), vec![])])]);
    let plan = plan_update(&schema(), &record);
    assert_eq!(update_file(b"datum,date\n", &record, &plan[0]), Ok(Some(b"datum,name\n".to_vec())));
    assert_eq!(update_file(&[0xff, b'\n'], &record, &plan[0]), Ok(Some(b"datum,name\n".to_vec())));
    let empty = node("_", Some("_"), vec![]);
    assert_eq!(update_file(b"datum,date\n", &empty, &plan[0]), Ok(None));
}

#[test]
fn insert_file_writes_the_rows_behind_the_file() {
    let plan = plan_insert(&schema(), &full()).unwrap();
    assert_eq!(insert_file(b"d0,a\n", &full(), &plan[2]), Ok(Some(b"d0,a\nd1,n2\nd1,n1\n".to_vec())));
    assert_eq!(insert_file(b"", &full(), &plan[3]), Ok(Some(b"n2,fr\n".to_vec())));
    assert_eq!(insert_file(b"d0,a\n", &full(), &plan[1]), Ok(Some(b"d0,a\n".to_vec())));
    assert_eq!(insert_file(b"", &full(), &plan[1]), Ok(None));
}
