use csvs::records::{lines_from_records, read_lines, records_from_lines, write_lines};
use csvs::{Error, Line};

fn lines(rows: &[(&str, &str)]) -> Vec<Line> {
    rows.iter().map(|(k, v)| Line { key: (*k).to_owned(), value: (*v).to_owned() }).collect()
}

fn rows(lines: &[Line]) -> Vec<(String, String)> {
    lines.iter().map(|l| (l.key.clone(), l.value.clone())).collect()
}

#[test]
fn read_lines_takes_each_record_as_a_row() {
    let got = read_lines(b"d1,n1\nd2,n2\n", true).unwrap();
    assert_eq!(rows(&got), rows(&lines(&[("d1", "n1"), ("d2", "n2")])));
    assert!(read_lines(b"", true).unwrap().is_empty());
    assert!(read_lines(b"", false).unwrap().is_empty());
}

#[test]
fn read_lines_fills_in_missing_columns() {
    let got = read_lines(b"d1,n1\nd2\nd3,n3,more\n", true).unwrap();
    assert_eq!(rows(&got), rows(&lines(&[("d1", "n1"), ("d2", ""), ("d3", "n3")])));
}

#[test]
fn read_lines_knows_quoted_fields() {
    let got = read_lines(b"\"a,b\",\"say \"\"hi\"\"\"\n\"two\nlines\",x\n", true).unwrap();
    assert_eq!(rows(&got), rows(&lines(&[("a,b", "say \"hi\""), ("two\nlines", "x")])));
}

#[test]
fn read_lines_refuses_what_is_no_text() {
    assert_eq!(read_lines(b"d1,\xff\xfe\n", true).err(), Some(Error::CsvFormatError));
}

#[test]
fn read_lines_refuses_uneven_records_unless_flexible() {
    assert_eq!(read_lines(b"d1,n1\nd2\n", false).err(), Some(Error::CsvFormatError));
    assert_eq!(read_lines(b"d1,n1\nd2,n2\n", false).map(|l| l.len()), Ok(2));
}

#[test]
fn write_lines_writes_one_record_for_each_row() {
    let got = write_lines(&lines(&[("d1", "n1"), ("a,b", ""), ("say \"hi\"", "x")])).unwrap();
    assert_eq!(String::from_utf8(got).unwrap(), "d1,n1\n\"a,b\",\n\"say \"\"hi\"\"\",x\n");
    assert!(write_lines(&vec![]).unwrap().is_empty());
}

#[test]
fn what_was_written_is_read_back() {
    let given = lines(&[("d1", "n1"), ("", ""), ("a,b", "c\nd"), ("é", "\"")]);
    let back = read_lines(&write_lines(&given).unwrap(), true).unwrap();
    assert_eq!(rows(&back), rows(&given));
}

#[test]
fn records_and_rows_stand_for_each_other() {
    let records = vec![vec!["a".to_owned(), "b".to_owned(), "c".to_owned()], vec![]];
    assert_eq!(rows(&lines_from_records(&records)), rows(&lines(&[("a", "b"), ("", "")])));
    let given = lines(&[("a", "b")]);
    assert_eq!(records_from_lines(&given), vec![vec!["a".to_owned(), "b".to_owned()]]);
}

#[test]
fn a_dataset_reads_its_files_from_bytes() {
    let mut dataset = csvs::Dataset::new();
    dataset.read_file("_-_.csv".to_owned(), b"datum,name\n").unwrap();
    dataset.read_file("datum-name.csv".to_owned(), b"d1,n1\nd2\n").unwrap();
    assert_eq!(dataset.read_file("datum-date.csv".to_owned(), b"\xff").err(), Some(Error::CsvFormatError));
    assert_eq!(dataset.files.len(), 2);
    assert_eq!(rows(&dataset.files[1].1), rows(&lines(&[("d1", "n1"), ("d2", "")])));
    dataset.read_file("datum-name.csv".to_owned(), b"d3,n3\n").unwrap();
    assert_eq!(dataset.files.len(), 2);
    assert_eq!(rows(&dataset.files[1].1), rows(&lines(&[("d3", "n3")])));
}
