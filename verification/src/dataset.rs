//! A dataset: its edge files by name.
use vstd::prelude::*;
use crate::assoc::{bind, keys_distinct, lemma_put_distinct, lookup, put};
use crate::entry::Entry;
use crate::error::Error;
use crate::line::{Line, LineModel};
use crate::records::{lines_read, read_lines};
use crate::schema::Schema;
use crate::select::{selected, selected_records, selected_schema, selected_schema_entries};

verus! {

/// The edge files of a dataset, each with its name and its rows in the order
/// of the file. A file that is not listed is an empty file.
#[derive(Debug)]
pub struct Dataset {
    pub files: Vec<(String, Vec<Line>)>,
}

/// What a `Dataset` stands for.
pub type DatasetModel = Seq<(Seq<char>, Seq<LineModel>)>;

/// A copy of the rows of a file.
fn copy_lines(lines: &Vec<Line>) -> (r: Vec<Line>)
    ensures
        r.deep_view() == lines.deep_view(),
{
    let mut out: Vec<Line> = Vec::new();
    let mut i: usize = 0;
    while i < lines.len()
        invariant
            i <= lines.len(),
            out.len() == i,
            forall|k: int| 0 <= k < i ==> (#[trigger] out@[k])@ == lines@[k]@,
        decreases lines.len() - i,
    {
        out.push(lines[i].clone());
        i += 1;
    }
    assert(out.deep_view() =~= lines.deep_view());
    out
}

impl Clone for Dataset {
    fn clone(&self) -> (r: Dataset)
        ensures
            r@ == self@,
    {
        let mut files: Vec<(String, Vec<Line>)> = Vec::new();
        let mut i: usize = 0;
        while i < self.files.len()
            invariant
                i <= self.files.len(),
                files.len() == i,
                forall|k: int|
                    0 <= k < i ==> (#[trigger] files.deep_view()[k]) == self.files.deep_view()[k],
            decreases self.files.len() - i,
        {
            let ghost before = files.deep_view();
            let file = (self.files[i].0.clone(), copy_lines(&self.files[i].1));
            files.push(file);
            assert(files.deep_view() =~= before.push(self.files.deep_view()[i as int]));
            i += 1;
        }
        assert(files.deep_view() =~= self.files.deep_view());
        Dataset { files }
    }
}

impl View for Dataset {
    type V = DatasetModel;

    open spec fn view(&self) -> DatasetModel {
        self.files.deep_view()
    }
}

/// The rows of the file `name`; none where the dataset has no such file.
pub open spec fn lines_of(d: DatasetModel, name: Seq<char>) -> Seq<LineModel> {
    match lookup(d, name) {
        Some(lines) => lines,
        None => Seq::empty(),
    }
}

impl Dataset {
    /// A dataset without files.
    pub fn new() -> (r: Dataset)
        ensures
            r@ == Seq::<(Seq<char>, Seq<LineModel>)>::empty(),
    {
        let r = Dataset { files: Vec::new() };
        assert(r@ =~= Seq::<(Seq<char>, Seq<LineModel>)>::empty());
        r
    }

    /// Puts the file `name` with the rows `lines` into the dataset, in place
    /// of a file of that name where there is one.
    pub fn insert(&mut self, name: String, lines: Vec<Line>)
        ensures
            final(self)@ == put(old(self)@, name@, lines.deep_view()),
            keys_distinct(old(self)@) ==> keys_distinct(final(self)@),
    {
        proof {
            if keys_distinct(self@) {
                lemma_put_distinct(self@, name@, lines.deep_view());
            }
        }
        bind(&mut self.files, name, lines);
    }

    /// Puts the file `name` with the content `bytes` into the dataset: its
    /// rows are read as comma separated values that may differ in their
    /// number of fields. Content that cannot be read so is refused, and the
    /// dataset stays as it is.
    pub fn read_file(&mut self, name: String, bytes: &[u8]) -> (r: Result<(), Error>)
        ensures
            r is Ok ==> lines_read(bytes@, true) is Ok && final(self)@ == put(
                old(self)@,
                name@,
                lines_read(bytes@, true)->Ok_0,
            ),
            r matches Err(e) ==> lines_read(bytes@, true) == Err::<Seq<LineModel>, Error>(e)
                && final(self)@ == old(self)@,
    {
        match read_lines(bytes, true) {
            Ok(lines) => {
                self.insert(name, lines);
                Ok(())
            },
            Err(e) => Err(e),
        }
    }

    /// The answer to a query for the schema: the record of the schema.
    pub fn select_schema_stream(&self, query: &Entry) -> (r: Result<Vec<Entry>, Error>)
        ensures
            r matches Ok(out) ==> selected_schema_entries(self@, query@) == Ok::<_, Error>(
                out.deep_view(),
            ),
            r matches Err(e) ==> selected_schema_entries(self@, query@) == Err::<
                Seq<crate::entry::EntryModel>,
                Error,
            >(e),
    {
        crate::select::select_schema_stream(self, query)
    }

    /// The answer to one query.
    pub fn select_record_stream(&self, query: &Entry) -> (r: Result<Vec<Entry>, Error>)
        ensures
            r matches Ok(out) ==> selected(self@, query@) == Ok::<_, Error>(out.deep_view()),
            r matches Err(e) ==> selected(self@, query@) == Err::<
                Seq<crate::entry::EntryModel>,
                Error,
            >(e),
    {
        crate::select::select_record_stream(self, query)
    }

    /// The schema of the dataset, read from its schema file. In it no name
    /// stands twice.
    pub fn select_schema(&self) -> (r: Result<Schema, Error>)
        ensures
            r matches Ok(s) ==> selected_schema(self@) == Ok::<_, Error>(s@),
            r matches Ok(s) ==> keys_distinct(s@) && crate::schema::is_connected::mutual(s@),
            r matches Err(e) ==> selected_schema(self@) == Err::<crate::schema::SchemaModel, Error>(e),
    {
        crate::select::select_schema(self)
    }

    /// The answers to the queries, query after query.
    pub fn select_record(&self, query: Vec<Entry>) -> (r: Result<Vec<Entry>, Error>)
        ensures
            r matches Ok(out) ==> selected_records(self@, query.deep_view()) == Ok::<_, Error>(
                out.deep_view(),
            ),
            r matches Err(e) ==> selected_records(self@, query.deep_view()) == Err::<
                Seq<crate::entry::EntryModel>,
                Error,
            >(e),
    {
        crate::select::select_record(self, query)
    }
}

} // verus!
