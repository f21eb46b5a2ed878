//! One row of an edge file.
use vstd::prelude::*;

verus! {

/// A row of an edge file: its first column and its second. What the two
/// columns mean depends on the step that reads them.
#[derive(Debug)]
pub struct Line {
    pub key: String,
    pub value: String,
}

/// What a `Line` stands for.
pub ghost struct LineModel {
    pub key: Seq<char>,
    pub value: Seq<char>,
}

impl View for Line {
    type V = LineModel;

    open spec fn view(&self) -> LineModel {
        LineModel { key: self.key@, value: self.value@ }
    }
}

impl DeepView for Line {
    type V = LineModel;

    open spec fn deep_view(&self) -> LineModel {
        self@
    }
}

/// The row that the fields of a record stand for: the first field and the
/// second, each empty where the record has no such field.
pub open spec fn line_of(fields: Seq<Seq<char>>) -> LineModel {
    LineModel {
        key: if fields.len() > 0 {
            fields[0]
        } else {
            Seq::empty()
        },
        value: if fields.len() > 1 {
            fields[1]
        } else {
            Seq::empty()
        },
    }
}

impl Line {
    /// The row that the fields of a record stand for: see [`line_of`].
    pub fn from_fields(fields: &Vec<String>) -> (r: Line)
        ensures
            r@ == line_of(fields.deep_view()),
    {
        let key = if fields.len() > 0 {
            fields[0].clone()
        } else {
            String::new()
        };
        let value = if fields.len() > 1 {
            fields[1].clone()
        } else {
            String::new()
        };
        Line { key, value }
    }
}

impl Clone for Line {
    fn clone(&self) -> (r: Line)
        ensures
            r@ == self@,
    {
        Line { key: self.key.clone(), value: self.value.clone() }
    }
}

} // verus!
