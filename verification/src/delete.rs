//! Taking a value out of the dataset: which files to rewrite, and which rows
//! of a file stay.
use vstd::prelude::*;
use crate::assoc::find;
use crate::entry::Entry;
use crate::error::Error;
use crate::line::{Line, LineModel};
use crate::records::{lines_read, lines_written, read_lines, write_file};
use crate::lists::{lemma_filter_all, lemma_filter_order, origin};
use crate::schema::{leaves_of, trunks_of, Schema, SchemaModel};
use crate::select::strategy::{edge_file, edge_filename};
use crate::text::{same_text, text_lt};

verus! {

/// One file to rewrite: the rows that hold `trait_` in the column that
/// `trait_is_first` names are taken out of `filename`.
#[derive(Debug)]
pub struct Tablet {
    pub filename: String,
    pub trait_: String,
    pub trait_is_first: bool,
}

/// What a delete `Tablet` stands for.
pub ghost struct TabletModel {
    pub filename: Seq<char>,
    pub trait_: Seq<char>,
    pub trait_is_first: bool,
}

impl View for Tablet {
    type V = TabletModel;

    open spec fn view(&self) -> TabletModel {
        TabletModel {
            filename: self.filename@,
            trait_: self.trait_@,
            trait_is_first: self.trait_is_first,
        }
    }
}

impl Clone for Tablet {
    fn clone(&self) -> (r: Tablet)
        ensures
            r@ == self@,
    {
        Tablet {
            filename: self.filename.clone(),
            trait_: self.trait_.clone(),
            trait_is_first: self.trait_is_first,
        }
    }
}

impl DeepView for Tablet {
    type V = TabletModel;

    open spec fn deep_view(&self) -> TabletModel {
        self@
    }
}

/// The files that hold the value `value` of the node `base`: the file of
/// each of its trunks, where the value stands in the second column, then the
/// file of each of its leaves, where it stands in the first.
pub open spec fn delete_plan(s: SchemaModel, base: Seq<char>, value: Seq<char>) -> Seq<TabletModel> {
    let trunks = trunks_of(s, base);
    let leaves = leaves_of(s, base);
    Seq::new(
        trunks.len(),
        |k: int|
            TabletModel { filename: edge_file(trunks[k], base), trait_: value, trait_is_first: false },
    ) + Seq::new(
        leaves.len(),
        |k: int|
            TabletModel { filename: edge_file(base, leaves[k]), trait_: value, trait_is_first: true },
    )
}

/// Whether a row holds the value that a step takes out.
pub open spec fn refers(tablet: TabletModel, line: LineModel) -> bool {
    if tablet.trait_is_first {
        line.key == tablet.trait_
    } else {
        line.value == tablet.trait_
    }
}

/// The rows of a file that stay: those that do not hold the value, in their
/// order.
pub open spec fn kept(lines: Seq<LineModel>, tablet: TabletModel) -> Seq<LineModel> {
    lines.filter(|line: LineModel| !refers(tablet, line))
}

/// The files to rewrite so that the value of the query is gone: see
/// [`delete_plan`]. A query without a value is refused as malformed.
pub fn plan_delete(schema: &Schema, query: &Entry) -> (r: Result<Vec<Tablet>, Error>)
    ensures
        r is Ok <==> query@.base_value is Some,
        r matches Ok(plan) ==> plan.deep_view() == delete_plan(
            schema@,
            query@.base,
            query@.base_value->0,
        ),
        r matches Err(e) ==> e == Error::MalformedQuery,
{
    let value = match &query.base_value {
        None => {
            return Err(Error::MalformedQuery);
        },
        Some(v) => v,
    };
    let base = query.base.as_str();
    let ghost s = schema@;
    let ghost trunk_names = trunks_of(s, base@);
    let ghost leaf_names = leaves_of(s, base@);
    let mut out: Vec<Tablet> = Vec::new();
    let p = match find(&schema.0, base) {
        Some(p) => p,
        None => {
            assert(out.deep_view() =~= delete_plan(s, base@, value@));
            return Ok(out);
        },
    };
    let trunks = &schema.0[p].1.trunks.0;
    let leaves = &schema.0[p].1.leaves.0;
    let mut i: usize = 0;
    while i < trunks.len()
        invariant
            trunk_names == trunks.deep_view(),
            i <= trunks.len(),
            out.len() == i,
            forall|k: int|
                0 <= k < i ==> (#[trigger] out.deep_view()[k]) == (TabletModel {
                    filename: edge_file(trunk_names[k], base@),
                    trait_: value@,
                    trait_is_first: false,
                }),
        decreases trunks.len() - i,
    {
        let ghost before = out.deep_view();
        let tablet = Tablet {
            filename: edge_filename(trunks[i].as_str(), base),
            trait_: value.clone(),
            trait_is_first: false,
        };
        out.push(tablet);
        proof {
            assert(out.deep_view() =~= before.push(tablet@));
            assert(trunk_names[i as int] == trunks@[i as int]@);
        }
        i += 1;
    }
    let mut j: usize = 0;
    while j < leaves.len()
        invariant
            trunk_names == trunks.deep_view(),
            leaf_names == leaves.deep_view(),
            j <= leaves.len(),
            out.len() == trunks.len() + j,
            forall|k: int|
                0 <= k < trunks.len() ==> (#[trigger] out.deep_view()[k]) == (TabletModel {
                    filename: edge_file(trunk_names[k], base@),
                    trait_: value@,
                    trait_is_first: false,
                }),
            forall|k: int|
                trunks.len() <= k < out.len() ==> (#[trigger] out.deep_view()[k]) == (TabletModel {
                    filename: edge_file(base@, leaf_names[k - trunks.len()]),
                    trait_: value@,
                    trait_is_first: true,
                }),
        decreases leaves.len() - j,
    {
        let ghost before = out.deep_view();
        let tablet = Tablet {
            filename: edge_filename(base, leaves[j].as_str()),
            trait_: value.clone(),
            trait_is_first: true,
        };
        out.push(tablet);
        proof {
            assert(out.deep_view() =~= before.push(tablet@));
            assert(leaf_names[j as int] == leaves@[j as int]@);
        }
        j += 1;
    }
    assert(out.deep_view() =~= delete_plan(s, base@, value@));
    Ok(out)
}

/// The rows of a file that stay after a value was taken out: see [`kept`].
pub fn delete_lines(lines: &Vec<Line>, tablet: &Tablet) -> (r: Vec<Line>)
    ensures
        r.deep_view() == kept(lines.deep_view(), tablet@),
{
    let ghost all = lines.deep_view();
    let ghost pred = |line: LineModel| !refers(tablet@, line);
    let mut out: Vec<Line> = Vec::new();
    let mut i: usize = 0;
    proof {
        reveal(Seq::filter);
        assert(all.take(0) =~= Seq::<LineModel>::empty());
        assert(out.deep_view() =~= Seq::<LineModel>::empty());
    }
    while i < lines.len()
        invariant
            all == lines.deep_view(),
            pred == |line: LineModel| !refers(tablet@, line),
            i <= lines.len(),
            out.deep_view() == all.take(i as int).filter(pred),
        decreases lines.len() - i,
    {
        let line = &lines[i];
        proof {
            reveal(Seq::filter);
            assert(all.take(i + 1).drop_last() =~= all.take(i as int));
            assert(all.take(i + 1).last() == line@);
        }
        let trait_ = if tablet.trait_is_first {
            line.key.as_str()
        } else {
            line.value.as_str()
        };
        if !same_text(trait_, tablet.trait_.as_str()) {
            let ghost before = out.deep_view();
            out.push(Line { key: line.key.clone(), value: line.value.clone() });
            assert(out.deep_view() =~= before.push(line@));
        }
        i += 1;
    }
    assert(all.take(lines.len() as int) =~= all);
    out
}

/// What takes the place of the file of a step that has the content `bytes`:
/// the content with the rows that stay, or `None` where no row stays, so that
/// the file is to be removed. A file that cannot be read, or rows that cannot
/// be written, are refused.
pub fn delete_tablet(bytes: &[u8], tablet: &Tablet) -> (r: Result<Option<Vec<u8>>, Error>)
    ensures
        lines_read(bytes@, false) matches Err(e) ==> r == Err::<Option<Vec<u8>>, Error>(e),
        lines_read(bytes@, false) matches Ok(lines) ==> (if kept(lines, tablet@).len() == 0 {
            r matches Ok(None)
        } else {
            match lines_written(kept(lines, tablet@)) {
                Ok(b) => r matches Ok(Some(out)) && out@ == b,
                Err(e) => r matches Err(x) && x == e,
            }
        }),
{
    let lines = match read_lines(bytes, false) {
        Ok(lines) => lines,
        Err(e) => {
            return Err(e);
        },
    };
    let rest = delete_lines(&lines, tablet);
    write_file(&rest)
}

/// The rows of a file stand in the order of their first column.
pub open spec fn sorted_by_key(lines: Seq<LineModel>) -> bool {
    forall|i: int, j: int|
        0 <= i < j < lines.len() ==> !text_lt((#[trigger] lines[j]).key, (#[trigger] lines[i]).key)
}

/// Taking a value out of a file leaves every other row where it was.
///
/// The rows that stay are rows of the file, and none of them holds the
/// value; every row of the file that does not hold the value stays; a file
/// without the value stays as it is; and a file whose rows stand in the
/// order of their first column still does so.
pub proof fn lemma_delete_keeps_others(lines: Seq<LineModel>, tablet: TabletModel)
    ensures
        forall|row: LineModel|
            kept(lines, tablet).contains(row) <==> lines.contains(row) && !refers(tablet, row),
        (forall|i: int| 0 <= i < lines.len() ==> !refers(tablet, #[trigger] lines[i])) ==> kept(
            lines,
            tablet,
        ) == lines,
        sorted_by_key(lines) ==> sorted_by_key(kept(lines, tablet)),
{
    let pred = |line: LineModel| !refers(tablet, line);
    let rows = kept(lines, tablet);
    lemma_filter_order(lines, pred);
    #[allow(deprecated)]
    lines.filter_lemma(pred);
    assert forall|row: LineModel| rows.contains(row) implies lines.contains(row) && !refers(
        tablet,
        row,
    ) by {
        let i = choose|i: int| 0 <= i < rows.len() && rows[i] == row;
        assert(lines[origin(lines, pred, i)] == row);
        assert(pred(rows[i]));
    }
    assert forall|row: LineModel| lines.contains(row) && !refers(tablet, row) implies rows.contains(
        row,
    ) by {
        let i = choose|i: int| 0 <= i < lines.len() && lines[i] == row;
        assert(pred(lines[i]));
    }
    if forall|i: int| 0 <= i < lines.len() ==> !refers(tablet, #[trigger] lines[i]) {
        lemma_filter_all(lines, pred);
    }
    if sorted_by_key(lines) {
        assert forall|i: int, j: int| 0 <= i < j < rows.len() implies !text_lt(
            (#[trigger] rows[j]).key,
            (#[trigger] rows[i]).key,
        ) by {
            let a = origin(lines, pred, i);
            let b = origin(lines, pred, j);
            assert(lines[a] == rows[i] && lines[b] == rows[j]);
            assert(a < b);
        }
    }
}

} // verus!
