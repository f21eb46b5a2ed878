//! Adding an entry to the dataset: which files to add to, and which rows.
use vstd::prelude::*;
use crate::assoc::find;
use crate::entry::mow::{mow, mown};
use crate::entry::Entry;
use crate::error::Error;
use crate::grain::GrainModel;
use crate::line::{Line, LineModel};
use crate::records::{lines_written, write_lines};
use crate::schema::find_crown::{crown, find_crown};
use crate::schema::{trunks_of, Schema, SchemaModel};
use crate::select::strategy::{edge_file, edge_filename};

verus! {

/// One file to add to: the edges from `trunk` down to `branch`.
#[derive(Debug)]
pub struct Tablet {
    pub filename: String,
    pub trunk: String,
    pub branch: String,
}

/// What an insert `Tablet` stands for.
pub ghost struct TabletModel {
    pub filename: Seq<char>,
    pub trunk: Seq<char>,
    pub branch: Seq<char>,
}

impl View for Tablet {
    type V = TabletModel;

    open spec fn view(&self) -> TabletModel {
        TabletModel { filename: self.filename@, trunk: self.trunk@, branch: self.branch@ }
    }
}

impl Clone for Tablet {
    fn clone(&self) -> (r: Tablet)
        ensures
            r@ == self@,
    {
        Tablet {
            filename: self.filename.clone(),
            trunk: self.trunk.clone(),
            branch: self.branch.clone(),
        }
    }
}

impl DeepView for Tablet {
    type V = TabletModel;

    open spec fn deep_view(&self) -> TabletModel {
        self@
    }
}

/// The step for the edge from `trunk` down to `branch`.
pub open spec fn edge_step(trunk: Seq<char>, branch: Seq<char>) -> TabletModel {
    TabletModel { filename: edge_file(trunk, branch), trunk, branch }
}

/// One step for each trunk of each of `branches`, in their order.
pub open spec fn edge_steps(s: SchemaModel, branches: Seq<Seq<char>>) -> Seq<TabletModel>
    decreases branches.len(),
{
    if branches.len() == 0 {
        Seq::empty()
    } else {
        let branch = branches.last();
        let trunks = trunks_of(s, branch);
        edge_steps(s, branches.drop_last()) + Seq::new(
            trunks.len(),
            |k: int| edge_step(trunks[k], branch),
        )
    }
}

/// The files that an entry rooted at `base` adds to: the file of each edge
/// that leads to a node at or below `base`.
pub open spec fn insert_plan(s: SchemaModel, base: Seq<char>) -> Seq<TabletModel> {
    edge_steps(s, crown(s, base))
}

/// The row that a grain stands for: its base value, empty where it has none,
/// and its leaf value.
pub open spec fn row_of(g: GrainModel) -> LineModel {
    LineModel {
        key: match g.base_value {
            Some(v) => v,
            None => Seq::empty(),
        },
        value: match g.leaf_value {
            Some(v) => v,
            None => Seq::empty(),
        },
    }
}

/// The rows that `grains` stand for: one for each grain with a leaf value.
pub open spec fn rows_of(grains: Seq<GrainModel>) -> Seq<LineModel> {
    grains.filter(|g: GrainModel| g.leaf_value is Some).map_values(|g: GrainModel| row_of(g))
}

/// One step for each trunk of each of `branches`: see [`edge_steps`].
pub fn plan_edges(schema: &Schema, branches: &Vec<String>) -> (r: Vec<Tablet>)
    ensures
        r.deep_view() == edge_steps(schema@, branches.deep_view()),
{
    let ghost s = schema@;
    let ghost names = branches.deep_view();
    let mut out: Vec<Tablet> = Vec::new();
    let mut i: usize = 0;
    proof {
        assert(names.take(0) =~= Seq::<Seq<char>>::empty());
        assert(out.deep_view() =~= Seq::<TabletModel>::empty());
    }
    while i < branches.len()
        invariant
            s == schema@,
            names == branches.deep_view(),
            i <= branches.len(),
            out.deep_view() == edge_steps(s, names.take(i as int)),
        decreases branches.len() - i,
    {
        let branch = &branches[i];
        proof {
            assert(names.take(i + 1).drop_last() =~= names.take(i as int));
            assert(names.take(i + 1).last() == branch@);
        }
        let ghost start = out.deep_view();
        let ghost trunk_names = trunks_of(s, branch@);
        match find(&schema.0, branch.as_str()) {
            None => {
                assert(start + Seq::new(
                    trunk_names.len(),
                    |k: int| edge_step(trunk_names[k], branch@),
                ) =~= start);
            },
            Some(p) => {
                let trunks = &schema.0[p].1.trunks.0;
                let mut j: usize = 0;
                while j < trunks.len()
                    invariant
                        trunk_names == trunks.deep_view(),
                        j <= trunks.len(),
                        out.len() == start.len() + j,
                        forall|k: int|
                            0 <= k < start.len() ==> (#[trigger] out.deep_view()[k]) == start[k],
                        forall|k: int|
                            start.len() <= k < out.len() ==> (#[trigger] out.deep_view()[k])
                                == edge_step(trunk_names[k - start.len()], branch@),
                    decreases trunks.len() - j,
                {
                    let trunk = &trunks[j];
                    let ghost before = out.deep_view();
                    let tablet = Tablet {
                        filename: edge_filename(trunk.as_str(), branch.as_str()),
                        trunk: trunk.clone(),
                        branch: branch.clone(),
                    };
                    out.push(tablet);
                    proof {
                        assert(out.deep_view() =~= before.push(tablet@));
                        assert(trunk_names[j as int] == trunk@);
                    }
                    j += 1;
                }
                assert(out.deep_view() =~= start + Seq::new(
                    trunk_names.len(),
                    |k: int| edge_step(trunk_names[k], branch@),
                ));
            },
        }
        i += 1;
    }
    assert(names.take(branches.len() as int) =~= names);
    out
}

/// The files that the entry `query` adds to: see [`insert_plan`].
pub fn plan_insert(schema: &Schema, query: &Entry) -> (r: Result<Vec<Tablet>, Error>)
    ensures
        r matches Ok(plan) && plan.deep_view() == insert_plan(schema@, query@.base),
{
    let crown = find_crown(schema, query.base.as_str());
    Ok(plan_edges(schema, &crown))
}

/// The rows that `grains` stand for: see [`rows_of`].
pub fn grain_lines(grains: &Vec<crate::grain::Grain>) -> (r: Vec<Line>)
    ensures
        r.deep_view() == rows_of(grains.deep_view()),
{
    let ghost all = grains.deep_view();
    let ghost pred = |g: GrainModel| g.leaf_value is Some;
    let ghost row = |g: GrainModel| row_of(g);
    let mut out: Vec<Line> = Vec::new();
    let mut i: usize = 0;
    proof {
        reveal(Seq::filter);
        assert(all.take(0) =~= Seq::<GrainModel>::empty());
        assert(out.deep_view() =~= all.take(0).filter(pred).map_values(row));
    }
    while i < grains.len()
        invariant
            all == grains.deep_view(),
            pred == |g: GrainModel| g.leaf_value is Some,
            row == |g: GrainModel| row_of(g),
            i <= grains.len(),
            out.deep_view() == all.take(i as int).filter(pred).map_values(row),
        decreases grains.len() - i,
    {
        let grain = &grains[i];
        proof {
            reveal(Seq::filter);
            assert(all.take(i + 1).drop_last() =~= all.take(i as int));
            assert(all.take(i + 1).last() == grain@);
        }
        match &grain.leaf_value {
            Some(value) => {
                let ghost before = out.deep_view();
                let key = match &grain.base_value {
                    Some(v) => v.clone(),
                    None => String::new(),
                };
                let line = Line { key, value: value.clone() };
                out.push(line);
                assert(out.deep_view() =~= before.push(row_of(grain@)));
                assert(all.take(i + 1).filter(pred).map_values(row) =~= all.take(i as int).filter(
                    pred,
                ).map_values(row).push(row_of(grain@)));
            },
            None => {},
        }
        i += 1;
    }
    assert(all.take(grains.len() as int) =~= all);
    out
}

/// The rows that `entry` adds to the file of a step: one for each of its
/// facts for the step's edge that holds a leaf value.
pub fn insert_lines(entry: &Entry, tablet: &Tablet) -> (r: Vec<Line>)
    ensures
        r.deep_view() == rows_of(mown(entry@, tablet@.trunk, tablet@.branch)),
{
    let grains = mow(entry, tablet.trunk.as_str(), tablet.branch.as_str());
    grain_lines(&grains)
}

/// What takes the place of the file of a step that has the content `bytes`
/// after `e` was added: the content with the rows of `e` for the step written
/// behind it, or `None` where that is empty, so that no file is left. The
/// rows stand at the end, not yet in their order. Rows that cannot be written
/// are refused.
pub open spec fn inserted_file(bytes: Seq<u8>, e: crate::entry::EntryModel, tablet: TabletModel) -> Result<
    Option<Seq<u8>>,
    Error,
> {
    match lines_written(rows_of(mown(e, tablet.trunk, tablet.branch))) {
        Ok(added) => if bytes.len() == 0 && added.len() == 0 {
            Ok(None)
        } else {
            Ok(Some(bytes + added))
        },
        Err(e) => Err(e),
    }
}

/// What takes the place of the file of a step after `entry` was added: see
/// [`inserted_file`].
pub fn insert_file(bytes: &[u8], entry: &Entry, tablet: &Tablet) -> (r: Result<
    Option<Vec<u8>>,
    Error,
>)
    ensures
        (match inserted_file(bytes@, entry@, tablet@) {
            Ok(None) => r matches Ok(None),
            Ok(Some(b)) => r matches Ok(Some(out)) && out@ == b,
            Err(e) => r matches Err(x) && x == e,
        }),
{
    let added = match write_lines(&insert_lines(entry, tablet)) {
        Ok(added) => added,
        Err(e) => {
            return Err(e);
        },
    };
    if bytes.len() == 0 && added.len() == 0 {
        return Ok(None);
    }
    let mut out: Vec<u8> = Vec::new();
    let mut i: usize = 0;
    while i < bytes.len()
        invariant
            i <= bytes.len(),
            out@ == bytes@.take(i as int),
        decreases bytes.len() - i,
    {
        out.push(bytes[i]);
        assert(out@ =~= bytes@.take(i + 1));
        i += 1;
    }
    let mut j: usize = 0;
    while j < added.len()
        invariant
            j <= added.len(),
            out@ == bytes@ + added@.take(j as int),
        decreases added.len() - j,
    {
        out.push(added[j]);
        assert(out@ =~= bytes@ + added@.take(j + 1));
        j += 1;
    }
    assert(out@ =~= bytes@ + added@);
    Ok(Some(out))
}

} // verus!
