//! Replacing what the dataset holds of an entry: which files to rewrite, and
//! the rows of a file after the entry's rows were merged in.
use vstd::prelude::*;
use crate::assoc::{bind, find, lookup, put};
use crate::entry::mow::{mow, mown};
use crate::entry::try_from::base_key;
use crate::entry::{lemma_entry_leaves, Entry, EntryModel};
use crate::grain::{Grain, GrainModel};
use crate::insert::{edge_steps, plan_edges, Tablet, TabletModel};
use crate::error::Error;
use crate::line::{Line, LineModel};
use crate::records::{file_written, lines_read, read_lines, write_file};
use crate::order::{by_text, lemma_place_is, sort_texts, sorted, unique, unique_texts};
use crate::schema::find_crown::{crown, find_crown};
use crate::schema::{Schema, SchemaModel};
use crate::select::strategy::schema_file;
use crate::text::{contains_text, copy_opt_text, copy_texts, same_text, text_less, text_lt};

verus! {

/// The step that rewrites the schema file.
pub open spec fn schema_step() -> TabletModel {
    TabletModel { filename: schema_file(), trunk: base_key(), branch: base_key() }
}

/// The files that an update of `query` rewrites: the schema file for a
/// record of the schema, otherwise the file of each edge that leads to a
/// node at or below the base of the query.
pub open spec fn update_plan(s: SchemaModel, query: EntryModel) -> Seq<TabletModel> {
    if query.base == base_key() {
        seq![schema_step()]
    } else {
        edge_steps(s, crown(s, query.base))
    }
}

/// The files that an update of `query` rewrites: see [`update_plan`].
pub fn plan_update(schema: &Schema, query: &Entry) -> (r: Vec<Tablet>)
    ensures
        r.deep_view() == update_plan(schema@, query@),
{
    proof {
        reveal_strlit("_");
        reveal_strlit("_-_.csv");
        assert("_"@ =~= base_key());
        assert("_-_.csv"@ =~= schema_file());
    }
    if same_text(query.base.as_str(), "_") {
        let mut out: Vec<Tablet> = Vec::new();
        let tablet = Tablet {
            filename: "_-_.csv".to_owned(),
            trunk: "_".to_owned(),
            branch: "_".to_owned(),
        };
        out.push(tablet);
        assert(out.deep_view() =~= seq![schema_step()]);
        return out;
    }
    let crown = find_crown(schema, query.base.as_str());
    plan_edges(schema, &crown)
}

/// A text that may be absent comes before another: an absent one comes
/// before every text, and texts come in their order.
pub open spec fn opt_text_lt(a: Option<Seq<char>>, b: Option<Seq<char>>) -> bool {
    match (a, b) {
        (None, Some(_)) => true,
        (Some(x), Some(y)) => text_lt(x, y),
        _ => false,
    }
}

/// The order in which the children of a record of the schema are written:
/// by base, and under the same base by value.
pub open spec fn by_base_and_value() -> spec_fn(
    (Seq<char>, Option<Seq<char>>),
    (Seq<char>, Option<Seq<char>>),
) -> bool {
    |a: (Seq<char>, Option<Seq<char>>), b: (Seq<char>, Option<Seq<char>>)|
        text_lt(a.0, b.0) || (a.0 == b.0 && opt_text_lt(a.1, b.1))
}

/// The base and the value of each item.
pub open spec fn heads(items: Seq<EntryModel>) -> Seq<(Seq<char>, Option<Seq<char>>)> {
    Seq::new(items.len(), |i: int| (items[i].base, items[i].base_value))
}

/// The rows that one list of a record of the schema is written as: one for
/// each item, with the name of the list and the item's value, empty where
/// it has none; the items in the order of [`by_base_and_value`].
pub open spec fn schema_rows_of(trunk: Seq<char>, items: Seq<EntryModel>) -> Seq<LineModel> {
    let ordered = sorted(by_base_and_value(), heads(items));
    Seq::new(
        ordered.len(),
        |i: int|
            LineModel {
                key: trunk,
                value: match ordered[i].1 {
                    Some(v) => v,
                    None => Seq::empty(),
                },
            },
    )
}

/// The names of the lists, in order.
pub open spec fn list_names(leaves: Seq<(Seq<char>, Seq<EntryModel>)>) -> Seq<Seq<char>> {
    Seq::new(leaves.len(), |i: int| leaves[i].0)
}

/// The rows of the lists named `trunks`, list after list.
pub open spec fn schema_rows_for(
    leaves: Seq<(Seq<char>, Seq<EntryModel>)>,
    trunks: Seq<Seq<char>>,
) -> Seq<LineModel>
    decreases trunks.len(),
{
    if trunks.len() == 0 {
        Seq::empty()
    } else {
        let items = match lookup(leaves, trunks.last()) {
            Some(items) => items,
            None => Seq::empty(),
        };
        schema_rows_for(leaves, trunks.drop_last()) + schema_rows_of(trunks.last(), items)
    }
}

/// The rows that a record of the schema is written as: its lists in the
/// order of their names, each as [`schema_rows_of`] says.
pub open spec fn schema_rows(e: EntryModel) -> Seq<LineModel> {
    schema_rows_for(e.leaves, sorted(by_text(), unique(list_names(e.leaves))))
}

/// Whether one head comes strictly before another: see [`by_base_and_value`].
fn head_less(a: &(String, Option<String>), b: &(String, Option<String>)) -> (r: bool)
    ensures
        r == by_base_and_value()(a.deep_view(), b.deep_view()),
{
    if text_less(a.0.as_str(), b.0.as_str()) {
        return true;
    }
    if !same_text(a.0.as_str(), b.0.as_str()) {
        return false;
    }
    match (&a.1, &b.1) {
        (None, Some(_)) => true,
        (Some(x), Some(y)) => text_less(x.as_str(), y.as_str()),
        _ => false,
    }
}

/// The rows that one list of a record of the schema is written as: see
/// [`schema_rows_of`].
fn schema_lines_of(trunk: &str, items: &Vec<Entry>) -> (r: Vec<Line>)
    ensures
        r.deep_view() == schema_rows_of(trunk@, items.deep_view()),
{
    let ghost given = heads(items.deep_view());
    let mut ordered: Vec<(String, Option<String>)> = Vec::new();
    let mut i: usize = 0;
    proof {
        assert(given.take(0) =~= Seq::<(Seq<char>, Option<Seq<char>>)>::empty());
        assert(ordered.deep_view() =~= Seq::<(Seq<char>, Option<Seq<char>>)>::empty());
    }
    while i < items.len()
        invariant
            given == heads(items.deep_view()),
            i <= items.len(),
            ordered.deep_view() == sorted(by_base_and_value(), given.take(i as int)),
        decreases items.len() - i,
    {
        let head = (items[i].base.clone(), copy_opt_text(&items[i].base_value));
        assert(head.deep_view() == given[i as int]);
        let mut at: usize = 0;
        while at < ordered.len() && !head_less(&head, &ordered[at])
            invariant
                at <= ordered.len(),
                forall|k: int|
                    0 <= k < at ==> !by_base_and_value()(
                        head.deep_view(),
                        #[trigger] ordered.deep_view()[k],
                    ),
            decreases ordered.len() - at,
        {
            assert(ordered.deep_view()[at as int] == ordered@[at as int].deep_view());
            at += 1;
        }
        let ghost before = ordered.deep_view();
        let ghost placed = head.deep_view();
        proof {
            if at < ordered.len() {
                assert(ordered.deep_view()[at as int] == ordered@[at as int].deep_view());
            }
        }
        ordered.insert(at, head);
        proof {
            lemma_place_is(by_base_and_value(), before, placed, at as int);
            assert(ordered.deep_view() =~= before.insert(at as int, placed));
            assert(given.take(i + 1).drop_last() =~= given.take(i as int));
            assert(given.take(i + 1).last() == placed);
        }
        i += 1;
    }
    assert(given.take(items.len() as int) =~= given);
    let mut out: Vec<Line> = Vec::new();
    let mut j: usize = 0;
    while j < ordered.len()
        invariant
            ordered.deep_view() == sorted(by_base_and_value(), heads(items.deep_view())),
            j <= ordered.len(),
            out.len() == j,
            forall|k: int|
                0 <= k < j ==> (#[trigger] out.deep_view()[k]) == (LineModel {
                    key: trunk@,
                    value: match ordered.deep_view()[k].1 {
                        Some(v) => v,
                        None => Seq::empty(),
                    },
                }),
        decreases ordered.len() - j,
    {
        let value = match &ordered[j].1 {
            Some(v) => v.clone(),
            None => String::new(),
        };
        let ghost before = out.deep_view();
        let line = Line { key: trunk.to_owned(), value };
        assert(ordered.deep_view()[j as int] == ordered@[j as int].deep_view());
        out.push(line);
        assert(out.deep_view() =~= before.push(line@));
        j += 1;
    }
    assert(out.deep_view() =~= schema_rows_of(trunk@, items.deep_view()));
    out
}

/// Moves the rows of `more` to the end of `out`.
fn append_lines(out: &mut Vec<Line>, more: Vec<Line>)
    ensures
        final(out).deep_view() == old(out).deep_view() + more.deep_view(),
{
    let ghost added = more.deep_view();
    let mut rest = more;
    out.append(&mut rest);
    assert(out.deep_view() =~= old(out).deep_view() + added);
}

/// The rows that a record of the schema is written as: see [`schema_rows`].
pub fn update_schema_line_stream(entry: &Entry) -> (r: Vec<Line>)
    ensures
        r.deep_view() == schema_rows(entry@),
{
    proof {
        lemma_entry_leaves(*entry);
    }
    let mut names: Vec<String> = Vec::new();
    let mut i: usize = 0;
    while i < entry.leaves.len()
        invariant
            i <= entry.leaves.len(),
            names.len() == i,
            forall|k: int| 0 <= k < i ==> (#[trigger] names.deep_view()[k]) == entry.leaves@[k].0@,
        decreases entry.leaves.len() - i,
    {
        let ghost before = names.deep_view();
        names.push(entry.leaves[i].0.clone());
        assert(names.deep_view() =~= before.push(entry.leaves@[i as int].0@));
        i += 1;
    }
    assert(names.deep_view() =~= list_names(entry@.leaves));
    let trunks = sort_texts(unique_texts(&names));
    let ghost order = trunks.deep_view();
    let no_items: Vec<Entry> = Vec::new();
    assert(no_items.deep_view() =~= Seq::<EntryModel>::empty());
    let mut out: Vec<Line> = Vec::new();
    let mut j: usize = 0;
    proof {
        assert(order.take(0) =~= Seq::<Seq<char>>::empty());
        assert(out.deep_view() =~= Seq::<LineModel>::empty());
    }
    while j < trunks.len()
        invariant
            order == trunks.deep_view(),
            entry@.leaves == entry.leaves.deep_view(),
            no_items.deep_view() == Seq::<EntryModel>::empty(),
            j <= trunks.len(),
            out.deep_view() == schema_rows_for(entry@.leaves, order.take(j as int)),
        decreases trunks.len() - j,
    {
        let trunk = &trunks[j];
        proof {
            assert(order.take(j + 1).drop_last() =~= order.take(j as int));
            assert(order.take(j + 1).last() == trunk@);
        }
        let items = match find(&entry.leaves, trunk.as_str()) {
            Some(p) => &entry.leaves[p].1,
            None => &no_items,
        };
        let more = schema_lines_of(trunk.as_str(), items);
        append_lines(&mut out, more);
        j += 1;
    }
    assert(order.take(trunks.len() as int) =~= order);
    out
}

/// The first column that a grain is written under: its base value, empty
/// where it has none.
pub open spec fn key_of(g: GrainModel) -> Seq<char> {
    match g.base_value {
        Some(v) => v,
        None => Seq::empty(),
    }
}

/// The first columns that the grains are written under, each once, in order.
pub open spec fn grain_keys(grains: Seq<GrainModel>) -> Seq<Seq<char>> {
    sorted(by_text(), unique(Seq::new(grains.len(), |i: int| key_of(grains[i]))))
}

/// For each first column, the second columns that the grains give it, in
/// order. A grain without a leaf value gives none.
pub open spec fn grain_values(grains: Seq<GrainModel>) -> Seq<(Seq<char>, Seq<Seq<char>>)>
    decreases grains.len(),
{
    if grains.len() == 0 {
        Seq::empty()
    } else {
        let before = grain_values(grains.drop_last());
        let g = grains.last();
        match g.leaf_value {
            None => before,
            Some(v) => {
                let old = match lookup(before, key_of(g)) {
                    Some(vs) => vs,
                    None => Seq::empty(),
                };
                put(before, key_of(g), sorted(by_text(), old.push(v)))
            },
        }
    }
}

/// The rows that `values` hold for `key`.
pub open spec fn rows_for(values: Seq<(Seq<char>, Seq<Seq<char>>)>, key: Seq<char>) -> Seq<
    LineModel,
> {
    match lookup(values, key) {
        Some(vs) => Seq::new(vs.len(), |i: int| LineModel { key, value: vs[i] }),
        None => Seq::empty(),
    }
}

/// The rows that `values` hold for each of `keys`, key after key.
pub open spec fn rows_for_all(values: Seq<(Seq<char>, Seq<Seq<char>>)>, keys: Seq<Seq<char>>) -> Seq<
    LineModel,
>
    decreases keys.len(),
{
    if keys.len() == 0 {
        Seq::empty()
    } else {
        rows_for_all(values, keys.drop_last()) + rows_for(values, keys.last())
    }
}

/// How far a merge has come: the keys whose rows are still to be written,
/// the first column of the row last read, whether that row's key is one of
/// them, and the rows written so far.
pub ghost struct Merge {
    pub keys: Seq<Seq<char>>,
    pub fst: Option<Seq<char>>,
    pub is_match: bool,
    pub out: Seq<LineModel>,
}

/// Whether `key` belongs between the row last read and the row `upto`: not
/// before the first column last read, and before `upto`.
pub open spec fn between(fst: Option<Seq<char>>, key: Seq<char>, upto: Seq<char>) -> bool {
    (fst is None || !text_lt(key, fst->0)) && text_lt(key, upto)
}

/// One row of the file merged.
///
/// When the first column changes, the new rows of the key just left are
/// written if that key is one of the entry's, and then the rows of every key
/// of the entry that belongs before the row. The row itself is written
/// unless its key is one of the entry's: those rows are replaced.
pub open spec fn merged_line(
    values: Seq<(Seq<char>, Seq<Seq<char>>)>,
    m: Merge,
    line: LineModel,
) -> Merge {
    let fst_is_new = m.fst != Some(line.key);
    let closes = m.is_match && fst_is_new && m.fst is Some;
    let out1 = if closes {
        m.out + rows_for(values, m.fst->0)
    } else {
        m.out
    };
    let keys1 = if closes {
        m.keys.filter(|k: Seq<char>| k != m.fst->0)
    } else {
        m.keys
    };
    let gap = if fst_is_new {
        keys1.filter(|k: Seq<char>| between(m.fst, k, line.key))
    } else {
        Seq::empty()
    };
    let keys2 = if fst_is_new {
        keys1.filter(|k: Seq<char>| !between(m.fst, k, line.key))
    } else {
        keys1
    };
    let out2 = out1 + rows_for_all(values, gap);
    let is_match = keys2.contains(line.key);
    Merge {
        keys: keys2,
        fst: Some(line.key),
        is_match,
        out: if is_match {
            out2
        } else {
            out2.push(line)
        },
    }
}

/// The rows of a file merged, row after row.
pub open spec fn merged(values: Seq<(Seq<char>, Seq<Seq<char>>)>, start: Merge, lines: Seq<LineModel>) -> Merge
    decreases lines.len(),
{
    if lines.len() == 0 {
        start
    } else {
        merged_line(values, merged(values, start, lines.drop_last()), lines.last())
    }
}

/// The rows of a file after the rows of `grains` were merged in: the rows of
/// the file but for those whose key is one of the grains', and the grains'
/// rows in the place of their keys; the rows of keys beyond the last row of
/// the file come at the end.
pub open spec fn updated_rows(grains: Seq<GrainModel>, lines: Seq<LineModel>) -> Seq<LineModel> {
    let values = grain_values(grains);
    let start = Merge { keys: grain_keys(grains), fst: None, is_match: false, out: Seq::empty() };
    let last = merged(values, start, lines);
    last.out + rows_for_all(values, last.keys)
}

/// For each first column, the second columns that the grains give it: see
/// [`grain_values`].
fn values_of(grains: &Vec<Grain>) -> (r: Vec<(String, Vec<String>)>)
    ensures
        r.deep_view() == grain_values(grains.deep_view()),
{
    let ghost all = grains.deep_view();
    let mut out: Vec<(String, Vec<String>)> = Vec::new();
    let mut i: usize = 0;
    proof {
        assert(all.take(0) =~= Seq::<GrainModel>::empty());
        assert(out.deep_view() =~= Seq::<(Seq<char>, Seq<Seq<char>>)>::empty());
    }
    while i < grains.len()
        invariant
            all == grains.deep_view(),
            i <= grains.len(),
            out.deep_view() == grain_values(all.take(i as int)),
        decreases grains.len() - i,
    {
        let grain = &grains[i];
        proof {
            assert(all.take(i + 1).drop_last() =~= all.take(i as int));
            assert(all.take(i + 1).last() == grain@);
        }
        match &grain.leaf_value {
            None => {},
            Some(value) => {
                let key = match &grain.base_value {
                    Some(v) => v.clone(),
                    None => String::new(),
                };
                assert(key@ == key_of(grain@));
                let mut list = match find(&out, key.as_str()) {
                    Some(p) => {
                        assert(out.deep_view()[p as int].1 == out@[p as int].1.deep_view());
                        copy_texts(&out[p].1)
                    },
                    None => Vec::new(),
                };
                let ghost old = list.deep_view();
                proof {
                    if lookup(out.deep_view(), key@) is None {
                        assert(old =~= Seq::<Seq<char>>::empty());
                    }
                }
                list.push(value.clone());
                assert(list.deep_view() =~= old.push(value@));
                let list = sort_texts(list);
                bind(&mut out, key, list);
            },
        }
        i += 1;
    }
    assert(all.take(grains.len() as int) =~= all);
    out
}

/// The first columns that the grains are written under: see [`grain_keys`].
fn keys_of(grains: &Vec<Grain>) -> (r: Vec<String>)
    ensures
        r.deep_view() == grain_keys(grains.deep_view()),
{
    let mut names: Vec<String> = Vec::new();
    let mut i: usize = 0;
    while i < grains.len()
        invariant
            i <= grains.len(),
            names.len() == i,
            forall|k: int| 0 <= k < i ==> (#[trigger] names.deep_view()[k]) == key_of(grains@[k]@),
        decreases grains.len() - i,
    {
        let key = match &grains[i].base_value {
            Some(v) => v.clone(),
            None => String::new(),
        };
        let ghost before = names.deep_view();
        names.push(key);
        assert(names.deep_view() =~= before.push(key_of(grains@[i as int]@)));
        i += 1;
    }
    assert(names.deep_view() =~= Seq::new(
        grains.deep_view().len(),
        |i: int| key_of(grains.deep_view()[i]),
    ));
    sort_texts(unique_texts(&names))
}

/// Writes the rows that `values` hold for `key`: see [`rows_for`].
fn write_rows(out: &mut Vec<Line>, values: &Vec<(String, Vec<String>)>, key: &str)
    ensures
        final(out).deep_view() == old(out).deep_view() + rows_for(values.deep_view(), key@),
{
    let ghost start = out.deep_view();
    match find(values, key) {
        None => {
            assert(start + rows_for(values.deep_view(), key@) =~= start);
        },
        Some(p) => {
            let list = &values[p].1;
            let mut i: usize = 0;
            while i < list.len()
                invariant
                    i <= list.len(),
                    out.len() == start.len() + i,
                    forall|k: int|
                        0 <= k < start.len() ==> (#[trigger] out.deep_view()[k]) == start[k],
                    forall|k: int|
                        start.len() <= k < out.len() ==> (#[trigger] out.deep_view()[k])
                            == (LineModel { key: key@, value: list.deep_view()[k - start.len()] }),
                decreases list.len() - i,
            {
                let ghost before = out.deep_view();
                let line = Line { key: key.to_owned(), value: list[i].clone() };
                out.push(line);
                proof {
                    assert(out.deep_view() =~= before.push(line@));
                    assert(list.deep_view()[i as int] == list@[i as int]@);
                }
                i += 1;
            }
            assert(out.deep_view() =~= start + rows_for(values.deep_view(), key@));
        },
    }
}

/// Writes the rows that `values` hold for each of `keys`: see [`rows_for_all`].
fn write_all_rows(out: &mut Vec<Line>, values: &Vec<(String, Vec<String>)>, keys: &Vec<String>)
    ensures
        final(out).deep_view() == old(out).deep_view() + rows_for_all(
            values.deep_view(),
            keys.deep_view(),
        ),
{
    let ghost start = out.deep_view();
    let ghost names = keys.deep_view();
    let mut i: usize = 0;
    proof {
        assert(names.take(0) =~= Seq::<Seq<char>>::empty());
        assert(start + rows_for_all(values.deep_view(), names.take(0)) =~= start);
    }
    while i < keys.len()
        invariant
            names == keys.deep_view(),
            i <= keys.len(),
            out.deep_view() == start + rows_for_all(values.deep_view(), names.take(i as int)),
        decreases keys.len() - i,
    {
        proof {
            assert(names.take(i + 1).drop_last() =~= names.take(i as int));
            assert(names.take(i + 1).last() == keys@[i as int]@);
        }
        write_rows(out, values, keys[i].as_str());
        assert(out.deep_view() =~= start + rows_for_all(values.deep_view(), names.take(i + 1)));
        i += 1;
    }
    assert(names.take(keys.len() as int) =~= names);
}

/// The keys other than `gone`.
fn keys_without(keys: &Vec<String>, gone: &str) -> (r: Vec<String>)
    ensures
        r.deep_view() == keys.deep_view().filter(|k: Seq<char>| k != gone@),
{
    let ghost names = keys.deep_view();
    let ghost pred = |k: Seq<char>| k != gone@;
    let mut out: Vec<String> = Vec::new();
    let mut i: usize = 0;
    proof {
        reveal(Seq::filter);
        assert(names.take(0) =~= Seq::<Seq<char>>::empty());
        assert(out.deep_view() =~= Seq::<Seq<char>>::empty());
    }
    while i < keys.len()
        invariant
            names == keys.deep_view(),
            pred == |k: Seq<char>| k != gone@,
            i <= keys.len(),
            out.deep_view() == names.take(i as int).filter(pred),
        decreases keys.len() - i,
    {
        proof {
            reveal(Seq::filter);
            assert(names.take(i + 1).drop_last() =~= names.take(i as int));
            assert(names.take(i + 1).last() == keys@[i as int]@);
        }
        if !same_text(keys[i].as_str(), gone) {
            let ghost before = out.deep_view();
            out.push(keys[i].clone());
            assert(out.deep_view() =~= before.push(keys@[i as int]@));
        }
        i += 1;
    }
    assert(names.take(keys.len() as int) =~= names);
    out
}

/// The keys that belong before the row `upto`, and the others: see [`between`].
fn keys_between(keys: &Vec<String>, fst: &Option<String>, upto: &str) -> (r: (Vec<String>, Vec<String>))
    ensures
        r.0.deep_view() == keys.deep_view().filter(
            |k: Seq<char>| between(fst.deep_view(), k, upto@),
        ),
        r.1.deep_view() == keys.deep_view().filter(
            |k: Seq<char>| !between(fst.deep_view(), k, upto@),
        ),
{
    let ghost names = keys.deep_view();
    let ghost inside = |k: Seq<char>| between(fst.deep_view(), k, upto@);
    let ghost outside = |k: Seq<char>| !between(fst.deep_view(), k, upto@);
    let mut gap: Vec<String> = Vec::new();
    let mut rest: Vec<String> = Vec::new();
    let mut i: usize = 0;
    proof {
        reveal(Seq::filter);
        assert(names.take(0) =~= Seq::<Seq<char>>::empty());
        assert(gap.deep_view() =~= Seq::<Seq<char>>::empty());
        assert(rest.deep_view() =~= Seq::<Seq<char>>::empty());
    }
    while i < keys.len()
        invariant
            names == keys.deep_view(),
            inside == |k: Seq<char>| between(fst.deep_view(), k, upto@),
            outside == |k: Seq<char>| !between(fst.deep_view(), k, upto@),
            i <= keys.len(),
            gap.deep_view() == names.take(i as int).filter(inside),
            rest.deep_view() == names.take(i as int).filter(outside),
        decreases keys.len() - i,
    {
        let key = &keys[i];
        proof {
            reveal(Seq::filter);
            assert(names.take(i + 1).drop_last() =~= names.take(i as int));
            assert(names.take(i + 1).last() == key@);
        }
        let after = match fst {
            None => true,
            Some(f) => !text_less(key.as_str(), f.as_str()),
        };
        if after && text_less(key.as_str(), upto) {
            let ghost before = gap.deep_view();
            gap.push(key.clone());
            assert(gap.deep_view() =~= before.push(key@));
        } else {
            let ghost before = rest.deep_view();
            rest.push(key.clone());
            assert(rest.deep_view() =~= before.push(key@));
        }
        i += 1;
    }
    assert(names.take(keys.len() as int) =~= names);
    (gap, rest)
}

/// The rows of a file after the rows of `grains` were merged in: see
/// [`updated_rows`].
pub fn merge_lines(input: &Vec<Line>, grains: &Vec<Grain>) -> (r: Vec<Line>)
    ensures
        r.deep_view() == updated_rows(grains.deep_view(), input.deep_view()),
{
    let values = values_of(grains);
    let mut keys = keys_of(grains);
    let mut fst: Option<String> = None;
    let mut is_match = false;
    let mut out: Vec<Line> = Vec::new();
    let ghost lines = input.deep_view();
    let ghost start = Merge {
        keys: grain_keys(grains.deep_view()),
        fst: None,
        is_match: false,
        out: Seq::empty(),
    };
    let mut i: usize = 0;
    proof {
        assert(lines.take(0) =~= Seq::<LineModel>::empty());
        assert(out.deep_view() =~= Seq::<LineModel>::empty());
    }
    while i < input.len()
        invariant
            lines == input.deep_view(),
            values.deep_view() == grain_values(grains.deep_view()),
            i <= input.len(),
            merged(values.deep_view(), start, lines.take(i as int)) == (Merge {
                keys: keys.deep_view(),
                fst: fst.deep_view(),
                is_match,
                out: out.deep_view(),
            }),
        decreases input.len() - i,
    {
        let line = &input[i];
        proof {
            assert(lines.take(i + 1).drop_last() =~= lines.take(i as int));
            assert(lines.take(i + 1).last() == line@);
        }
        let fst_is_new = match &fst {
            None => true,
            Some(f) => !same_text(f.as_str(), line.key.as_str()),
        };
        if is_match && fst_is_new {
            match &fst {
                None => {},
                Some(f) => {
                    write_rows(&mut out, &values, f.as_str());
                    keys = keys_without(&keys, f.as_str());
                },
            }
        }
        if fst_is_new {
            let (gap, rest) = keys_between(&keys, &fst, line.key.as_str());
            write_all_rows(&mut out, &values, &gap);
            keys = rest;
        } else {
            assert(out.deep_view() + rows_for_all(values.deep_view(), Seq::empty())
                =~= out.deep_view());
        }
        is_match = contains_text(&keys, line.key.as_str());
        if !is_match {
            let ghost before = out.deep_view();
            out.push(Line { key: line.key.clone(), value: line.value.clone() });
            assert(out.deep_view() =~= before.push(line@));
        }
        fst = Some(line.key.clone());
        i += 1;
    }
    assert(lines.take(input.len() as int) =~= lines);
    write_all_rows(&mut out, &values, &keys);
    out
}

/// The rows of the file of a step after `entry` was merged in: the entry's
/// facts for the step's edge take the place of the rows with their keys.
pub fn update_line_stream(input: &Vec<Line>, entry: &Entry, tablet: &Tablet) -> (r: Vec<Line>)
    ensures
        r.deep_view() == updated_rows(
            mown(entry@, tablet@.trunk, tablet@.branch),
            input.deep_view(),
        ),
{
    let grains = mow(entry, tablet.trunk.as_str(), tablet.branch.as_str());
    merge_lines(input, &grains)
}

/// The rows of the file of a step after an update by `entry`: the rows of
/// the record of the schema for the step that rewrites the schema file,
/// otherwise the rows of the file with the entry merged in.
pub open spec fn rewritten_rows(lines: Seq<LineModel>, e: EntryModel, tablet: TabletModel) -> Seq<
    LineModel,
> {
    if tablet.filename == schema_file() {
        schema_rows(e)
    } else {
        updated_rows(mown(e, tablet.trunk, tablet.branch), lines)
    }
}

/// The rows of the file of a step after an update by `entry`: see
/// [`rewritten_rows`].
pub fn update_tablet(input: &Vec<Line>, entry: &Entry, tablet: &Tablet) -> (r: Vec<Line>)
    ensures
        r.deep_view() == rewritten_rows(input.deep_view(), entry@, tablet@),
{
    proof {
        reveal_strlit("_-_.csv");
        assert("_-_.csv"@ =~= schema_file());
    }
    if same_text(tablet.filename.as_str(), "_-_.csv") {
        update_schema_line_stream(entry)
    } else {
        update_line_stream(input, entry, tablet)
    }
}

/// What takes the place of the file of a step that has the content `bytes`
/// after an update by `e`: the content with the rows of [`rewritten_rows`], or
/// `None` where there is no row, so that no file is left. The step that
/// rewrites the schema file does not read it. A file of another step that
/// cannot be read is refused, and so are rows that cannot be written.
pub open spec fn updated_file(bytes: Seq<u8>, e: EntryModel, tablet: TabletModel) -> Result<
    Option<Seq<u8>>,
    Error,
> {
    if tablet.filename == schema_file() {
        file_written(schema_rows(e))
    } else {
        match lines_read(bytes, true) {
            Ok(lines) => file_written(updated_rows(mown(e, tablet.trunk, tablet.branch), lines)),
            Err(e) => Err(e),
        }
    }
}

/// What takes the place of the file of a step after an update by `entry`:
/// see [`updated_file`].
pub fn update_file(bytes: &[u8], entry: &Entry, tablet: &Tablet) -> (r: Result<
    Option<Vec<u8>>,
    Error,
>)
    ensures
        (match updated_file(bytes@, entry@, tablet@) {
            Ok(None) => r matches Ok(None),
            Ok(Some(b)) => r matches Ok(Some(out)) && out@ == b,
            Err(e) => r matches Err(x) && x == e,
        }),
{
    proof {
        reveal_strlit("_-_.csv");
        assert("_-_.csv"@ =~= schema_file());
    }
    if same_text(tablet.filename.as_str(), "_-_.csv") {
        return write_file(&update_schema_line_stream(entry));
    }
    let lines = match read_lines(bytes, true) {
        Ok(lines) => lines,
        Err(e) => {
            return Err(e);
        },
    };
    write_file(&update_line_stream(&lines, entry, tablet))
}

} // verus!
