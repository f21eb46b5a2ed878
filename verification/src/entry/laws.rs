//! What holds between reading facts out of a tree and writing them into it.
use vstd::prelude::*;
use crate::assoc::{
    has_key,
    keys_distinct,
    lemma_position,
    lemma_position_is,
    lemma_put,
    lemma_put_distinct,
    lemma_put_pairs,
    lemma_put_same,
    lookup,
    position,
};
use crate::entry::mow::{
    grains_of_children,
    grains_of_trunk_item,
    grains_of_trunk_items,
    mown,
    mown_of_items,
    mown_of_leaves,
};
use crate::entry::sow::{bare, grafted, has_child, sown, with_added, with_child};
use crate::entry::{named_by_lists, well_formed, EntryModel};
use crate::lists::lemma_concat_contains;
use crate::grain::GrainModel;

verus! {

/// A grain of the items of a trait list is a grain of one of the items, and
/// the other way round.
pub proof fn lemma_trunk_items_grain(
    items: Seq<EntryModel>,
    trait_: Seq<char>,
    thing: Seq<char>,
    g: GrainModel,
)
    ensures
        grains_of_trunk_items(items, trait_, thing).contains(g) <==> exists|k: int|
            0 <= k < items.len() && grains_of_trunk_item(#[trigger] items[k], trait_, thing).contains(
                g,
            ),
    decreases items.len(),
{
    if items.len() > 0 {
        let rest = items.drop_last();
        let head = grains_of_trunk_items(rest, trait_, thing);
        let tail = grains_of_trunk_item(items.last(), trait_, thing);
        lemma_trunk_items_grain(rest, trait_, thing, g);
        lemma_concat_contains(head, tail, g);
        if head.contains(g) {
            let k = choose|k: int|
                0 <= k < rest.len() && grains_of_trunk_item(#[trigger] rest[k], trait_, thing).contains(
                    g,
                );
            assert(items[k] == rest[k]);
        }
        if tail.contains(g) {
            assert(items[items.len() - 1] == items.last());
        }
        if exists|k: int|
            0 <= k < items.len() && grains_of_trunk_item(#[trigger] items[k], trait_, thing).contains(
                g,
            ) {
            let k = choose|k: int|
                0 <= k < items.len() && grains_of_trunk_item(
                    #[trigger] items[k],
                    trait_,
                    thing,
                ).contains(g);
            if k < rest.len() {
                assert(rest[k] == items[k]);
            }
        }
    }
}

/// A fact of a list of items is a fact of one of the items, and the other
/// way round.
pub proof fn lemma_items_grain(
    items: Seq<EntryModel>,
    trait_: Seq<char>,
    thing: Seq<char>,
    g: GrainModel,
)
    ensures
        mown_of_items(items, trait_, thing).contains(g) <==> exists|b: int|
            0 <= b < items.len() && mown(#[trigger] items[b], trait_, thing).contains(g),
    decreases items.len(),
{
    if items.len() > 0 {
        let rest = items.drop_last();
        let head = mown_of_items(rest, trait_, thing);
        let tail = mown(items.last(), trait_, thing);
        lemma_items_grain(rest, trait_, thing, g);
        lemma_concat_contains(head, tail, g);
        if head.contains(g) {
            let b = choose|b: int|
                0 <= b < rest.len() && mown(#[trigger] rest[b], trait_, thing).contains(g);
            assert(items[b] == rest[b]);
        }
        if tail.contains(g) {
            assert(items[items.len() - 1] == items.last());
        }
        if exists|b: int|
            0 <= b < items.len() && mown(#[trigger] items[b], trait_, thing).contains(g) {
            let b = choose|b: int|
                0 <= b < items.len() && mown(#[trigger] items[b], trait_, thing).contains(g);
            if b < rest.len() {
                assert(rest[b] == items[b]);
            }
        }
    }
}

/// A fact of the lists of a node is a fact of one child, and the other way
/// round.
pub proof fn lemma_leaves_grain(
    leaves: Seq<(Seq<char>, Seq<EntryModel>)>,
    trait_: Seq<char>,
    thing: Seq<char>,
    g: GrainModel,
)
    ensures
        mown_of_leaves(leaves, trait_, thing).contains(g) <==> exists|a: int, b: int|
            0 <= a < leaves.len() && 0 <= b < leaves[a].1.len() && mown(
                #[trigger] leaves[a].1[b],
                trait_,
                thing,
            ).contains(g),
    decreases leaves.len(),
{
    if leaves.len() > 0 {
        let rest = leaves.drop_last();
        let head = mown_of_leaves(rest, trait_, thing);
        let tail = mown_of_items(leaves.last().1, trait_, thing);
        lemma_leaves_grain(rest, trait_, thing, g);
        lemma_items_grain(leaves.last().1, trait_, thing, g);
        lemma_concat_contains(head, tail, g);
        if head.contains(g) {
            let (a, b) = choose|a: int, b: int|
                0 <= a < rest.len() && 0 <= b < rest[a].1.len() && mown(
                    #[trigger] rest[a].1[b],
                    trait_,
                    thing,
                ).contains(g);
            assert(leaves[a].1[b] == rest[a].1[b]);
        }
        if tail.contains(g) {
            let b = choose|b: int|
                0 <= b < leaves.last().1.len() && mown(
                    #[trigger] leaves.last().1[b],
                    trait_,
                    thing,
                ).contains(g);
            assert(leaves[leaves.len() - 1].1[b] == leaves.last().1[b]);
        }
        if exists|a: int, b: int|
            0 <= a < leaves.len() && 0 <= b < leaves[a].1.len() && mown(
                #[trigger] leaves[a].1[b],
                trait_,
                thing,
            ).contains(g) {
            let (a, b) = choose|a: int, b: int|
                0 <= a < leaves.len() && 0 <= b < leaves[a].1.len() && mown(
                    #[trigger] leaves[a].1[b],
                    trait_,
                    thing,
                ).contains(g);
            if a < rest.len() {
                assert(rest[a].1[b] == leaves[a].1[b]);
            } else {
                assert(leaves.last().1[b] == leaves[a].1[b]);
            }
        }
    }
}

/// After a child was added, the list it was added to ends with it.
pub proof fn lemma_with_added(
    leaves: Seq<(Seq<char>, Seq<EntryModel>)>,
    name: Seq<char>,
    value: Option<Seq<char>>,
    other: Seq<char>,
)
    ensures
        has_key(with_added(leaves, name, value), other) == (other == name || has_key(leaves, other)),
        lookup(with_added(leaves, name, value), name) is Some,
        lookup(with_added(leaves, name, value), name)->0.len() > 0,
        lookup(with_added(leaves, name, value), name)->0.last() == bare(name, value),
        other != name ==> lookup(with_added(leaves, name, value), other) == lookup(leaves, other),
{
    let children = match lookup(leaves, name) {
        Some(old) => old.push(bare(name, value)),
        None => seq![bare(name, value)],
    };
    lemma_put(leaves, name, children, name);
    lemma_put(leaves, name, children, other);
}

/// After a fact was written into the lists, the list named `name` has a
/// child that holds the value, the other lists are what they were, and
/// writing the fact again changes nothing.
pub proof fn lemma_with_child(
    leaves: Seq<(Seq<char>, Seq<EntryModel>)>,
    name: Seq<char>,
    value: Option<Seq<char>>,
    other: Seq<char>,
)
    ensures
        has_key(with_child(leaves, name, value), other) == (other == name || has_key(leaves, other)),
        has_child(with_child(leaves, name, value), name, value),
        with_child(with_child(leaves, name, value), name, value) == with_child(leaves, name, value),
        other != name ==> lookup(with_child(leaves, name, value), other) == lookup(leaves, other),
{
    if !has_child(leaves, name, value) {
        lemma_with_added(leaves, name, value, other);
        let children = lookup(with_added(leaves, name, value), name)->0;
        assert(children[children.len() - 1].base_value == value);
    }
}

/// Whether a list has a name depends on its names alone.
pub proof fn lemma_same_names<V>(s: Seq<(Seq<char>, V)>, t: Seq<(Seq<char>, V)>, key: Seq<char>)
    requires
        s.len() == t.len(),
        forall|i: int| 0 <= i < s.len() ==> (#[trigger] s[i]).0 == t[i].0,
    ensures
        position(s, key) == position(t, key),
        has_key(s, key) == has_key(t, key),
{
    lemma_position(s, key);
    let p = position(s, key);
    assert forall|j: int| 0 <= j < p implies (#[trigger] t[j]).0 != key by {
        assert(s[j].0 != key);
    }
    if p < s.len() {
        assert(s[p].0 == key);
    }
    lemma_position_is(t, key, p);
}

/// The grains that cannot be read again after they were written: those read
/// off a `thing` node under a trait of another name, with a leaf value that
/// is not the node's own value. Writing such a grain gives the node the leaf
/// value as its own, so the grain with the old value is gone.
pub open spec fn turns_base(g: GrainModel, trait_: Seq<char>, thing: Seq<char>) -> bool {
    trait_ != thing && g.base == thing && g.leaf_value is Some && g.base_value != g.leaf_value
}

/// A fact read out of a tree and written back into it can be read again.
///
/// This holds of every grain `g` among the facts of `e` whose writing is not
/// refused, but for those that [`turns_base`] describes.
pub proof fn lemma_sown_keeps_mown(
    e: EntryModel,
    g: GrainModel,
    trait_: Seq<char>,
    thing: Seq<char>,
)
    requires
        mown(e, trait_, thing).contains(g),
        sown(e, g, trait_, thing) is Some,
        !turns_base(g, trait_, thing),
    ensures
        mown(sown(e, g, trait_, thing)->0, trait_, thing).contains(g),
    decreases e,
{
    let after = sown(e, g, trait_, thing)->0;
    let facts = mown(e, trait_, thing);
    let i = choose|i: int| 0 <= i < facts.len() && facts[i] == g;
    if e.base == thing {
        if trait_ == e.base {
            assert(mown(after, trait_, thing)[0] == g);
        } else {
            let children = lookup(e.leaves, trait_)->0;
            assert(g == grains_of_children(e.base, e.base_value, trait_, children)[i]);
            assert(mown(after, trait_, thing)[i] == g);
        }
    } else if e.base == trait_ {
        lemma_with_child(e.leaves, thing, g.leaf_value, thing);
        let children = lookup(after.leaves, thing)->0;
        let at = choose|k: int| 0 <= k < children.len() && (#[trigger] children[k]).base_value == g.leaf_value;
        assert(grains_of_children(after.base, after.base_value, thing, children)[at] == g);
    } else if has_key(e.leaves, trait_) {
        let items = lookup(e.leaves, trait_)->0;
        lemma_trunk_items_grain(items, trait_, thing, g);
        let k = choose|k: int|
            0 <= k < items.len() && grains_of_trunk_item(#[trigger] items[k], trait_, thing).contains(
                g,
            );
        let item = items[k];
        let from = grains_of_trunk_item(item, trait_, thing);
        assert(g.base == trait_ && g.base_value == item.base_value && g.leaf == thing);
        let grown = Seq::new(items.len(), |k: int| grafted(items[k], g, thing));
        lemma_put(e.leaves, trait_, grown, trait_);
        assert(lookup(after.leaves, trait_) == Some(grown));
        lemma_with_child(item.leaves, thing, g.leaf_value, thing);
        let children = lookup(grown[k].leaves, thing)->0;
        let at = choose|k: int| 0 <= k < children.len() && (#[trigger] children[k]).base_value == g.leaf_value;
        assert(grains_of_children(trait_, grown[k].base_value, thing, children)[at] == g);
        assert(grains_of_trunk_item(grown[k], trait_, thing).contains(g));
        lemma_trunk_items_grain(grown, trait_, thing, g);
    } else {
        lemma_leaves_grain(e.leaves, trait_, thing, g);
        let (a, b) = choose|a: int, b: int|
            0 <= a < e.leaves.len() && 0 <= b < e.leaves[a].1.len() && mown(
                #[trigger] e.leaves[a].1[b],
                trait_,
                thing,
            ).contains(g);
        let child = e.leaves[a].1[b];
        assert(sown(child, g, trait_, thing) is Some);
        lemma_sown_keeps_mown(child, g, trait_, thing);
        assert(after.leaves[a].1[b] == sown(child, g, trait_, thing)->0);
        lemma_same_names(e.leaves, after.leaves, trait_);
        lemma_leaves_grain(after.leaves, trait_, thing, g);
    }
}

/// Writing a fact that was written already changes nothing: a tree that came
/// out of writing `g` comes out of writing `g` again as it is.
pub proof fn lemma_sown_twice(
    e: EntryModel,
    g: GrainModel,
    trait_: Seq<char>,
    thing: Seq<char>,
    after: EntryModel,
)
    requires
        sown(e, g, trait_, thing) == Some(after),
    ensures
        sown(after, g, trait_, thing) == Some(after),
    decreases e,
{
    if e.base == thing {
    } else if e.base == trait_ {
        lemma_with_child(e.leaves, thing, g.leaf_value, thing);
    } else if has_key(e.leaves, trait_) {
        let items = lookup(e.leaves, trait_)->0;
        let grown = Seq::new(items.len(), |k: int| grafted(items[k], g, thing));
        lemma_put(e.leaves, trait_, grown, trait_);
        let again = Seq::new(grown.len(), |k: int| grafted(grown[k], g, thing));
        assert forall|k: int| 0 <= k < grown.len() implies again[k] == grown[k] by {
            lemma_with_child(items[k].leaves, thing, g.leaf_value, thing);
        }
        assert(again =~= grown);
        lemma_put_same(after.leaves, trait_, grown);
    } else {
        lemma_same_names(e.leaves, after.leaves, trait_);
        assert forall|i: int, j: int|
            0 <= i < after.leaves.len() && 0 <= j < after.leaves[i].1.len() implies sown(
            #[trigger] after.leaves[i].1[j],
            g,
            trait_,
            thing,
        ) == Some(after.leaves[i].1[j]) by {
            let child = e.leaves[i].1[j];
            assert(sown(child, g, trait_, thing) is Some);
            lemma_sown_twice(child, g, trait_, thing, sown(child, g, trait_, thing)->0);
        }
        let again = sown(after, g, trait_, thing)->0;
        assert forall|i: int| 0 <= i < after.leaves.len() implies again.leaves[i]
            == after.leaves[i] by {
            assert(again.leaves[i].1 =~= after.leaves[i].1);
        }
        assert(again.leaves =~= after.leaves);
    }
}

/// The lists have different names, and every child in them is well formed.
pub open spec fn lists_well_formed(leaves: Seq<(Seq<char>, Seq<EntryModel>)>) -> bool {
    &&& keys_distinct(leaves)
    &&& forall|i: int, j: int|
        0 <= i < leaves.len() && 0 <= j < leaves[i].1.len() ==> well_formed(
            #[trigger] leaves[i].1[j],
        )
}

/// Adding a child, or writing a fact, keeps lists well formed.
pub proof fn lemma_with_child_well_formed(
    leaves: Seq<(Seq<char>, Seq<EntryModel>)>,
    name: Seq<char>,
    value: Option<Seq<char>>,
)
    requires
        lists_well_formed(leaves),
    ensures
        lists_well_formed(with_child(leaves, name, value)),
        lists_well_formed(with_added(leaves, name, value)),
{
    let children = match lookup(leaves, name) {
        Some(old) => old.push(bare(name, value)),
        None => seq![bare(name, value)],
    };
    let after = with_added(leaves, name, value);
    lemma_put_distinct(leaves, name, children);
    lemma_put_pairs(leaves, name, children);
    lemma_position(leaves, name);
    assert(well_formed(bare(name, value)));
    assert forall|i: int, j: int|
        0 <= i < after.len() && 0 <= j < after[i].1.len() implies well_formed(
        #[trigger] after[i].1[j],
    ) by {
        if after[i] == (name, children) {
            if has_key(leaves, name) && j < children.len() - 1 {
                let p = position(leaves, name);
                assert(children[j] == leaves[p].1[j]);
            }
        } else {
            assert(after[i].1[j] == leaves[i].1[j]);
        }
    }
}

/// Writing a fact keeps a tree well formed: no node gets two lists of the
/// same name.
pub proof fn lemma_sown_well_formed(
    e: EntryModel,
    g: GrainModel,
    trait_: Seq<char>,
    thing: Seq<char>,
)
    requires
        well_formed(e),
        sown(e, g, trait_, thing) is Some,
    ensures
        well_formed(sown(e, g, trait_, thing)->0),
    decreases e,
{
    let after = sown(e, g, trait_, thing)->0;
    if e.base == thing {
    } else if e.base == trait_ {
        lemma_with_child_well_formed(e.leaves, thing, g.leaf_value);
    } else if has_key(e.leaves, trait_) {
        let items = lookup(e.leaves, trait_)->0;
        let p = position(e.leaves, trait_);
        let grown = Seq::new(items.len(), |k: int| grafted(items[k], g, thing));
        lemma_position(e.leaves, trait_);
        lemma_put_distinct(e.leaves, trait_, grown);
        lemma_put_pairs(e.leaves, trait_, grown);
        assert forall|i: int, j: int|
            0 <= i < after.leaves.len() && 0 <= j < after.leaves[i].1.len() implies well_formed(
            #[trigger] after.leaves[i].1[j],
        ) by {
            if after.leaves[i] == (trait_, grown) {
                assert(well_formed(e.leaves[p].1[j]));
                lemma_with_child_well_formed(items[j].leaves, thing, g.leaf_value);
            } else {
                assert(after.leaves[i].1[j] == e.leaves[i].1[j]);
            }
        }
    } else {
        assert forall|i: int, j: int|
            0 <= i < after.leaves.len() && 0 <= j < after.leaves[i].1.len() implies well_formed(
            #[trigger] after.leaves[i].1[j],
        ) by {
            assert(sown(e.leaves[i].1[j], g, trait_, thing) is Some);
            assert(well_formed(e.leaves[i].1[j]));
            lemma_sown_well_formed(e.leaves[i].1[j], g, trait_, thing);
        }
        assert forall|i: int, j: int| 0 <= i < j < after.leaves.len() implies after.leaves[i].0
            != after.leaves[j].0 by {
            assert(after.leaves[i].0 == e.leaves[i].0 && after.leaves[j].0 == e.leaves[j].0);
        }
    }
}

/// Every child in the lists is named like its list, and so on below.
pub open spec fn lists_named(leaves: Seq<(Seq<char>, Seq<EntryModel>)>) -> bool {
    forall|i: int, j: int|
        0 <= i < leaves.len() && 0 <= j < leaves[i].1.len() ==> (#[trigger] leaves[i].1[j]).base
            == leaves[i].0 && named_by_lists(leaves[i].1[j])
}

/// Adding a child, or writing a fact, keeps the children named like their
/// lists.
pub proof fn lemma_with_child_named(
    leaves: Seq<(Seq<char>, Seq<EntryModel>)>,
    name: Seq<char>,
    value: Option<Seq<char>>,
)
    requires
        lists_named(leaves),
    ensures
        lists_named(with_child(leaves, name, value)),
        lists_named(with_added(leaves, name, value)),
{
    let children = match lookup(leaves, name) {
        Some(old) => old.push(bare(name, value)),
        None => seq![bare(name, value)],
    };
    let after = with_added(leaves, name, value);
    lemma_put_pairs(leaves, name, children);
    lemma_position(leaves, name);
    assert(named_by_lists(bare(name, value)));
    assert forall|i: int, j: int|
        0 <= i < after.len() && 0 <= j < after[i].1.len() implies (#[trigger] after[i].1[j]).base
        == after[i].0 && named_by_lists(after[i].1[j]) by {
        if after[i] == (name, children) {
            if has_key(leaves, name) && j < children.len() - 1 {
                let p = position(leaves, name);
                assert(children[j] == leaves[p].1[j]);
            }
        } else {
            assert(after[i].1[j] == leaves[i].1[j]);
        }
    }
}

/// Writing a fact keeps every child named like the list it stands in.
pub proof fn lemma_sown_named(e: EntryModel, g: GrainModel, trait_: Seq<char>, thing: Seq<char>)
    requires
        named_by_lists(e),
        sown(e, g, trait_, thing) is Some,
    ensures
        named_by_lists(sown(e, g, trait_, thing)->0),
    decreases e,
{
    let after = sown(e, g, trait_, thing)->0;
    if e.base == thing {
    } else if e.base == trait_ {
        lemma_with_child_named(e.leaves, thing, g.leaf_value);
    } else if has_key(e.leaves, trait_) {
        let items = lookup(e.leaves, trait_)->0;
        let p = position(e.leaves, trait_);
        let grown = Seq::new(items.len(), |k: int| grafted(items[k], g, thing));
        lemma_put_pairs(e.leaves, trait_, grown);
        lemma_position(e.leaves, trait_);
        assert forall|i: int, j: int|
            0 <= i < after.leaves.len() && 0 <= j < after.leaves[i].1.len() implies (
        #[trigger] after.leaves[i].1[j]).base == after.leaves[i].0 && named_by_lists(
            after.leaves[i].1[j],
        ) by {
            if after.leaves[i] == (trait_, grown) {
                assert(e.leaves[p].1[j].base == e.leaves[p].0 && named_by_lists(e.leaves[p].1[j]));
                lemma_with_child_named(items[j].leaves, thing, g.leaf_value);
            } else {
                assert(after.leaves[i].1[j] == e.leaves[i].1[j]);
            }
        }
    } else {
        assert forall|i: int, j: int|
            0 <= i < after.leaves.len() && 0 <= j < after.leaves[i].1.len() implies (
        #[trigger] after.leaves[i].1[j]).base == after.leaves[i].0 && named_by_lists(
            after.leaves[i].1[j],
        ) by {
            let child = e.leaves[i].1[j];
            assert(sown(child, g, trait_, thing) is Some);
            assert(child.base == e.leaves[i].0 && named_by_lists(child));
            lemma_sown_named(child, g, trait_, thing);
            lemma_sown_keeps_base(child, g, trait_, thing);
        }
    }
}

/// Writing a fact leaves every node its base.
pub proof fn lemma_sown_keeps_base(e: EntryModel, g: GrainModel, trait_: Seq<char>, thing: Seq<char>)
    requires
        sown(e, g, trait_, thing) is Some,
    ensures
        sown(e, g, trait_, thing)->0.base == e.base,
{
}

/// The tree `after` holds what the tree `before` holds, where it held it:
/// the same base, the value that `before` has if it has one, the lists of
/// `before` in their order with the children of `before` in their order,
/// and each of those children again holds what it held.
pub open spec fn extends(before: EntryModel, after: EntryModel) -> bool
    decreases before,
{
    &&& after.base == before.base
    &&& (before.base_value is Some ==> after.base_value == before.base_value)
    &&& after.leaves.len() >= before.leaves.len()
    &&& forall|i: int|
        0 <= i < before.leaves.len() ==> (#[trigger] after.leaves[i]).0 == before.leaves[i].0
            && after.leaves[i].1.len() >= before.leaves[i].1.len()
    &&& forall|i: int, j: int|
        0 <= i < before.leaves.len() && 0 <= j < before.leaves[i].1.len() ==> extends(
            #[trigger] before.leaves[i].1[j],
            after.leaves[i].1[j],
        )
}

/// A tree holds what it holds.
pub proof fn lemma_extends_itself(e: EntryModel)
    ensures
        extends(e, e),
    decreases e,
{
    assert forall|i: int, j: int|
        0 <= i < e.leaves.len() && 0 <= j < e.leaves[i].1.len() implies extends(
        #[trigger] e.leaves[i].1[j],
        e.leaves[i].1[j],
    ) by {
        lemma_extends_itself(e.leaves[i].1[j]);
    }
}

/// A node into which a fact was written holds what it held.
proof fn lemma_with_child_extends(e: EntryModel, after: EntryModel, name: Seq<char>, value: Option<Seq<char>>)
    requires
        after.base == e.base,
        after.base_value == e.base_value,
        after.leaves == with_child(e.leaves, name, value),
    ensures
        extends(e, after),
{
    if has_child(e.leaves, name, value) {
        lemma_extends_itself(e);
        assert forall|i: int, j: int|
            0 <= i < e.leaves.len() && 0 <= j < e.leaves[i].1.len() implies extends(
            #[trigger] e.leaves[i].1[j],
            after.leaves[i].1[j],
        ) by {
            lemma_extends_itself(e.leaves[i].1[j]);
        }
    } else {
        lemma_with_added_extends(e, after, name, value);
    }
}

/// A node with one more child holds what it held.
proof fn lemma_with_added_extends(e: EntryModel, after: EntryModel, name: Seq<char>, value: Option<Seq<char>>)
    requires
        after.base == e.base,
        after.base_value == e.base_value,
        after.leaves == with_added(e.leaves, name, value),
    ensures
        extends(e, after),
{
    let children = match lookup(e.leaves, name) {
        Some(old) => old.push(bare(name, value)),
        None => seq![bare(name, value)],
    };
    lemma_put_pairs(e.leaves, name, children);
    lemma_position(e.leaves, name);
    assert forall|i: int|
        0 <= i < e.leaves.len() implies (#[trigger] after.leaves[i]).0 == e.leaves[i].0
        && after.leaves[i].1.len() >= e.leaves[i].1.len() by {
        if after.leaves[i] != e.leaves[i] {
            assert(after.leaves[i] == (name, children));
            assert(i == position(e.leaves, name));
        }
    }
    assert forall|i: int, j: int|
        0 <= i < e.leaves.len() && 0 <= j < e.leaves[i].1.len() implies extends(
        #[trigger] e.leaves[i].1[j],
        after.leaves[i].1[j],
    ) by {
        lemma_extends_itself(e.leaves[i].1[j]);
        if after.leaves[i] != e.leaves[i] {
            assert(after.leaves[i] == (name, children));
            assert(i == position(e.leaves, name));
            assert(children[j] == e.leaves[i].1[j]);
        }
    }
}

/// Writing a fact takes nothing away and moves nothing: the tree afterwards
/// holds what it held, where it held it.
pub proof fn lemma_sown_extends(e: EntryModel, g: GrainModel, trait_: Seq<char>, thing: Seq<char>)
    requires
        sown(e, g, trait_, thing) is Some,
    ensures
        extends(e, sown(e, g, trait_, thing)->0),
    decreases e,
{
    let after = sown(e, g, trait_, thing)->0;
    if e.base == thing {
        lemma_extends_itself(e);
        assert forall|i: int, j: int|
            0 <= i < e.leaves.len() && 0 <= j < e.leaves[i].1.len() implies extends(
            #[trigger] e.leaves[i].1[j],
            after.leaves[i].1[j],
        ) by {
            lemma_extends_itself(e.leaves[i].1[j]);
        }
    } else if e.base == trait_ {
        lemma_with_child_extends(e, after, thing, g.leaf_value);
    } else if has_key(e.leaves, trait_) {
        let items = lookup(e.leaves, trait_)->0;
        let p = position(e.leaves, trait_);
        let grown = Seq::new(items.len(), |k: int| grafted(items[k], g, thing));
        lemma_position(e.leaves, trait_);
        assert(after.leaves == e.leaves.update(p, (trait_, grown)));
        assert forall|i: int, j: int|
            0 <= i < e.leaves.len() && 0 <= j < e.leaves[i].1.len() implies extends(
            #[trigger] e.leaves[i].1[j],
            after.leaves[i].1[j],
        ) by {
            let child = e.leaves[i].1[j];
            lemma_extends_itself(child);
            if i == p && child.base_value == g.base_value {
                lemma_with_child_extends(child, grafted(child, g, thing), thing, g.leaf_value);
            }
        }
    } else {
        assert forall|i: int, j: int|
            0 <= i < e.leaves.len() && 0 <= j < e.leaves[i].1.len() implies extends(
            #[trigger] e.leaves[i].1[j],
            after.leaves[i].1[j],
        ) by {
            assert(sown(e.leaves[i].1[j], g, trait_, thing) is Some);
            lemma_sown_extends(e.leaves[i].1[j], g, trait_, thing);
        }
    }
}

} // verus!
