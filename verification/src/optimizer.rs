//! The chain-expansion engine: recipe selection, recursive tree expansion
//! with path-based cycle prevention, per-node consumption-rate arithmetic,
//! cross-branch aggregation and deterministic ordering.
//!
//! The whole expansion is specified by the recursive function
//! [`expand_spec`]: [`Optimizer::get_optimal_recipe`] returns exactly its
//! value. Cycle prevention is path-based — each child branch receives its
//! own copy of the visited path — so a diamond dependency is expanded once
//! per branch and collapsed only by the separate aggregation pass.

use crate::data::{lower_of, mats_view, recipe_rats_wf, to_lower, Recipe, RecipeV};
use crate::dsp::{
    catalog_view, catalog_wf, find_key, lemma_find_key, lemma_find_key_from_facts, node_rats_wf,
    nodes_view, ComputedRecipe, NodeV, RecipeRequirements,
};
use crate::rat::{
    rat_add, rat_div, rat_is_finite, rat_mul, rat_pos, rat_wf, rat_zero, Rat,
};
use vstd::prelude::*;
use vstd::set_lib::lemma_len_subset;
use vstd::string::StrSliceExecFns;

verus! {

/// The engine; holds the read-only catalog snapshot.
#[derive(Debug)]
pub struct Optimizer {
    recipe_map: Vec<(String, Vec<Recipe>)>,
}

/// View of a sequence of visited item names.
pub open spec fn names_seq(v: Seq<String>) -> Seq<Seq<char>> {
    v.map_values(|s: String| s@)
}

/// The set of visited item names.
pub open spec fn names_set(v: Seq<String>) -> Set<Seq<char>> {
    names_seq(v).to_set()
}

/// View of the variant-override map.
pub open spec fn reqs_view(v: Seq<(String, i64)>) -> Seq<(Seq<char>, i64)> {
    v.map_values(|p: (String, i64)| (p.0@, p.1))
}

/// The requested variant index for an item: the map's entry, or 0 when the
/// item is absent.
pub open spec fn req_idx_spec(reqs: Seq<(Seq<char>, i64)>, item: Seq<char>) -> i64 {
    let i = find_key(reqs, item);
    if i == -1 {
        0
    } else {
        reqs[i].1
    }
}

/// Recipe selection: the variant list under `key`, with the requested index
/// when it is in bounds and variant 0 otherwise; `None` when the catalog has
/// no entry for `key`.
pub open spec fn select_spec(
    cat: Seq<(Seq<char>, Seq<RecipeV>)>,
    key: Seq<char>,
    idx: i64,
) -> Option<RecipeV> {
    let i = find_key(cat, key);
    if i == -1 {
        None
    } else {
        let vs = cat[i].1;
        if 0 <= idx < vs.len() {
            Some(vs[idx as int])
        } else {
            Some(vs[0])
        }
    }
}

/// Facilities needed to sustain `rate`: `time * rate / output_item_count`,
/// or 0 when the recipe produces no output per craft.
pub open spec fn facilities_of(r: RecipeV, rate: Rat) -> Rat {
    if rat_pos(r.output_item_count) {
        rat_div(rat_mul(r.time, rate), r.output_item_count)
    } else {
        rat_zero()
    }
}

/// Per-material consumption: `quantity * facilities / time` per material, or
/// 0 when the craft time is not positive.
pub open spec fn consumption_of(r: RecipeV, rate: Rat) -> Seq<(Seq<char>, Rat)> {
    r.materials.map_values(
        |p: (Seq<char>, Rat)|
            (
                p.0,
                if rat_pos(r.time) {
                    rat_div(rat_mul(p.1, facilities_of(r, rate)), r.time)
                } else {
                    rat_zero()
                },
            ),
    )
}

/// The tree node computed for a resolved recipe at a given target rate.
pub open spec fn node_of(r: RecipeV, rate: Rat, parent: Seq<char>, depth: int) -> NodeV {
    NodeV {
        output_item: r.output_item,
        facility: r.facility,
        num_facilities_needed: facilities_of(r, rate),
        items_consumed_per_sec: consumption_of(r, rate),
        seconds_spent_per_craft: r.time,
        crafting_per_sec: rate,
        used_for: parent,
        depth: Some(depth),
        image: r.image,
    }
}

/// All material names that occur in one recipe list.
pub open spec fn entry_mat_names(rs: Seq<RecipeV>) -> Set<Seq<char>>
    decreases rs.len(),
{
    if rs.len() == 0 {
        Set::empty()
    } else {
        rs[0].materials.map_values(|p: (Seq<char>, Rat)| p.0).to_set() + entry_mat_names(
            rs.drop_first(),
        )
    }
}

/// All material names that occur anywhere in the catalog. Every item the
/// expansion can recurse into carries one of these names, which bounds the
/// depth of the recursion.
pub open spec fn mat_names(cat: Seq<(Seq<char>, Seq<RecipeV>)>) -> Set<Seq<char>>
    decreases cat.len(),
{
    if cat.len() == 0 {
        Set::empty()
    } else {
        entry_mat_names(cat[0].1) + mat_names(cat.drop_first())
    }
}

/// The termination measure of the expansion: how many catalog material
/// names (and the current item) are not yet on the visited path.
pub open spec fn expand_measure(
    cat: Seq<(Seq<char>, Seq<RecipeV>)>,
    item: Seq<char>,
    visited: Set<Seq<char>>,
) -> nat {
    (mat_names(cat).insert(item) - visited).len()
}

/// The corresponding measure while walking a node's material list.
pub open spec fn list_measure(
    cat: Seq<(Seq<char>, Seq<RecipeV>)>,
    items: Seq<(Seq<char>, Rat)>,
    visited: Set<Seq<char>>,
) -> nat {
    (mat_names(cat) + items.map_values(|p: (Seq<char>, Rat)| p.0).to_set() - visited).len()
}

/// The set of catalog material names is finite.
pub proof fn lemma_mat_names_finite(cat: Seq<(Seq<char>, Seq<RecipeV>)>)
    ensures
        mat_names(cat).finite(),
    decreases cat.len(),
{
    if cat.len() > 0 {
        lemma_entry_mat_names_finite(cat[0].1);
        lemma_mat_names_finite(cat.drop_first());
    }
}

/// The material names of one recipe list form a finite set.
pub proof fn lemma_entry_mat_names_finite(rs: Seq<RecipeV>)
    ensures
        entry_mat_names(rs).finite(),
    decreases rs.len(),
{
    if rs.len() > 0 {
        rs[0].materials.map_values(|p: (Seq<char>, Rat)| p.0).lemma_cardinality_of_set();
        lemma_entry_mat_names_finite(rs.drop_first());
    }
}

/// The materials of any recipe in the list are among the list's names.
pub proof fn lemma_entry_mat_names_contains(rs: Seq<RecipeV>, i: int, j: int)
    requires
        0 <= i < rs.len(),
        0 <= j < rs[i].materials.len(),
    ensures
        entry_mat_names(rs).contains(rs[i].materials[j].0),
    decreases rs.len(),
{
    if i == 0 {
        let m = rs[0].materials.map_values(|p: (Seq<char>, Rat)| p.0);
        assert(m[j] == rs[0].materials[j].0);
        assert(m.contains(m[j]));
    } else {
        lemma_entry_mat_names_contains(rs.drop_first(), i - 1, j);
    }
}

/// The materials of any recipe in the catalog are among the catalog's
/// material names.
pub proof fn lemma_mat_names_contains(
    cat: Seq<(Seq<char>, Seq<RecipeV>)>,
    e: int,
    i: int,
    j: int,
)
    requires
        0 <= e < cat.len(),
        0 <= i < cat[e].1.len(),
        0 <= j < cat[e].1[i].materials.len(),
    ensures
        mat_names(cat).contains(cat[e].1[i].materials[j].0),
    decreases cat.len(),
{
    if e == 0 {
        lemma_entry_mat_names_contains(cat[0].1, i, j);
    } else {
        lemma_mat_names_contains(cat.drop_first(), e - 1, i, j);
    }
}

/// A selected recipe's material names are all catalog material names.
pub proof fn lemma_select_mats_in(cat: Seq<(Seq<char>, Seq<RecipeV>)>, key: Seq<char>, idx: i64)
    requires
        select_spec(cat, key, idx) is Some,
        forall|i: int| 0 <= i < cat.len() ==> #[trigger] cat[i].1.len() > 0,
    ensures
        forall|j: int|
            0 <= j < select_spec(cat, key, idx).unwrap().materials.len() ==> mat_names(
                cat,
            ).contains(#[trigger] select_spec(cat, key, idx).unwrap().materials[j].0),
{
    let e = find_key(cat, key);
    lemma_find_key(cat, key);
    let r = select_spec(cat, key, idx).unwrap();
    let vi: int = if 0 <= idx < cat[e].1.len() {
        idx as int
    } else {
        0
    };
    assert forall|j: int| 0 <= j < r.materials.len() implies mat_names(cat).contains(
        #[trigger] r.materials[j].0,
    ) by {
        lemma_mat_names_contains(cat, e, vi, j);
    }
}

/// Entering a child strictly shrinks the measure: the child's material-name
/// pool loses the current item, which was still unvisited.
pub proof fn lemma_measure_child(
    cat: Seq<(Seq<char>, Seq<RecipeV>)>,
    item: Seq<char>,
    pool: Set<Seq<char>>,
    visited: Set<Seq<char>>,
)
    requires
        pool.subset_of(mat_names(cat)),
        !visited.contains(item),
    ensures
        ((mat_names(cat) + pool) - visited.insert(item)).len() < expand_measure(
            cat,
            item,
            visited,
        ),
{
    lemma_mat_names_finite(cat);
    let big = mat_names(cat).insert(item) - visited;
    let small = (mat_names(cat) + pool) - visited.insert(item);
    assert(big.finite());
    assert(small.subset_of(big.remove(item)));
    assert(big.remove(item).finite());
    lemma_len_subset(small, big.remove(item));
    assert(big.contains(item));
    assert(big.remove(item).len() == big.len() - 1);
}

/// Stepping from the material list into one of its members does not grow
/// the measure.
pub proof fn lemma_measure_list_head(
    cat: Seq<(Seq<char>, Seq<RecipeV>)>,
    items: Seq<(Seq<char>, Rat)>,
    i: int,
    visited: Set<Seq<char>>,
)
    requires
        0 <= i < items.len(),
    ensures
        expand_measure(cat, items[i].0, visited) <= list_measure(cat, items, visited),
{
    lemma_mat_names_finite(cat);
    let names = items.map_values(|p: (Seq<char>, Rat)| p.0);
    names.lemma_cardinality_of_set();
    let small = mat_names(cat).insert(items[i].0) - visited;
    let big = mat_names(cat) + names.to_set() - visited;
    assert(names[i] == items[i].0);
    assert(names.contains(names[i]));
    assert(small.subset_of(big));
    lemma_len_subset(small, big);
}

/// The number of material entries in one recipe list.
pub open spec fn entry_mats_total(rs: Seq<RecipeV>) -> nat
    decreases rs.len(),
{
    if rs.len() == 0 {
        0
    } else {
        rs[0].materials.len() + entry_mats_total(rs.drop_first())
    }
}

/// The number of material entries in the whole catalog.
pub open spec fn mats_total(cat: Seq<(Seq<char>, Seq<RecipeV>)>) -> nat
    decreases cat.len(),
{
    if cat.len() == 0 {
        0
    } else {
        entry_mats_total(cat[0].1) + mats_total(cat.drop_first())
    }
}

/// A recipe list has no more material names than material entries.
pub proof fn lemma_entry_mat_names_card(rs: Seq<RecipeV>)
    ensures
        entry_mat_names(rs).len() <= entry_mats_total(rs),
    decreases rs.len(),
{
    if rs.len() > 0 {
        let head = rs[0].materials.map_values(|p: (Seq<char>, Rat)| p.0);
        head.lemma_cardinality_of_set();
        lemma_entry_mat_names_card(rs.drop_first());
        lemma_entry_mat_names_finite(rs.drop_first());
        vstd::set_lib::lemma_len_union(head.to_set(), entry_mat_names(rs.drop_first()));
    }
}

/// The catalog has no more material names than material entries.
pub proof fn lemma_mat_names_card(cat: Seq<(Seq<char>, Seq<RecipeV>)>)
    ensures
        mat_names(cat).len() <= mats_total(cat),
    decreases cat.len(),
{
    if cat.len() > 0 {
        lemma_entry_mat_names_card(cat[0].1);
        lemma_entry_mat_names_finite(cat[0].1);
        lemma_mat_names_card(cat.drop_first());
        lemma_mat_names_finite(cat.drop_first());
        vstd::set_lib::lemma_len_union(entry_mat_names(cat[0].1), mat_names(cat.drop_first()));
    }
}

/// The number of material entries in a flat recipe list.
pub open spec fn seq_mats_total(rs: Seq<RecipeV>) -> nat
    decreases rs.len(),
{
    if rs.len() == 0 {
        0
    } else {
        seq_mats_total(rs.drop_last()) + rs.last().materials.len()
    }
}

/// Appending an entry adds its material count to the catalog total.
proof fn lemma_mats_total_push(
    cat: Seq<(Seq<char>, Seq<RecipeV>)>,
    e: (Seq<char>, Seq<RecipeV>),
)
    ensures
        mats_total(cat.push(e)) == mats_total(cat) + entry_mats_total(e.1),
    decreases cat.len(),
{
    if cat.len() == 0 {
        assert(cat.push(e)[0] == e);
        assert(cat.push(e).drop_first() =~= Seq::<(Seq<char>, Seq<RecipeV>)>::empty());
        assert(mats_total(cat.push(e)) == entry_mats_total(cat.push(e)[0].1) + mats_total(
            cat.push(e).drop_first(),
        ));
    } else {
        assert(cat.push(e)[0] == cat[0]);
        assert(cat.push(e).drop_first() =~= cat.drop_first().push(e));
        lemma_mats_total_push(cat.drop_first(), e);
        assert(mats_total(cat.push(e)) == entry_mats_total(cat.push(e)[0].1) + mats_total(
            cat.push(e).drop_first(),
        ));
        assert(mats_total(cat) == entry_mats_total(cat[0].1) + mats_total(cat.drop_first()));
    }
}

/// Appending a recipe to a variant list adds its material count.
proof fn lemma_entry_mats_total_push(rs: Seq<RecipeV>, r: RecipeV)
    ensures
        entry_mats_total(rs.push(r)) == entry_mats_total(rs) + r.materials.len(),
    decreases rs.len(),
{
    if rs.len() == 0 {
        assert(rs.push(r)[0] == r);
        assert(rs.push(r).drop_first() =~= Seq::<RecipeV>::empty());
        assert(entry_mats_total(rs.push(r)) == rs.push(r)[0].materials.len()
            + entry_mats_total(rs.push(r).drop_first()));
    } else {
        assert(rs.push(r)[0] == rs[0]);
        assert(rs.push(r).drop_first() =~= rs.drop_first().push(r));
        lemma_entry_mats_total_push(rs.drop_first(), r);
        assert(entry_mats_total(rs.push(r)) == rs.push(r)[0].materials.len()
            + entry_mats_total(rs.push(r).drop_first()));
        assert(entry_mats_total(rs) == rs[0].materials.len() + entry_mats_total(
            rs.drop_first(),
        ));
    }
}

/// Growing one entry's variant list grows the catalog total by the added
/// recipe's material count.
proof fn lemma_mats_total_update(
    cat: Seq<(Seq<char>, Seq<RecipeV>)>,
    i: int,
    k: Seq<char>,
    r: RecipeV,
)
    requires
        0 <= i < cat.len(),
    ensures
        mats_total(cat.update(i, (k, cat[i].1.push(r)))) == mats_total(cat) + r.materials.len(),
    decreases cat.len(),
{
    let upd = cat.update(i, (k, cat[i].1.push(r)));
    if i == 0 {
        assert(upd[0] == (k, cat[0].1.push(r)));
        assert(upd.drop_first() =~= cat.drop_first());
        lemma_entry_mats_total_push(cat[0].1, r);
    } else {
        assert(upd[0] == cat[0]);
        assert(upd.drop_first() =~= cat.drop_first().update(i - 1, (k, cat.drop_first()[i
            - 1].1.push(r))));
        lemma_mats_total_update(cat.drop_first(), i - 1, k, r);
    }
}

/// The grouped catalog holds exactly the material entries of the flat list:
/// what a caller needs, with [`lemma_expand_measure_bound`], to discharge
/// the depth bound of [`Optimizer::get_optimal_recipe`].
pub proof fn lemma_group_spec_mats_total(rs: Seq<RecipeV>)
    ensures
        mats_total(crate::dsp::group_spec(rs)) == seq_mats_total(rs),
    decreases rs.len(),
{
    if rs.len() > 0 {
        lemma_group_spec_mats_total(rs.drop_last());
        let acc = crate::dsp::group_spec(rs.drop_last());
        let r = rs.last();
        let k = lower_of(r.output_item);
        let i = find_key(acc, k);
        lemma_find_key(acc, k);
        if i == -1 {
            lemma_mats_total_push(acc, (k, seq![r]));
            assert(seq![r].drop_first() =~= Seq::<RecipeV>::empty());
            assert(entry_mats_total(seq![r]) == seq![r][0].materials.len() + entry_mats_total(
                seq![r].drop_first(),
            ));
            assert(entry_mats_total(seq![r]) == r.materials.len());
        } else {
            lemma_mats_total_update(acc, i, k, r);
        }
    }
}

/// The expansion measure is bounded by the catalog's material-entry count
/// plus one, whatever the path: what a caller needs to discharge the depth
/// bound of [`Optimizer::get_optimal_recipe`].
pub proof fn lemma_expand_measure_bound(
    cat: Seq<(Seq<char>, Seq<RecipeV>)>,
    item: Seq<char>,
    visited: Set<Seq<char>>,
)
    ensures
        expand_measure(cat, item, visited) <= mats_total(cat) + 1,
{
    lemma_mat_names_finite(cat);
    lemma_mat_names_card(cat);
    let rest = mat_names(cat).insert(item) - visited;
    assert(rest.subset_of(mat_names(cat).insert(item)));
    lemma_len_subset(rest, mat_names(cat).insert(item));
}

/// The full expansion of one item at one target rate: its own node followed
/// by the expansions of its materials, each against the visited path
/// extended with the item itself. Empty when the item is already on the
/// path or has no catalog entry.
pub open spec fn expand_spec(
    cat: Seq<(Seq<char>, Seq<RecipeV>)>,
    item: Seq<char>,
    rate: Rat,
    parent: Seq<char>,
    visited: Set<Seq<char>>,
    depth: int,
    reqs: Seq<(Seq<char>, i64)>,
) -> Seq<NodeV>
    decreases expand_measure(cat, item, visited), 0nat, 0nat,
    when forall|i: int| 0 <= i < cat.len() ==> #[trigger] cat[i].1.len() > 0
    via expand_spec_dec
{
    if visited.contains(item) {
        Seq::empty()
    } else {
        match select_spec(cat, lower_of(item), req_idx_spec(reqs, item)) {
            None => Seq::empty(),
            Some(r) => seq![node_of(r, rate, parent, depth)] + expand_list_spec(
                cat,
                consumption_of(r, rate),
                0,
                r.output_item,
                visited.insert(item),
                depth + 1,
                reqs,
            ),
        }
    }
}

/// The concatenated expansions of the materials from index `i` on.
pub open spec fn expand_list_spec(
    cat: Seq<(Seq<char>, Seq<RecipeV>)>,
    items: Seq<(Seq<char>, Rat)>,
    i: int,
    parent: Seq<char>,
    visited: Set<Seq<char>>,
    depth: int,
    reqs: Seq<(Seq<char>, i64)>,
) -> Seq<NodeV>
    decreases list_measure(cat, items, visited), 1nat, items.len() - i,
    when forall|k: int| 0 <= k < cat.len() ==> #[trigger] cat[k].1.len() > 0
    via expand_list_spec_dec
{
    if i < 0 || i >= items.len() {
        Seq::empty()
    } else {
        expand_spec(cat, items[i].0, items[i].1, parent, visited, depth, reqs)
            + expand_list_spec(cat, items, i + 1, parent, visited, depth, reqs)
    }
}

#[via_fn]
proof fn expand_spec_dec(
    cat: Seq<(Seq<char>, Seq<RecipeV>)>,
    item: Seq<char>,
    rate: Rat,
    parent: Seq<char>,
    visited: Set<Seq<char>>,
    depth: int,
    reqs: Seq<(Seq<char>, i64)>,
) {
    if !visited.contains(item) {
        let sel = select_spec(cat, lower_of(item), req_idx_spec(reqs, item));
        if sel is Some {
            let r = sel.unwrap();
            let cons = consumption_of(r, rate);
            lemma_select_mats_in(cat, lower_of(item), req_idx_spec(reqs, item));
            let pool = cons.map_values(|p: (Seq<char>, Rat)| p.0).to_set();
            assert(pool.subset_of(mat_names(cat))) by {
                assert forall|x: Seq<char>| pool.contains(x) implies mat_names(cat).contains(
                    x,
                ) by {
                    let names = cons.map_values(|p: (Seq<char>, Rat)| p.0);
                    let j = choose|j: int| 0 <= j < names.len() && names[j] == x;
                    assert(cons[j].0 == r.materials[j].0);
                }
            }
            lemma_measure_child(cat, item, pool, visited);
        }
    }
}

#[via_fn]
proof fn expand_list_spec_dec(
    cat: Seq<(Seq<char>, Seq<RecipeV>)>,
    items: Seq<(Seq<char>, Rat)>,
    i: int,
    parent: Seq<char>,
    visited: Set<Seq<char>>,
    depth: int,
    reqs: Seq<(Seq<char>, i64)>,
) {
    if 0 <= i < items.len() {
        lemma_measure_list_head(cat, items, i, visited);
    }
}

/// View of an optional recipe.
pub open spec fn opt_recipe_view(o: Option<Recipe>) -> Option<RecipeV> {
    match o {
        Some(r) => Some(r@),
        None => None,
    }
}

/// The larger of two optional depths; `None` only when both are `None`.
pub open spec fn opt_max(a: Option<i64>, b: Option<i64>) -> Option<i64> {
    match (a, b) {
        (Some(x), Some(y)) => if x >= y {
            Some(x)
        } else {
            Some(y)
        },
        (Some(x), None) => Some(x),
        (None, Some(y)) => Some(y),
        (None, None) => None,
    }
}

/// The larger of two optional depths, exactly [`opt_max`].
pub fn max(a: Option<i64>, b: Option<i64>) -> (r: Option<i64>)
    ensures
        r == opt_max(a, b),
{
    match (a, b) {
        (Some(x), Some(y)) => if x >= y {
            Some(x)
        } else {
            Some(y)
        },
        (Some(x), None) => Some(x),
        (None, Some(y)) => Some(y),
        (None, None) => None,
    }
}

/// Whether a name is on the visited path.
fn contains_name(v: &Vec<String>, x: &String) -> (b: bool)
    ensures
        b == names_set(v@).contains(x@),
{
    let mut i: usize = 0;
    while i < v.len()
        invariant
            i <= v@.len(),
            forall|j: int| 0 <= j < i ==> names_seq(v@)[j] != x@,
        decreases v@.len() - i,
    {
        proof {
            assert(names_seq(v@)[i as int] == v@[i as int]@);
        }
        if v[i] == *x {
            proof {
                assert(names_seq(v@).contains(names_seq(v@)[i as int]));
            }
            return true;
        }
        i = i + 1;
    }
    proof {
        assert(forall|j: int|
            0 <= j < v@.len() ==> #[trigger] names_seq(v@)[j] == v@[j]@);
        if names_set(v@).contains(x@) {
            let j = choose|j: int| 0 <= j < names_seq(v@).len() && names_seq(v@)[j] == x@;
            assert(false);
        }
    }
    false
}

/// An exact copy of the visited path.
fn dup_names(v: &Vec<String>) -> (r: Vec<String>)
    ensures
        r@.len() == v@.len(),
        forall|i: int| 0 <= i < v@.len() ==> r@[i]@ == v@[i]@,
        names_set(r@) == names_set(v@),
{
    let mut r: Vec<String> = Vec::new();
    let mut i: usize = 0;
    while i < v.len()
        invariant
            i <= v@.len(),
            r@.len() == i,
            forall|j: int| 0 <= j < i ==> r@[j]@ == v@[j]@,
        decreases v@.len() - i,
    {
        r.push(v[i].clone());
        i = i + 1;
    }
    proof {
        assert(names_seq(r@) =~= names_seq(v@));
    }
    r
}

/// An exact copy of the variant-override map, with the same view.
fn dup_reqs(v: &RecipeRequirements) -> (r: RecipeRequirements)
    ensures
        reqs_view(r@) == reqs_view(v@),
{
    let mut r: RecipeRequirements = Vec::new();
    let mut i: usize = 0;
    while i < v.len()
        invariant
            i <= v@.len(),
            r@.len() == i,
            forall|j: int| 0 <= j < i ==> r@[j].0@ == v@[j].0@ && r@[j].1 == v@[j].1,
        decreases v@.len() - i,
    {
        let (k, idx) = &v[i];
        r.push((k.clone(), *idx));
        i = i + 1;
    }
    proof {
        assert(reqs_view(r@) =~= reqs_view(v@));
    }
    r
}

/// The requested variant index for an item, defaulting to 0; exactly
/// [`req_idx_spec`].
fn req_index(reqs: &RecipeRequirements, name: &String) -> (r: i64)
    ensures
        r == req_idx_spec(reqs_view(reqs@), name@),
{
    proof {
        lemma_find_key(reqs_view(reqs@), name@);
    }
    let mut i: usize = 0;
    while i < reqs.len()
        invariant
            i <= reqs@.len(),
            forall|j: int| 0 <= j < i ==> reqs_view(reqs@)[j].0 != name@,
        decreases reqs@.len() - i,
    {
        proof {
            assert(reqs_view(reqs@)[i as int].0 == reqs@[i as int].0@);
        }
        if reqs[i].0 == *name {
            proof {
                lemma_find_key_from_facts(reqs_view(reqs@), name@, i as int);
            }
            return reqs[i].1;
        }
        i = i + 1;
    }
    0
}

impl Optimizer {
    /// The catalog snapshot, viewed.
    pub closed spec fn catalog_v(&self) -> Seq<(Seq<char>, Seq<RecipeV>)> {
        catalog_view(self.recipe_map@)
    }

    /// The engine is usable: its catalog is well formed.
    pub open spec fn wf(&self) -> bool {
        catalog_wf(self.catalog_v())
    }

    /// An engine with an empty catalog.
    pub fn new() -> (r: Optimizer)
        ensures
            r.wf(),
            r.catalog_v() == Seq::<(Seq<char>, Seq<RecipeV>)>::empty(),
    {
        let r = Optimizer { recipe_map: Vec::new() };
        proof {
            assert(r.catalog_v() =~= Seq::<(Seq<char>, Seq<RecipeV>)>::empty());
        }
        r
    }

    /// Install the catalog snapshot: lowercased item name to its variant
    /// list, keys unique, lists non-empty, rationals well formed (what
    /// [`crate::dsp::load_recipe_map`] builds).
    pub fn set_recipes(&mut self, recipes: Vec<(String, Vec<Recipe>)>)
        requires
            catalog_wf(catalog_view(recipes@)),
        ensures
            final(self).catalog_v() == catalog_view(recipes@),
            final(self).wf(),
    {
        self.recipe_map = recipes;
    }

    /// Resolve an item name (case-insensitively) to one recipe: the
    /// requested variant when its index is in bounds, variant 0 otherwise,
    /// `None` when the catalog has no entry. Exactly [`select_spec`].
    fn get_recipe(&self, item_name: String, recipe_idx: i64) -> (res: Option<Recipe>)
        requires
            self.wf(),
        ensures
            opt_recipe_view(res) == select_spec(self.catalog_v(), lower_of(item_name@), recipe_idx),
            res is Some ==> recipe_rats_wf(res.unwrap()@),
    {
        let name = to_lower(item_name.as_str());
        proof {
            lemma_find_key(self.catalog_v(), name@);
        }
        let pos = crate::dsp::find_key_exec(&self.recipe_map, &name);
        if pos >= self.recipe_map.len() {
            return None;
        }
        let variants = &self.recipe_map[pos].1;
        proof {
            assert(self.catalog_v()[pos as int].1 == crate::dsp::recipes_view(variants@));
        }
        if recipe_idx >= 0 && (recipe_idx as u64) < (variants.len() as u64) {
            let vi: usize = recipe_idx as usize;
            proof {
                assert(vi as int == recipe_idx as int);
                assert(crate::dsp::recipes_view(variants@)[vi as int] == variants@[vi as int]@);
                assert(recipe_rats_wf(self.catalog_v()[pos as int].1[vi as int]));
            }
            Some(variants[vi].duplicate())
        } else {
            proof {
                assert(crate::dsp::recipes_view(variants@)[0] == variants@[0]@);
                assert(recipe_rats_wf(self.catalog_v()[pos as int].1[0]));
            }
            Some(variants[0].duplicate())
        }
    }

    /// Every variant list in the catalog, in catalog order.
    fn get_recipes(&self) -> (res: Vec<Vec<Recipe>>)
        ensures
            res@.len() == self.catalog_v().len(),
            forall|i: int|
                0 <= i < res@.len() ==> crate::dsp::recipes_view(#[trigger] res@[i]@)
                    == self.catalog_v()[i].1,
    {
        let mut recipes: Vec<Vec<Recipe>> = Vec::new();
        let mut i: usize = 0;
        while i < self.recipe_map.len()
            invariant
                i <= self.recipe_map@.len(),
                recipes@.len() == i,
                forall|j: int|
                    0 <= j < i ==> crate::dsp::recipes_view(#[trigger] recipes@[j]@)
                        == self.catalog_v()[j].1,
            decreases self.recipe_map@.len() - i,
        {
            let vs = &self.recipe_map[i].1;
            let mut copy: Vec<Recipe> = Vec::new();
            let mut j: usize = 0;
            while j < vs.len()
                invariant
                    j <= vs@.len(),
                    copy@.len() == j,
                    forall|k: int| 0 <= k < j ==> #[trigger] copy@[k]@ == vs@[k]@,
                decreases vs@.len() - j,
            {
                copy.push(vs[j].duplicate());
                j = j + 1;
            }
            proof {
                assert(crate::dsp::recipes_view(copy@) =~= crate::dsp::recipes_view(vs@));
                assert(self.catalog_v()[i as int].1 == crate::dsp::recipes_view(vs@));
            }
            recipes.push(copy);
            i = i + 1;
        }
        recipes
    }

    /// Expand an item into its full production chain at the given target
    /// rate: the item's own node first (pre-order), then the expansion of
    /// each consumed material at its consumption rate, one tier deeper.
    ///
    /// `seen_recipes` is the visited path from the root: an item already on
    /// it expands to nothing (cycle guard), and each child branch receives
    /// its own copy of the path. The caller's path gains the current item.
    /// Returns exactly [`expand_spec`].
    #[verifier::loop_isolation(false)]
    pub fn get_optimal_recipe(
        &self,
        item_name: String,
        crafting_speed: Rat,
        parent_item_name: String,
        seen_recipes: &mut Vec<String>,
        depth: i64,
        recipe_requirements: RecipeRequirements,
    ) -> (res: Vec<ComputedRecipe>)
        requires
            self.wf(),
            rat_wf(crafting_speed),
            depth + expand_measure(self.catalog_v(), item_name@, names_set(old(seen_recipes)@))
                <= i64::MAX,
        ensures
            nodes_view(res@) == expand_spec(
                self.catalog_v(),
                item_name@,
                crafting_speed,
                parent_item_name@,
                names_set(old(seen_recipes)@),
                depth as int,
                reqs_view(recipe_requirements@),
            ),
            forall|i: int| 0 <= i < res@.len() ==> node_rats_wf(#[trigger] res@[i]@),
            final(seen_recipes)@ == (if names_set(old(seen_recipes)@).contains(item_name@) {
                old(seen_recipes)@
            } else {
                old(seen_recipes)@.push(item_name)
            }),
        decreases expand_measure(self.catalog_v(), item_name@, names_set(old(seen_recipes)@)),
    {
        let ghost cat = self.catalog_v();
        let ghost v0 = names_set(seen_recipes@);
        let ghost reqs_v = reqs_view(recipe_requirements@);
        let mut computed_recipes: Vec<ComputedRecipe> = Vec::new();

        if contains_name(seen_recipes, &item_name) {
            proof {
                assert(nodes_view(computed_recipes@) =~= expand_spec(
                    cat,
                    item_name@,
                    crafting_speed,
                    parent_item_name@,
                    v0,
                    depth as int,
                    reqs_v,
                ));
            }
            return computed_recipes;
        }
        seen_recipes.push(item_name.clone());

        let recipe_idx = req_index(&recipe_requirements, &item_name);
        let recipe = self.get_recipe(item_name.clone(), recipe_idx);
        if recipe.is_none() {
            proof {
                assert(nodes_view(computed_recipes@) =~= expand_spec(
                    cat,
                    item_name@,
                    crafting_speed,
                    parent_item_name@,
                    v0,
                    depth as int,
                    reqs_v,
                ));
            }
            return computed_recipes;
        }
        let recipe = recipe.unwrap();
        let ghost rv = recipe@;
        proof {
            assert(Some(rv) == select_spec(cat, lower_of(item_name@), req_idx_spec(
                reqs_v,
                item_name@,
            )));
        }

        let mut number_of_facilities_needed = Rat::zero();
        if recipe.output_item_count.is_pos() {
            number_of_facilities_needed = recipe.time.times(crafting_speed).divided_by(
                recipe.output_item_count,
            );
        }
        proof {
            assert(number_of_facilities_needed == facilities_of(rv, crafting_speed));
        }

        let mut consumed_mats: Vec<(String, Rat)> = Vec::new();
        let ghost cons_v = consumption_of(rv, crafting_speed);
        let mut i: usize = 0;
        proof {
            assert(mats_view(consumed_mats@) =~= cons_v.take(0));
        }
        while i < recipe.materials.len()
            invariant
                i <= recipe.materials@.len(),
                consumed_mats@.len() == i,
                mats_view(consumed_mats@) == cons_v.take(i as int),
                forall|j: int| 0 <= j < i ==> rat_wf(#[trigger] consumed_mats@[j].1),
            decreases recipe.materials@.len() - i,
        {
            proof {
                assert(mats_view(recipe.materials@)[i as int] == (
                    recipe.materials@[i as int].0@,
                    recipe.materials@[i as int].1,
                ));
                assert(rat_wf(rv.materials[i as int].1));
            }
            let material_count = recipe.materials[i].1;
            let mut new_material_count = Rat::zero();
            if recipe.time.is_pos() {
                new_material_count = material_count.times(number_of_facilities_needed)
                    .divided_by(recipe.time);
            }
            let mat_name = recipe.materials[i].0.clone();
            consumed_mats.push((mat_name, new_material_count));
            i = i + 1;
            proof {
                assert(rv.materials[i - 1] == mats_view(recipe.materials@)[i - 1]);
                assert(mats_view(consumed_mats@) =~= cons_v.take(i as int));
            }
        }
        proof {
            assert(mats_view(consumed_mats@) == cons_v) by {
                assert(cons_v.take(recipe.materials@.len() as int) =~= cons_v);
            }
        }

        let node_mats = crate::data::dup_mats(&consumed_mats);
        let computed_recipe = ComputedRecipe {
            output_item: recipe.output_item.clone(),
            facility: recipe.facility.clone(),
            num_facilities_needed: number_of_facilities_needed,
            items_consumed_per_sec: node_mats,
            seconds_spent_per_craft: recipe.time,
            crafting_per_sec: crafting_speed,
            used_for: parent_item_name.clone(),
            depth: Some(depth),
            image: crate::data::dup_opt_string(&recipe.image),
        };
        proof {
            assert(mats_view(computed_recipe.items_consumed_per_sec@) == cons_v);
            assert(computed_recipe@ == node_of(rv, crafting_speed, parent_item_name@, depth as int));
        }
        computed_recipes.push(computed_recipe);

        let ghost v1 = v0.insert(item_name@);
        let ghost head = seq![node_of(rv, crafting_speed, parent_item_name@, depth as int)];
        proof {
            assert(names_seq(seen_recipes@) =~= names_seq(old(seen_recipes)@).push(item_name@));
            names_seq(old(seen_recipes)@).lemma_push_to_set_commute(item_name@);
            assert(names_set(seen_recipes@) =~= v1);
            assert(nodes_view(computed_recipes@) =~= head + expand_list_spec(
                cat,
                cons_v,
                cons_v.len() as int,
                rv.output_item,
                v1,
                depth + 1,
                reqs_v,
            ));
        }

        let ghost full = head + expand_list_spec(
            cat,
            cons_v,
            0,
            rv.output_item,
            v1,
            depth + 1,
            reqs_v,
        );
        let mut k: usize = 0;
        proof {
            assert(nodes_view(computed_recipes@) + expand_list_spec(
                cat,
                cons_v,
                0,
                rv.output_item,
                v1,
                depth + 1,
                reqs_v,
            ) =~= full);
        }
        while k < consumed_mats.len()
            invariant
                k <= consumed_mats@.len(),
                consumed_mats@.len() == cons_v.len(),
                mats_view(consumed_mats@) == cons_v,
                nodes_view(computed_recipes@) + expand_list_spec(
                    cat,
                    cons_v,
                    k as int,
                    rv.output_item,
                    v1,
                    depth + 1,
                    reqs_v,
                ) == full,
                forall|j: int|
                    0 <= j < computed_recipes@.len() ==> node_rats_wf(
                        #[trigger] computed_recipes@[j]@,
                    ),
            decreases consumed_mats@.len() - k,
        {
            let target_crafting_speed = consumed_mats[k].1;
            let material_name = consumed_mats[k].0.clone();
            let mut seen_recipes_copy = dup_names(seen_recipes);
            proof {
                assert(names_set(seen_recipes_copy@) == v1);
                assert(cons_v[k as int] == mats_view(consumed_mats@)[k as int]);
                assert(material_name@ == cons_v[k as int].0);
                // Termination and depth bound for the child call.
                lemma_select_mats_in(cat, lower_of(item_name@), req_idx_spec(reqs_v, item_name@));
                let pool = cons_v.map_values(|p: (Seq<char>, Rat)| p.0).to_set();
                assert(pool.subset_of(mat_names(cat))) by {
                    assert forall|x: Seq<char>| pool.contains(x) implies mat_names(cat).contains(
                        x,
                    ) by {
                        let names = cons_v.map_values(|p: (Seq<char>, Rat)| p.0);
                        let j = choose|j: int| 0 <= j < names.len() && names[j] == x;
                        assert(cons_v[j].0 == rv.materials[j].0);
                    }
                }
                lemma_measure_child(cat, item_name@, pool, v0);
                lemma_measure_list_head(cat, cons_v, k as int, v1);
                assert(list_measure(cat, cons_v, v1) == ((mat_names(cat) + pool) - v0.insert(
                    item_name@,
                )).len());
                assert(expand_measure(cat, cons_v[k as int].0, v1) < expand_measure(
                    cat,
                    item_name@,
                    v0,
                ));
            }
            let mut cr = self.get_optimal_recipe(
                material_name,
                target_crafting_speed,
                recipe.output_item.clone(),
                &mut seen_recipes_copy,
                depth + 1,
                dup_reqs(&recipe_requirements),
            );
            proof {
                assert(expand_list_spec(
                    cat,
                    cons_v,
                    k as int,
                    rv.output_item,
                    v1,
                    depth + 1,
                    reqs_v,
                ) == nodes_view(cr@) + expand_list_spec(
                    cat,
                    cons_v,
                    k + 1,
                    rv.output_item,
                    v1,
                    depth + 1,
                    reqs_v,
                ));
            }
            let ghost pre = computed_recipes@;
            computed_recipes.append(&mut cr);
            k = k + 1;
            proof {
                assert(nodes_view(computed_recipes@) =~= nodes_view(pre) + nodes_view(
                    computed_recipes@.subrange(pre.len() as int, computed_recipes@.len() as int),
                ));
                assert(nodes_view(computed_recipes@) + expand_list_spec(
                    cat,
                    cons_v,
                    k as int,
                    rv.output_item,
                    v1,
                    depth + 1,
                    reqs_v,
                ) =~= full);
            }
        }
        proof {
            assert(expand_list_spec(
                cat,
                cons_v,
                cons_v.len() as int,
                rv.output_item,
                v1,
                depth + 1,
                reqs_v,
            ) =~= Seq::<NodeV>::empty());
            assert(nodes_view(computed_recipes@) =~= full);
            assert(full =~= expand_spec(
                cat,
                item_name@,
                crafting_speed,
                parent_item_name@,
                v0,
                depth as int,
                reqs_v,
            ));
        }
        computed_recipes
    }
}


/// The first index in a node list whose `output_item` is `name`, or -1.
pub open spec fn find_node(s: Seq<NodeV>, name: Seq<char>) -> int
    decreases s.len(),
{
    if s.len() == 0 {
        -1
    } else if s[0].output_item == name {
        0
    } else {
        let r = find_node(s.drop_first(), name);
        if r == -1 {
            -1
        } else {
            r + 1
        }
    }
}

/// What [`find_node`] returns.
pub proof fn lemma_find_node(s: Seq<NodeV>, name: Seq<char>)
    ensures
        find_node(s, name) == -1 ==> forall|i: int|
            0 <= i < s.len() ==> (#[trigger] s[i]).output_item != name,
        find_node(s, name) != -1 ==> 0 <= find_node(s, name) < s.len() && s[find_node(
            s,
            name,
        )].output_item == name,
        find_node(s, name) != -1 ==> forall|i: int|
            0 <= i < find_node(s, name) ==> (#[trigger] s[i]).output_item != name,
    decreases s.len(),
{
    if s.len() > 0 {
        lemma_find_node(s.drop_first(), name);
        if s[0].output_item != name {
            assert(forall|i: int|
                1 <= i < s.len() ==> #[trigger] s[i] == s.drop_first()[i - 1]);
        }
    }
}

/// When index `i` holds `name` and no earlier index does, [`find_node`]
/// returns `i`.
pub proof fn lemma_find_node_from_facts(s: Seq<NodeV>, name: Seq<char>, i: int)
    requires
        0 <= i < s.len(),
        s[i].output_item == name,
        forall|j: int| 0 <= j < i ==> (#[trigger] s[j]).output_item != name,
    ensures
        find_node(s, name) == i,
    decreases s.len(),
{
    if i > 0 {
        assert(forall|j: int| 1 <= j < s.len() ==> #[trigger] s[j] == s.drop_first()[j - 1]);
        lemma_find_node_from_facts(s.drop_first(), name, i - 1);
    }
}

/// Find the position of `name` among the accumulated nodes, or the length
/// when absent; computes [`find_node`].
fn find_node_exec(v: &Vec<ComputedRecipe>, name: &String) -> (r: usize)
    ensures
        r <= v@.len(),
        r < v@.len() ==> r as int == find_node(nodes_view(v@), name@),
        r == v@.len() ==> find_node(nodes_view(v@), name@) == -1,
{
    proof {
        lemma_find_node(nodes_view(v@), name@);
    }
    let mut i: usize = 0;
    while i < v.len()
        invariant
            i <= v@.len(),
            forall|j: int| 0 <= j < i ==> nodes_view(v@)[j].output_item != name@,
        decreases v@.len() - i,
    {
        proof {
            assert(nodes_view(v@)[i as int] == v@[i as int]@);
        }
        if v[i].output_item == *name {
            proof {
                lemma_find_node_from_facts(nodes_view(v@), name@, i as int);
            }
            return i;
        }
        i = i + 1;
    }
    i
}

/// Find the position of `name` in a consumption map, or the length when
/// absent; computes [`crate::dsp::find_key`].
fn find_mat_exec(v: &Vec<(String, Rat)>, name: &String) -> (r: usize)
    ensures
        r <= v@.len(),
        r < v@.len() ==> r as int == find_key(mats_view(v@), name@),
        r == v@.len() ==> find_key(mats_view(v@), name@) == -1,
{
    proof {
        lemma_find_key(mats_view(v@), name@);
    }
    let mut i: usize = 0;
    while i < v.len()
        invariant
            i <= v@.len(),
            forall|j: int| 0 <= j < i ==> mats_view(v@)[j].0 != name@,
        decreases v@.len() - i,
    {
        proof {
            assert(mats_view(v@)[i as int].0 == v@[i as int].0@);
        }
        if v[i].0 == *name {
            proof {
                lemma_find_key_from_facts(mats_view(v@), name@, i as int);
            }
            return i;
        }
        i = i + 1;
    }
    i
}

/// The audit-trail suffix `" (Uses <rate>/s)"`.
pub open spec fn uses_suffix(cps: Rat) -> Seq<char> {
    seq![' ', '(', 'U', 's', 'e', 's', ' '] + crate::rat::rat_str(cps) + seq!['/', 's', ')']
}

/// The label of a freshly inserted aggregate: the node's `used_for`,
/// suffixed with its rate when non-empty.
pub open spec fn first_label(used_for: Seq<char>, cps: Rat) -> Seq<char> {
    if used_for.len() == 0 {
        used_for
    } else {
        used_for + uses_suffix(cps)
    }
}

/// The label of a merge: the two labels joined by a separator, with the
/// incoming node's rate appended.
pub open spec fn merge_label(a: Seq<char>, b: Seq<char>, cps: Rat) -> Seq<char> {
    a + seq![' ', '|', ' '] + b + uses_suffix(cps)
}

/// Append the audit-trail suffix to a label; exactly [`uses_suffix`].
fn push_uses_suffix(s: &mut String, cps: Rat)
    requires
        rat_wf(cps),
    ensures
        final(s)@ == old(s)@ + uses_suffix(cps),
{
    proof {
        reveal_strlit(" (Uses ");
        reveal_strlit("/s)");
    }
    s.append(" (Uses ");
    let d = cps.to_display();
    s.append(d.as_str());
    s.append("/s)");
    proof {
        assert(s@ =~= old(s)@ + uses_suffix(cps));
    }
}

/// Build the merge label; exactly [`merge_label`].
fn merge_label_exec(a: &String, b: &String, cps: Rat) -> (r: String)
    requires
        rat_wf(cps),
    ensures
        r@ == merge_label(a@, b@, cps),
{
    proof {
        reveal_strlit(" | ");
    }
    let mut s = String::new();
    s.append(a.as_str());
    s.append(" | ");
    s.append(b.as_str());
    push_uses_suffix(&mut s, cps);
    proof {
        assert(s@ =~= merge_label(a@, b@, cps));
    }
    s
}

/// The larger of two optional depths, over the view; `None` only when both
/// are `None`.
pub open spec fn opt_max_int(a: Option<int>, b: Option<int>) -> Option<int> {
    match (a, b) {
        (Some(x), Some(y)) => if x >= y {
            Some(x)
        } else {
            Some(y)
        },
        (Some(x), None) => Some(x),
        (None, Some(y)) => Some(y),
        (None, None) => None,
    }
}

/// The merge of an incoming node into the accumulated node for the same
/// output item: facility counts, consumption rates and target rates add;
/// the craft time becomes the facility-weighted average; the audit label
/// concatenates; the depth is the larger of the two.
pub open spec fn merge_nodes(a: NodeV, b: NodeV) -> NodeV {
    let total = rat_add(a.num_facilities_needed, b.num_facilities_needed);
    NodeV {
        output_item: a.output_item,
        facility: a.facility,
        num_facilities_needed: total,
        items_consumed_per_sec: a.items_consumed_per_sec.map_values(
            |p: (Seq<char>, Rat)|
                (
                    p.0,
                    rat_add(
                        p.1,
                        b.items_consumed_per_sec[find_key(b.items_consumed_per_sec, p.0)].1,
                    ),
                ),
        ),
        seconds_spent_per_craft: if rat_pos(total) {
            rat_div(
                rat_add(
                    rat_mul(a.seconds_spent_per_craft, a.num_facilities_needed),
                    rat_mul(b.seconds_spent_per_craft, b.num_facilities_needed),
                ),
                total,
            )
        } else {
            rat_zero()
        },
        crafting_per_sec: rat_add(a.crafting_per_sec, b.crafting_per_sec),
        used_for: merge_label(a.used_for, b.used_for, b.crafting_per_sec),
        depth: opt_max_int(a.depth, b.depth),
        image: a.image,
    }
}

/// A node as first inserted into the aggregation: unchanged but for the
/// rate suffix on a non-empty `used_for`.
pub open spec fn first_insert(n: NodeV) -> NodeV {
    NodeV { used_for: first_label(n.used_for, n.crafting_per_sec), ..n }
}

/// One step of the aggregation fold.
pub open spec fn combine_step(acc: Seq<NodeV>, n: NodeV) -> Seq<NodeV> {
    let i = find_node(acc, n.output_item);
    if i == -1 {
        acc.push(first_insert(n))
    } else {
        acc.update(i, merge_nodes(acc[i], n))
    }
}

/// The aggregation of a node sequence, in input order: nodes sharing an
/// output item are merged left to right into the entry made by the first.
pub open spec fn combine_spec(s: Seq<NodeV>) -> Seq<NodeV>
    decreases s.len(),
{
    if s.len() == 0 {
        Seq::empty()
    } else {
        combine_step(combine_spec(s.drop_last()), s.last())
    }
}

/// The node's output item and material names already occur together on an
/// earlier input node: the invariant the aggregation keeps about its
/// accumulator.
pub open spec fn keys_from(s: Seq<NodeV>, n: NodeV, t: int) -> bool {
    exists|i0: int|
        0 <= i0 < t && (#[trigger] s[i0]).output_item == n.output_item && s[
            i0
        ].items_consumed_per_sec.map_values(|p: (Seq<char>, Rat)| p.0)
            == n.items_consumed_per_sec.map_values(|p: (Seq<char>, Rat)| p.0)
}

/// A witness below `t1` is also one below any later `t2`.
pub proof fn lemma_keys_from_mono(s: Seq<NodeV>, n: NodeV, t1: int, t2: int)
    requires
        keys_from(s, n, t1),
        t1 <= t2,
    ensures
        keys_from(s, n, t2),
{
    let i0 = choose|i0: int|
        0 <= i0 < t1 && (#[trigger] s[i0]).output_item == n.output_item && s[
            i0
        ].items_consumed_per_sec.map_values(|p: (Seq<char>, Rat)| p.0)
            == n.items_consumed_per_sec.map_values(|p: (Seq<char>, Rat)| p.0);
    assert(0 <= i0 < t2 && s[i0].output_item == n.output_item && s[
        i0
    ].items_consumed_per_sec.map_values(|p: (Seq<char>, Rat)| p.0)
        == n.items_consumed_per_sec.map_values(|p: (Seq<char>, Rat)| p.0));
}

/// Nodes sharing an output item carry the same material names: what the
/// merge rule assumes of its input, since such nodes come from the same
/// recipe.
pub open spec fn mergeable(s: Seq<NodeV>) -> bool {
    forall|i: int, j: int, m: int|
        0 <= i < j < s.len() && (#[trigger] s[i]).output_item == (#[trigger] s[j]).output_item
            && 0 <= m < s[i].items_consumed_per_sec.len() ==> find_key(
            s[j].items_consumed_per_sec,
            #[trigger] s[i].items_consumed_per_sec[m].0,
        ) != -1
}


impl Optimizer {
    /// Collapse nodes sharing an output item into one summary node each, in
    /// first-seen order; the input is left unchanged. Exactly
    /// [`combine_spec`].
    #[verifier::loop_isolation(false)]
    pub fn combine_recipes(&self, recipes: &mut Vec<ComputedRecipe>) -> (res: Vec<ComputedRecipe>)
        requires
            mergeable(nodes_view(old(recipes)@)),
            forall|i: int|
                0 <= i < old(recipes)@.len() ==> node_rats_wf(#[trigger] old(recipes)@[i]@),
        ensures
            final(recipes)@ == old(recipes)@,
            nodes_view(res@) == combine_spec(nodes_view(old(recipes)@)),
            forall|i: int| 0 <= i < res@.len() ==> node_rats_wf(#[trigger] res@[i]@),
    {
        let ghost s = nodes_view(recipes@);
        let mut unique_recipes: Vec<ComputedRecipe> = Vec::new();
        let mut t: usize = 0;
        proof {
            assert(nodes_view(unique_recipes@) =~= combine_spec(s.take(0)));
        }
        while t < recipes.len()
            invariant
                t <= s.len(),
                recipes@.len() == s.len(),
                nodes_view(unique_recipes@) == combine_spec(s.take(t as int)),
                forall|q: int|
                    0 <= q < unique_recipes@.len() ==> node_rats_wf(
                        #[trigger] unique_recipes@[q]@,
                    ),
                forall|q: int|
                    0 <= q < unique_recipes@.len() ==> keys_from(
                        s,
                        #[trigger] unique_recipes@[q]@,
                        t as int,
                    ),
            decreases s.len() - t,
        {
            let ghost pre = nodes_view(unique_recipes@);
            proof {
                assert(s[t as int] == recipes@[t as int]@);
                assert(s.take(t + 1).drop_last() =~= s.take(t as int));
            }
            let pos = find_node_exec(&unique_recipes, &recipes[t].output_item);
            proof {
                lemma_find_node(pre, recipes@[t as int].output_item@);
            }
            if pos < unique_recipes.len() {
                proof {
                    assert(pre[pos as int] == unique_recipes@[pos as int]@);
                    assert(pre[pos as int].output_item == s[t as int].output_item);
                }
                let u_recipe = unique_recipes.remove(pos);
                let ghost uv = u_recipe@;
                let ghost bv = s[t as int];
                proof {
                    assert(keys_from(s, uv, t as int));
                }
                let ghost i0 = choose|i0: int|
                    0 <= i0 < t && (#[trigger] s[i0]).output_item == uv.output_item && s[
                        i0
                    ].items_consumed_per_sec.map_values(|p: (Seq<char>, Rat)| p.0)
                        == uv.items_consumed_per_sec.map_values(|p: (Seq<char>, Rat)| p.0);
                let old_num = u_recipe.num_facilities_needed;
                let new_num = recipes[t].num_facilities_needed;
                let total_num = old_num.plus(new_num);
                let mut new_mats: Vec<(String, Rat)> = Vec::new();
                let mut m: usize = 0;
                proof {
                    assert(mats_view(new_mats@) =~= merge_nodes(uv, bv).items_consumed_per_sec.take(
                        0,
                    ));
                }
                while m < u_recipe.items_consumed_per_sec.len()
                    invariant
                        m <= uv.items_consumed_per_sec.len(),
                        new_mats@.len() == m,
                        mats_view(new_mats@) == merge_nodes(uv, bv).items_consumed_per_sec.take(
                            m as int,
                        ),
                        forall|j: int| 0 <= j < m ==> rat_wf(#[trigger] new_mats@[j].1),
                    decreases uv.items_consumed_per_sec.len() - m,
                {
                    let material_name = u_recipe.items_consumed_per_sec[m].0.clone();
                    proof {
                        assert(uv.items_consumed_per_sec[m as int] == (
                            u_recipe.items_consumed_per_sec@[m as int].0@,
                            u_recipe.items_consumed_per_sec@[m as int].1,
                        ));
                        assert(s[i0].items_consumed_per_sec.map_values(
                            |p: (Seq<char>, Rat)| p.0,
                        )[m as int] == uv.items_consumed_per_sec.map_values(
                            |p: (Seq<char>, Rat)| p.0,
                        )[m as int]);
                        assert(uv.items_consumed_per_sec.map_values(
                            |p: (Seq<char>, Rat)| p.0,
                        ).len() == uv.items_consumed_per_sec.len());
                        assert(s[i0].items_consumed_per_sec.map_values(
                            |p: (Seq<char>, Rat)| p.0,
                        ).len() == s[i0].items_consumed_per_sec.len());
                        assert(m < uv.items_consumed_per_sec.len());
                        assert(m < s[i0].items_consumed_per_sec.len());
                        assert(s[i0].items_consumed_per_sec.map_values(
                            |p: (Seq<char>, Rat)| p.0,
                        )[m as int] == s[i0].items_consumed_per_sec[m as int].0);
                        assert(uv.items_consumed_per_sec.map_values(
                            |p: (Seq<char>, Rat)| p.0,
                        )[m as int] == uv.items_consumed_per_sec[m as int].0);
                        assert(uv.items_consumed_per_sec[m as int].0 == material_name@);
                        assert(s[i0].items_consumed_per_sec[m as int].0 == material_name@);
                        assert(uv.output_item == bv.output_item);
                        assert(s[i0].output_item == s[t as int].output_item);
                        assert(find_key(
                            s[t as int].items_consumed_per_sec,
                            s[i0].items_consumed_per_sec[m as int].0,
                        ) != -1);
                        assert(find_key(bv.items_consumed_per_sec, material_name@) != -1);
                        lemma_find_key(bv.items_consumed_per_sec, material_name@);
                    }
                    let bpos = find_mat_exec(&recipes[t].items_consumed_per_sec, &material_name);
                    proof {
                        assert(bpos < recipes@[t as int].items_consumed_per_sec@.len());
                        assert(bv.items_consumed_per_sec[bpos as int] == (
                            recipes@[t as int].items_consumed_per_sec@[bpos as int].0@,
                            recipes@[t as int].items_consumed_per_sec@[bpos as int].1,
                        ));
                        assert(rat_wf(bv.items_consumed_per_sec[bpos as int].1));
                        assert(node_rats_wf(uv));
                        assert(rat_wf(uv.items_consumed_per_sec[m as int].1));
                        assert(rat_wf(u_recipe.items_consumed_per_sec@[m as int].1));
                    }
                    let per_sec = u_recipe.items_consumed_per_sec[m].1.plus(
                        recipes[t].items_consumed_per_sec[bpos].1,
                    );
                    new_mats.push((material_name, per_sec));
                    m = m + 1;
                    proof {
                        assert(mats_view(new_mats@) =~= merge_nodes(
                            uv,
                            bv,
                        ).items_consumed_per_sec.take(m as int));
                    }
                }
                proof {
                    assert(merge_nodes(uv, bv).items_consumed_per_sec.take(
                        uv.items_consumed_per_sec.len() as int,
                    ) =~= merge_nodes(uv, bv).items_consumed_per_sec);
                }
                let mut sspc = Rat::zero();
                if total_num.is_pos() {
                    sspc = u_recipe.seconds_spent_per_craft.times(old_num).plus(
                        recipes[t].seconds_spent_per_craft.times(new_num),
                    ).divided_by(total_num);
                }
                let used_for = merge_label_exec(
                    &u_recipe.used_for,
                    &recipes[t].used_for,
                    recipes[t].crafting_per_sec,
                );
                let crafting_per_sec = u_recipe.crafting_per_sec.plus(recipes[t].crafting_per_sec);
                let depth = max(u_recipe.depth, recipes[t].depth);
                let merged = ComputedRecipe {
                    output_item: u_recipe.output_item,
                    facility: u_recipe.facility,
                    num_facilities_needed: total_num,
                    items_consumed_per_sec: new_mats,
                    seconds_spent_per_craft: sspc,
                    crafting_per_sec,
                    used_for,
                    depth,
                    image: u_recipe.image,
                };
                proof {
                    assert(merged@ == merge_nodes(uv, bv));
                }
                unique_recipes.insert(pos, merged);
                proof {
                    assert(nodes_view(unique_recipes@) =~= combine_step(pre, bv));
                    assert(merged@.items_consumed_per_sec.map_values(
                        |p: (Seq<char>, Rat)| p.0,
                    ) =~= uv.items_consumed_per_sec.map_values(|p: (Seq<char>, Rat)| p.0));
                    assert(keys_from(s, merged@, t as int));
                    assert forall|q: int|
                        0 <= q < unique_recipes@.len() implies keys_from(
                        s,
                        #[trigger] unique_recipes@[q]@,
                        t + 1,
                    ) by {
                        if q != pos {
                            assert(keys_from(s, unique_recipes@[q]@, t as int));
                        }
                        lemma_keys_from_mono(s, unique_recipes@[q]@, t as int, t + 1);
                    }
                }
            } else {
                let mut fresh = recipes[t].duplicate();
                if !fresh.used_for.as_str().is_empty() {
                    push_uses_suffix(&mut fresh.used_for, fresh.crafting_per_sec);
                }
                proof {
                    assert(fresh@ == first_insert(s[t as int]));
                }
                unique_recipes.push(fresh);
                proof {
                    assert(nodes_view(unique_recipes@) =~= combine_step(pre, s[t as int]));
                    assert(fresh@.items_consumed_per_sec.map_values(
                        |p: (Seq<char>, Rat)| p.0,
                    ) =~= s[t as int].items_consumed_per_sec.map_values(
                        |p: (Seq<char>, Rat)| p.0,
                    ));
                    assert(keys_from(s, fresh@, t + 1));
                    assert forall|q: int|
                        0 <= q < unique_recipes@.len() implies keys_from(
                        s,
                        #[trigger] unique_recipes@[q]@,
                        t + 1,
                    ) by {
                        if q < unique_recipes@.len() - 1 {
                            assert(keys_from(s, unique_recipes@[q]@, t as int));
                            lemma_keys_from_mono(s, unique_recipes@[q]@, t as int, t + 1);
                        }
                    }
                }
            }
            t = t + 1;
        }
        proof {
            assert(s.take(s.len() as int) =~= s);
        }
        unique_recipes
    }
}


/// Strict lexicographic order on character sequences, by code point.
pub open spec fn lex_lt(a: Seq<char>, b: Seq<char>) -> bool
    decreases a.len(),
{
    if b.len() == 0 {
        false
    } else if a.len() == 0 {
        true
    } else if a[0] != b[0] {
        (a[0] as u32) < (b[0] as u32)
    } else {
        lex_lt(a.drop_first(), b.drop_first())
    }
}

/// Strict order on optional depths: absent sorts before every depth.
pub open spec fn depth_lt(a: Option<int>, b: Option<int>) -> bool {
    match (a, b) {
        (None, None) => false,
        (None, Some(_)) => true,
        (Some(_), None) => false,
        (Some(x), Some(y)) => x < y,
    }
}

/// The display order of the sorting pass: depth ascending, then output
/// item, then consumer label, then target rate (with the invalid rate
/// last, so the comparison is total).
pub open spec fn node_le(a: NodeV, b: NodeV) -> bool {
    if a.depth != b.depth {
        depth_lt(a.depth, b.depth)
    } else if a.output_item != b.output_item {
        lex_lt(a.output_item, b.output_item)
    } else if a.used_for != b.used_for {
        lex_lt(a.used_for, b.used_for)
    } else {
        crate::rat::rat_le(a.crafting_per_sec, b.crafting_per_sec)
    }
}

/// A node sequence in display order.
pub open spec fn sorted_nodes(s: Seq<NodeV>) -> bool {
    forall|i: int, j: int| 0 <= i < j < s.len() ==> node_le(#[trigger] s[i], #[trigger] s[j])
}

/// The lexicographic order never holds of a sequence and itself.
pub proof fn lemma_lex_lt_irrefl(a: Seq<char>)
    ensures
        !lex_lt(a, a),
    decreases a.len(),
{
    if a.len() > 0 {
        lemma_lex_lt_irrefl(a.drop_first());
    }
}

/// Unequal sequences are lexicographically ordered one way or the other.
pub proof fn lemma_lex_lt_total(a: Seq<char>, b: Seq<char>)
    requires
        a != b,
    ensures
        lex_lt(a, b) || lex_lt(b, a),
    decreases a.len(),
{
    if a.len() == 0 {
        assert(b.len() != 0) by {
            if b.len() == 0 {
                assert(a =~= b);
            }
        }
    } else if b.len() == 0 {
    } else if a[0] != b[0] {
        assert((a[0] as u32) != (b[0] as u32)) by {
            if (a[0] as u32) == (b[0] as u32) {
                vstd::utf8::char_u32_cast(a[0], a[0] as u32);
                vstd::utf8::char_u32_cast(b[0], b[0] as u32);
            }
        }
    } else {
        assert(a.drop_first() != b.drop_first()) by {
            if a.drop_first() == b.drop_first() {
                assert(a.drop_first().len() == b.drop_first().len());
                assert(a.len() == b.len());
                assert forall|j: int| 0 <= j < a.len() implies a[j] == b[j] by {
                    if j > 0 {
                        assert(a[j] == a.drop_first()[j - 1]);
                        assert(b[j] == b.drop_first()[j - 1]);
                    }
                }
                assert(a =~= b);
            }
        }
        lemma_lex_lt_total(a.drop_first(), b.drop_first());
    }
}

/// The lexicographic order is transitive.
pub proof fn lemma_lex_lt_trans(a: Seq<char>, b: Seq<char>, c: Seq<char>)
    requires
        lex_lt(a, b),
        lex_lt(b, c),
    ensures
        lex_lt(a, c),
    decreases a.len(),
{
    if b.len() > 0 && c.len() > 0 && a.len() > 0 {
        if a[0] == b[0] && b[0] == c[0] {
            lemma_lex_lt_trans(a.drop_first(), b.drop_first(), c.drop_first());
        }
    }
}

/// The lexicographic order is asymmetric.
pub proof fn lemma_lex_lt_asym(a: Seq<char>, b: Seq<char>)
    requires
        lex_lt(a, b),
    ensures
        !lex_lt(b, a),
    decreases a.len(),
{
    if a.len() > 0 && b.len() > 0 && a[0] == b[0] {
        lemma_lex_lt_asym(a.drop_first(), b.drop_first());
    }
}

/// The display order is total.
pub proof fn lemma_node_le_total(a: NodeV, b: NodeV)
    ensures
        node_le(a, b) || node_le(b, a),
{
    if a.depth != b.depth {
    } else if a.output_item != b.output_item {
        lemma_lex_lt_total(a.output_item, b.output_item);
    } else if a.used_for != b.used_for {
        lemma_lex_lt_total(a.used_for, b.used_for);
    } else {
        crate::rat::lemma_rat_le_total(a.crafting_per_sec, b.crafting_per_sec);
    }
}

/// The display order is transitive.
pub proof fn lemma_node_le_trans(a: NodeV, b: NodeV, c: NodeV)
    requires
        rat_wf(a.crafting_per_sec),
        rat_wf(b.crafting_per_sec),
        rat_wf(c.crafting_per_sec),
        node_le(a, b),
        node_le(b, c),
    ensures
        node_le(a, c),
{
    if a.depth == b.depth && b.depth == c.depth {
        if a.output_item == b.output_item && b.output_item == c.output_item {
            if a.used_for == b.used_for && b.used_for == c.used_for {
                crate::rat::lemma_rat_le_trans(
                    a.crafting_per_sec,
                    b.crafting_per_sec,
                    c.crafting_per_sec,
                );
            } else if a.used_for == b.used_for {
                assert(lex_lt(b.used_for, c.used_for));
            } else if b.used_for == c.used_for {
                assert(lex_lt(a.used_for, b.used_for));
            } else {
                lemma_lex_lt_trans(a.used_for, b.used_for, c.used_for);
                assert(a.used_for != c.used_for) by {
                    if a.used_for == c.used_for {
                        lemma_lex_lt_asym(a.used_for, b.used_for);
                    }
                }
            }
        } else if a.output_item == b.output_item {
            assert(lex_lt(b.output_item, c.output_item));
        } else if b.output_item == c.output_item {
            assert(lex_lt(a.output_item, b.output_item));
        } else {
            lemma_lex_lt_trans(a.output_item, b.output_item, c.output_item);
            assert(a.output_item != c.output_item) by {
                if a.output_item == c.output_item {
                    lemma_lex_lt_asym(a.output_item, b.output_item);
                }
            }
        }
    }
}

/// A common prefix does not decide the lexicographic order: it is decided
/// by the remainders.
pub proof fn lemma_lex_skip(a: Seq<char>, b: Seq<char>, i: int)
    requires
        0 <= i <= a.len(),
        i <= b.len(),
        forall|j: int| 0 <= j < i ==> a[j] == b[j],
    ensures
        lex_lt(a, b) == lex_lt(a.skip(i), b.skip(i)),
    decreases i,
{
    if i == 0 {
        assert(a.skip(0) =~= a);
        assert(b.skip(0) =~= b);
    } else {
        assert(a.len() > 0 && b.len() > 0 && a[0] == b[0]);
        assert(lex_lt(a, b) == lex_lt(a.drop_first(), b.drop_first()));
        assert(forall|j: int|
            0 <= j < i - 1 ==> #[trigger] a.drop_first()[j] == b.drop_first()[j]);
        lemma_lex_skip(a.drop_first(), b.drop_first(), i - 1);
        assert(a.drop_first().skip(i - 1) =~= a.skip(i));
        assert(b.drop_first().skip(i - 1) =~= b.skip(i));
    }
}

/// Whether `x` is lexicographically before `y`; computes [`lex_lt`].
fn str_lt(x: &str, y: &str) -> (r: bool)
    ensures
        r == lex_lt(x@, y@),
{
    let xl = x.unicode_len();
    let yl = y.unicode_len();
    let mut i: usize = 0;
    while i < xl && i < yl
        invariant
            i <= xl,
            i <= yl,
            xl == x@.len(),
            yl == y@.len(),
            forall|j: int| 0 <= j < i ==> x@[j] == y@[j],
        decreases xl - i,
    {
        let cx = x.get_char(i);
        let cy = y.get_char(i);
        proof {
            vstd::utf8::char_u32_cast(cx, cx as u32);
            vstd::utf8::char_u32_cast(cy, cy as u32);
        }
        if (cx as u32) != (cy as u32) {
            proof {
                lemma_lex_skip(x@, y@, i as int);
                assert(x@.skip(i as int)[0] == cx);
                assert(y@.skip(i as int)[0] == cy);
                assert(x@.skip(i as int).len() > 0);
                assert(y@.skip(i as int).len() > 0);
            }
            return (cx as u32) < (cy as u32);
        }
        i = i + 1;
    }
    proof {
        lemma_lex_skip(x@, y@, i as int);
        assert(x@.skip(i as int).len() == x@.len() - i);
        assert(y@.skip(i as int).len() == y@.len() - i);
    }
    i < yl
}

/// Whether `a` comes no later than `b` in display order; computes
/// [`node_le`].
fn le_node(a: &ComputedRecipe, b: &ComputedRecipe) -> (r: bool)
    requires
        rat_wf(a.crafting_per_sec),
        rat_wf(b.crafting_per_sec),
    ensures
        r == node_le(a@, b@),
{
    let depth_differs = match (a.depth, b.depth) {
        (Some(x), Some(y)) => x != y,
        (None, None) => false,
        _ => true,
    };
    if depth_differs {
        return match (a.depth, b.depth) {
            (None, _) => true,
            (Some(_), None) => false,
            (Some(x), Some(y)) => x < y,
        };
    }
    if !(a.output_item == b.output_item) {
        return str_lt(a.output_item.as_str(), b.output_item.as_str());
    }
    if !(a.used_for == b.used_for) {
        return str_lt(a.used_for.as_str(), b.used_for.as_str());
    }
    a.crafting_per_sec.le(b.crafting_per_sec)
}

impl Optimizer {
    /// Sort the nodes for stable display: depth ascending, then output
    /// item, then consumer label, then target rate; an invalid rate sorts
    /// last rather than failing. The result holds the same nodes, in
    /// display order.
    #[verifier::loop_isolation(false)]
    pub fn sort_recipes(&self, recipes: &mut Vec<ComputedRecipe>)
        requires
            forall|i: int|
                0 <= i < old(recipes)@.len() ==> rat_wf(
                    (#[trigger] old(recipes)@[i]@).crafting_per_sec,
                ),
        ensures
            sorted_nodes(nodes_view(final(recipes)@)),
            nodes_view(final(recipes)@).to_multiset() == nodes_view(old(recipes)@).to_multiset(),
    {
        broadcast use vstd::seq_lib::group_to_multiset_ensures;

        let ghost s = nodes_view(recipes@);
        let mut out: Vec<ComputedRecipe> = Vec::new();
        let mut t: usize = 0;
        proof {
            assert(nodes_view(out@).to_multiset() =~= nodes_view(recipes@.take(0)).to_multiset());
            assert(nodes_view(recipes@.take(0)) =~= Seq::<NodeV>::empty());
        }
        while t < recipes.len()
            invariant
                t <= recipes@.len(),
                sorted_nodes(nodes_view(out@)),
                nodes_view(out@).to_multiset() == nodes_view(recipes@.take(t as int)).to_multiset(),
                forall|i: int|
                    0 <= i < out@.len() ==> rat_wf(#[trigger] out@[i].crafting_per_sec),
            decreases recipes@.len() - t,
        {
            let x = recipes[t].duplicate();
            proof {
                assert(x@ == old(recipes)@[t as int]@);
                assert(rat_wf(x@.crafting_per_sec));
                assert(rat_wf(x.crafting_per_sec));
            }
            let mut p: usize = 0;
            while p < out.len() && le_node(&out[p], &x)
                invariant
                    p <= out@.len(),
                    rat_wf(x.crafting_per_sec),
                    forall|i: int|
                        0 <= i < out@.len() ==> rat_wf(#[trigger] out@[i].crafting_per_sec),
                    forall|j: int| 0 <= j < p ==> node_le(nodes_view(out@)[j], x@),
                decreases out@.len() - p,
            {
                proof {
                    assert(nodes_view(out@)[p as int] == out@[p as int]@);
                }
                p = p + 1;
            }
            proof {
                if p < out@.len() {
                    assert(out@[p as int]@ == nodes_view(out@)[p as int]);
                    lemma_node_le_total(out@[p as int]@, x@);
                }
            }
            let ghost pre = nodes_view(out@);
            out.insert(p, x);
            t = t + 1;
            proof {
                assert(nodes_view(out@) =~= pre.insert(p as int, x@));
                vstd::seq_lib::to_multiset_insert(pre, p as int, x@);
                assert(nodes_view(recipes@.take(t as int)).drop_last() =~= nodes_view(
                    recipes@.take(t - 1),
                ));
                assert(nodes_view(recipes@.take(t as int)).last() == x@);
                vstd::seq_lib::to_multiset_build(nodes_view(recipes@.take(t as int)).drop_last(), x@);
                assert(nodes_view(recipes@.take(t as int)).drop_last().push(x@) =~= nodes_view(
                    recipes@.take(t as int),
                ));
                assert(sorted_nodes(nodes_view(out@))) by {
                    assert forall|i: int, j: int|
                        0 <= i < j < nodes_view(out@).len() implies node_le(
                        #[trigger] nodes_view(out@)[i],
                        #[trigger] nodes_view(out@)[j],
                    ) by {
                        let sv = nodes_view(out@);
                        if i < p && j == p {
                        } else if i == p && j > p {
                            assert(sv[j] == pre[j - 1]);
                            assert(node_le(x@, pre[p as int]));
                            assert(node_le(pre[p as int], pre[j - 1]));
                            lemma_node_le_trans(x@, pre[p as int], pre[j - 1]);
                        } else if i < p && j > p {
                            assert(sv[i] == pre[i]);
                            assert(sv[j] == pre[j - 1]);
                        } else if i != p && j != p {
                        }
                    }
                }
            }
        }
        proof {
            assert(recipes@.take(recipes@.len() as int) =~= recipes@);
        }
        *recipes = out;
    }
}


/// A recipe that produces no output per craft needs no facilities, and
/// every consumption rate derived from it is zero (for finite material
/// quantities).
pub proof fn lemma_zero_output_no_facilities(r: RecipeV, rate: Rat)
    requires
        recipe_rats_wf(r),
        !rat_pos(r.output_item_count),
        forall|j: int| 0 <= j < r.materials.len() ==> rat_is_finite(#[trigger] r.materials[j].1),
    ensures
        facilities_of(r, rate) == rat_zero(),
        forall|j: int|
            0 <= j < consumption_of(r, rate).len() ==> (#[trigger] consumption_of(r, rate)[j]).1
                == rat_zero(),
{
    assert(facilities_of(r, rate) == rat_zero());
    assert forall|j: int|
        0 <= j < consumption_of(r, rate).len() implies (#[trigger] consumption_of(r, rate)[j]).1
        == rat_zero() by {
        if rat_pos(r.time) {
            crate::rat::lemma_rat_mul_zero(r.materials[j].1);
            crate::rat::lemma_rat_div_zero(r.time);
        }
    }
}

/// A recipe with no (positive) craft time consumes nothing per second,
/// whatever the facility count.
pub proof fn lemma_zero_time_no_consumption(r: RecipeV, rate: Rat)
    requires
        !rat_pos(r.time),
    ensures
        forall|j: int|
            0 <= j < consumption_of(r, rate).len() ==> (#[trigger] consumption_of(r, rate)[j]).1
                == rat_zero(),
{
}

/// An absent variant index, like an out-of-bounds or negative one, selects
/// variant 0; an unknown item selects nothing.
pub proof fn lemma_variant_fallback(cat: Seq<(Seq<char>, Seq<RecipeV>)>, key: Seq<char>, idx: i64)
    requires
        forall|i: int| 0 <= i < cat.len() ==> #[trigger] cat[i].1.len() > 0,
    ensures
        find_key(cat, key) == -1 ==> select_spec(cat, key, idx) is None,
        find_key(cat, key) != -1 && !(0 <= idx < cat[find_key(cat, key)].1.len())
            ==> select_spec(cat, key, idx) == select_spec(cat, key, 0),
{
    lemma_find_key(cat, key);
}

/// Expanding an item whose recipe consumes a single material, where that
/// material's own recipe consumes nothing, yields exactly two nodes: the
/// item itself at the given depth, and the material one tier deeper, with
/// an empty consumption map, marked as used for the item.
pub proof fn lemma_single_level_two_nodes(
    cat: Seq<(Seq<char>, Seq<RecipeV>)>,
    item: Seq<char>,
    rate: Rat,
    parent: Seq<char>,
    visited: Set<Seq<char>>,
    depth: int,
    reqs: Seq<(Seq<char>, i64)>,
)
    requires
        forall|i: int| 0 <= i < cat.len() ==> #[trigger] cat[i].1.len() > 0,
        !visited.contains(item),
        select_spec(cat, lower_of(item), req_idx_spec(reqs, item)) is Some,
        select_spec(cat, lower_of(item), req_idx_spec(reqs, item)).unwrap().materials.len() == 1,
        ({
            let m = select_spec(cat, lower_of(item), req_idx_spec(reqs, item)).unwrap().materials[0].0;
            &&& m != item
            &&& !visited.contains(m)
            &&& select_spec(cat, lower_of(m), req_idx_spec(reqs, m)) is Some
            &&& select_spec(cat, lower_of(m), req_idx_spec(reqs, m)).unwrap().materials.len() == 0
        }),
    ensures
        expand_spec(cat, item, rate, parent, visited, depth, reqs).len() == 2,
        expand_spec(cat, item, rate, parent, visited, depth, reqs)[0] == node_of(
            select_spec(cat, lower_of(item), req_idx_spec(reqs, item)).unwrap(),
            rate,
            parent,
            depth,
        ),
        expand_spec(cat, item, rate, parent, visited, depth, reqs)[1] == node_of(
            select_spec(
                cat,
                lower_of(
                    select_spec(cat, lower_of(item), req_idx_spec(reqs, item)).unwrap().materials[0].0,
                ),
                req_idx_spec(
                    reqs,
                    select_spec(cat, lower_of(item), req_idx_spec(reqs, item)).unwrap().materials[0].0,
                ),
            ).unwrap(),
            consumption_of(select_spec(cat, lower_of(item), req_idx_spec(reqs, item)).unwrap(), rate)[0].1,
            select_spec(cat, lower_of(item), req_idx_spec(reqs, item)).unwrap().output_item,
            depth + 1,
        ),
        expand_spec(cat, item, rate, parent, visited, depth, reqs)[1].items_consumed_per_sec.len()
            == 0,
        expand_spec(cat, item, rate, parent, visited, depth, reqs)[1].used_for == select_spec(
            cat,
            lower_of(item),
            req_idx_spec(reqs, item),
        ).unwrap().output_item,
        expand_spec(cat, item, rate, parent, visited, depth, reqs)[1].depth == Some(depth + 1),
{
    let r = select_spec(cat, lower_of(item), req_idx_spec(reqs, item)).unwrap();
    let cons = consumption_of(r, rate);
    assert(cons.len() == 1);
    let m = r.materials[0].0;
    assert(cons[0].0 == m);
    let v1 = visited.insert(item);
    let r2 = select_spec(cat, lower_of(m), req_idx_spec(reqs, m)).unwrap();
    let cons2 = consumption_of(r2, cons[0].1);
    assert(cons2.len() == 0);
    assert(!v1.contains(m));
    let inner = expand_spec(cat, m, cons[0].1, r.output_item, v1, depth + 1, reqs);
    assert(expand_list_spec(cat, cons2, 0, r2.output_item, v1.insert(m), depth + 2, reqs)
        =~= Seq::<NodeV>::empty());
    assert(inner =~= seq![node_of(r2, cons[0].1, r.output_item, depth + 1)]);
    assert(expand_list_spec(cat, cons, 1, r.output_item, v1, depth + 1, reqs)
        =~= Seq::<NodeV>::empty());
    assert(expand_list_spec(cat, cons, 0, r.output_item, v1, depth + 1, reqs) =~= inner);
    assert(expand_spec(cat, item, rate, parent, visited, depth, reqs) =~= seq![
        node_of(r, rate, parent, depth),
    ] + inner);
}

/// A direct cycle terminates: when the item's recipe needs a material whose
/// own recipe needs the item back, the expansion holds exactly the two
/// nodes and never a second node for the item.
pub proof fn lemma_direct_cycle_terminates(
    cat: Seq<(Seq<char>, Seq<RecipeV>)>,
    item: Seq<char>,
    rate: Rat,
    parent: Seq<char>,
    visited: Set<Seq<char>>,
    depth: int,
    reqs: Seq<(Seq<char>, i64)>,
)
    requires
        forall|i: int| 0 <= i < cat.len() ==> #[trigger] cat[i].1.len() > 0,
        !visited.contains(item),
        select_spec(cat, lower_of(item), req_idx_spec(reqs, item)) is Some,
        select_spec(cat, lower_of(item), req_idx_spec(reqs, item)).unwrap().materials.len() == 1,
        ({
            let m = select_spec(cat, lower_of(item), req_idx_spec(reqs, item)).unwrap().materials[0].0;
            &&& m != item
            &&& !visited.contains(m)
            &&& select_spec(cat, lower_of(m), req_idx_spec(reqs, m)) is Some
            &&& select_spec(cat, lower_of(m), req_idx_spec(reqs, m)).unwrap().materials.len() == 1
            &&& select_spec(cat, lower_of(m), req_idx_spec(reqs, m)).unwrap().materials[0].0 == item
        }),
    ensures
        expand_spec(cat, item, rate, parent, visited, depth, reqs).len() == 2,
        expand_spec(cat, item, rate, parent, visited, depth, reqs)[0].output_item == select_spec(
            cat,
            lower_of(item),
            req_idx_spec(reqs, item),
        ).unwrap().output_item,
        expand_spec(cat, item, rate, parent, visited, depth, reqs)[1].output_item == select_spec(
            cat,
            lower_of(select_spec(cat, lower_of(item), req_idx_spec(reqs, item)).unwrap().materials[0].0),
            req_idx_spec(
                reqs,
                select_spec(cat, lower_of(item), req_idx_spec(reqs, item)).unwrap().materials[0].0,
            ),
        ).unwrap().output_item,
{
    let r = select_spec(cat, lower_of(item), req_idx_spec(reqs, item)).unwrap();
    let cons = consumption_of(r, rate);
    assert(cons.len() == 1);
    let m = r.materials[0].0;
    assert(cons[0].0 == m);
    let v1 = visited.insert(item);
    let r2 = select_spec(cat, lower_of(m), req_idx_spec(reqs, m)).unwrap();
    let cons2 = consumption_of(r2, cons[0].1);
    assert(cons2.len() == 1);
    assert(cons2[0].0 == item);
    assert(!v1.contains(m));
    let v2 = v1.insert(m);
    // The loop back to the item stops at the cycle guard.
    assert(v2.contains(item));
    assert(expand_spec(cat, item, cons2[0].1, r2.output_item, v2, depth + 2, reqs)
        =~= Seq::<NodeV>::empty());
    assert(expand_list_spec(cat, cons2, 1, r2.output_item, v2, depth + 2, reqs)
        =~= Seq::<NodeV>::empty());
    assert(expand_list_spec(cat, cons2, 0, r2.output_item, v2, depth + 2, reqs)
        =~= Seq::<NodeV>::empty());
    let inner = expand_spec(cat, m, cons[0].1, r.output_item, v1, depth + 1, reqs);
    assert(inner =~= seq![node_of(r2, cons[0].1, r.output_item, depth + 1)]);
    assert(expand_list_spec(cat, cons, 1, r.output_item, v1, depth + 1, reqs)
        =~= Seq::<NodeV>::empty());
    assert(expand_list_spec(cat, cons, 0, r.output_item, v1, depth + 1, reqs) =~= inner);
    assert(expand_spec(cat, item, rate, parent, visited, depth, reqs) =~= seq![
        node_of(r, rate, parent, depth),
    ] + inner);
}

/// The consumption rate an aggregate records for a material name.
pub open spec fn rate_of(items: Seq<(Seq<char>, Rat)>, name: Seq<char>) -> Rat {
    items[find_key(items, name)].1
}

/// Aggregating two nodes for one output item is commutative in everything
/// numeric: either order yields one node with the same facility count,
/// target rate, craft time and depth, and the same consumption rate under
/// each material name. Only the audit label records the order.
pub proof fn lemma_combine_two_commutes(x: NodeV, y: NodeV)
    requires
        x.output_item == y.output_item,
        mergeable(seq![x, y]),
        mergeable(seq![y, x]),
        forall|i: int, j: int|
            0 <= i < j < x.items_consumed_per_sec.len() ==> (
            #[trigger] x.items_consumed_per_sec[i]).0 != (
            #[trigger] x.items_consumed_per_sec[j]).0,
        forall|i: int, j: int|
            0 <= i < j < y.items_consumed_per_sec.len() ==> (
            #[trigger] y.items_consumed_per_sec[i]).0 != (
            #[trigger] y.items_consumed_per_sec[j]).0,
    ensures
        combine_spec(seq![x, y]).len() == 1,
        combine_spec(seq![y, x]).len() == 1,
        combine_spec(seq![x, y])[0].num_facilities_needed == combine_spec(
            seq![y, x],
        )[0].num_facilities_needed,
        combine_spec(seq![x, y])[0].crafting_per_sec == combine_spec(
            seq![y, x],
        )[0].crafting_per_sec,
        combine_spec(seq![x, y])[0].seconds_spent_per_craft == combine_spec(
            seq![y, x],
        )[0].seconds_spent_per_craft,
        combine_spec(seq![x, y])[0].depth == combine_spec(seq![y, x])[0].depth,
        forall|m: int|
            0 <= m < x.items_consumed_per_sec.len() ==> rate_of(
                combine_spec(seq![x, y])[0].items_consumed_per_sec,
                (#[trigger] x.items_consumed_per_sec[m]).0,
            ) == rate_of(
                combine_spec(seq![y, x])[0].items_consumed_per_sec,
                x.items_consumed_per_sec[m].0,
            ),
{
    let sxy = seq![x, y];
    let syx = seq![y, x];
    assert(sxy.drop_last() =~= seq![x]);
    assert(syx.drop_last() =~= seq![y]);
    assert(seq![x].drop_last() =~= Seq::<NodeV>::empty());
    assert(seq![y].drop_last() =~= Seq::<NodeV>::empty());
    assert(combine_spec(Seq::<NodeV>::empty()) == Seq::<NodeV>::empty());
    assert(combine_spec(seq![x].drop_last()) == Seq::<NodeV>::empty());
    assert(find_node(Seq::<NodeV>::empty(), x.output_item) == -1);
    assert(seq![x].len() == 1 && seq![x].last() == x);
    assert(combine_spec(seq![x]) == combine_step(Seq::<NodeV>::empty(), x));
    assert(combine_step(Seq::<NodeV>::empty(), x) =~= seq![first_insert(x)]);
    assert(combine_spec(seq![x]) =~= seq![first_insert(x)]);
    assert(combine_spec(seq![y].drop_last()) == Seq::<NodeV>::empty());
    assert(find_node(Seq::<NodeV>::empty(), y.output_item) == -1);
    assert(seq![y].len() == 1 && seq![y].last() == y);
    assert(combine_spec(seq![y]) == combine_step(Seq::<NodeV>::empty(), y));
    assert(combine_step(Seq::<NodeV>::empty(), y) =~= seq![first_insert(y)]);
    assert(combine_spec(seq![y]) =~= seq![first_insert(y)]);
    let fx = first_insert(x);
    let fy = first_insert(y);
    assert(find_node(seq![fx], y.output_item) == 0);
    assert(find_node(seq![fy], x.output_item) == 0);
    let xy = merge_nodes(fx, y);
    let yx = merge_nodes(fy, x);
    assert(combine_spec(sxy) =~= seq![xy]);
    assert(combine_spec(syx) =~= seq![yx]);
    crate::rat::lemma_rat_add_comm(x.num_facilities_needed, y.num_facilities_needed);
    crate::rat::lemma_rat_add_comm(x.crafting_per_sec, y.crafting_per_sec);
    crate::rat::lemma_rat_add_comm(
        rat_mul(x.seconds_spent_per_craft, x.num_facilities_needed),
        rat_mul(y.seconds_spent_per_craft, y.num_facilities_needed),
    );
    assert(xy.num_facilities_needed == yx.num_facilities_needed);
    assert(xy.crafting_per_sec == yx.crafting_per_sec);
    assert(xy.seconds_spent_per_craft == yx.seconds_spent_per_craft);
    assert(xy.depth == yx.depth);
    assert forall|m: int| 0 <= m < x.items_consumed_per_sec.len() implies rate_of(
        xy.items_consumed_per_sec,
        (#[trigger] x.items_consumed_per_sec[m]).0,
    ) == rate_of(yx.items_consumed_per_sec, x.items_consumed_per_sec[m].0) by {
        let n = x.items_consumed_per_sec[m].0;
        let xi = x.items_consumed_per_sec;
        let yi = y.items_consumed_per_sec;
        // The name maps of the two aggregates are those of x and y.
        assert(xy.items_consumed_per_sec.len() == xi.len());
        assert(forall|q: int|
            0 <= q < xi.len() ==> (#[trigger] xy.items_consumed_per_sec[q]).0 == xi[q].0);
        assert(yx.items_consumed_per_sec.len() == yi.len());
        assert(forall|q: int|
            0 <= q < yi.len() ==> (#[trigger] yx.items_consumed_per_sec[q]).0 == yi[q].0);
        // Find n in both.
        assert(find_key(yi, n) != -1) by {
            assert(sxy[0] == x && sxy[1] == y);
        }
        lemma_find_key(yi, n);
        let ky = find_key(yi, n);
        assert(yi[ky].0 == n);
        lemma_find_key_from_facts(xy.items_consumed_per_sec, n, m);
        lemma_find_key_from_facts(yx.items_consumed_per_sec, n, ky);
        assert(rate_of(xy.items_consumed_per_sec, n) == rat_add(xi[m].1, yi[ky].1));
        assert(find_key(xi, n) == m) by {
            lemma_find_key_from_facts(xi, n, m);
        }
        assert(rate_of(yx.items_consumed_per_sec, n) == rat_add(yi[ky].1, xi[m].1));
        crate::rat::lemma_rat_add_comm(xi[m].1, yi[ky].1);
    }
}


/// Aggregation collapses: the result names each output item at most once,
/// and every input node's output item is named.
pub proof fn lemma_combine_collapses(s: Seq<NodeV>)
    ensures
        forall|i: int, j: int|
            0 <= i < j < combine_spec(s).len() ==> (#[trigger] combine_spec(s)[i]).output_item
                != (#[trigger] combine_spec(s)[j]).output_item,
        forall|t: int|
            0 <= t < s.len() ==> exists|q: int|
                0 <= q < combine_spec(s).len() && (#[trigger] combine_spec(s)[q]).output_item
                    == (#[trigger] s[t]).output_item,
    decreases s.len(),
{
    if s.len() > 0 {
        lemma_combine_collapses(s.drop_last());
        let acc = combine_spec(s.drop_last());
        let n = s.last();
        let i = find_node(acc, n.output_item);
        lemma_find_node(acc, n.output_item);
        let step = combine_step(acc, n);
        assert(forall|t: int|
            0 <= t < s.len() - 1 ==> #[trigger] s[t] == s.drop_last()[t]);
        if i == -1 {
            assert(step[acc.len() as int].output_item == n.output_item);
            assert(forall|q: int|
                0 <= q < acc.len() ==> (#[trigger] step[q]).output_item == acc[q].output_item);
            assert forall|t: int| 0 <= t < s.len() implies exists|q: int|
                0 <= q < step.len() && (#[trigger] step[q]).output_item == (
                #[trigger] s[t]).output_item by {
                if t < s.len() - 1 {
                    let q = choose|q: int|
                        0 <= q < acc.len() && (#[trigger] acc[q]).output_item == s.drop_last()[
                            t
                        ].output_item;
                    assert(step[q].output_item == s[t].output_item);
                } else {
                    assert(step[acc.len() as int].output_item == s[t].output_item);
                }
            }
        } else {
            assert(step[i].output_item == acc[i].output_item);
            assert(forall|q: int|
                0 <= q < acc.len() ==> (#[trigger] step[q]).output_item == acc[q].output_item);
            assert forall|t: int| 0 <= t < s.len() implies exists|q: int|
                0 <= q < step.len() && (#[trigger] step[q]).output_item == (
                #[trigger] s[t]).output_item by {
                if t < s.len() - 1 {
                    let q = choose|q: int|
                        0 <= q < acc.len() && (#[trigger] acc[q]).output_item == s.drop_last()[
                            t
                        ].output_item;
                    assert(step[q].output_item == s[t].output_item);
                } else {
                    assert(step[i].output_item == s[t].output_item);
                }
            }
        }
    }
}

} // verus!
