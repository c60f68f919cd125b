//! Request and result types of the chain-expansion engine, and the grouping
//! of a flat recipe list into the catalog the engine reads.
//!
//! The catalog maps a lowercased output-item name to the ordered list of
//! recipe variants for that item; [`load_recipe_map`] builds it from the
//! flat list that persistence hands over.

use crate::data::{lower_of, mats_view, opt_str_view, recipe_rats_wf, to_lower, Recipe, RecipeV};
use crate::rat::Rat;
use vstd::prelude::*;

verus! {

/// Per-item recipe-variant overrides: item name to variant index, keys
/// unique; absent items default to variant 0.
pub type RecipeRequirements = Vec<(String, i64)>;

/// A "compute chain" request: target item, target output rate, per-item
/// variant overrides.
#[derive(Clone, Debug)]
pub struct ComputedRecipeRequest {
    pub name: String,
    pub rate: Rat,
    pub requirements: RecipeRequirements,
}

/// One node of the expanded production tree.
#[derive(Clone, Debug)]
pub struct ComputedRecipe {
    pub output_item: String,
    pub facility: String,
    pub num_facilities_needed: Rat,
    pub items_consumed_per_sec: Vec<(String, Rat)>,
    pub seconds_spent_per_craft: Rat,
    pub crafting_per_sec: Rat,
    pub used_for: String,
    pub depth: Option<i64>,
    pub image: Option<String>,
}

/// Mathematical view of [`ComputedRecipe`].
pub ghost struct NodeV {
    pub output_item: Seq<char>,
    pub facility: Seq<char>,
    pub num_facilities_needed: Rat,
    pub items_consumed_per_sec: Seq<(Seq<char>, Rat)>,
    pub seconds_spent_per_craft: Rat,
    pub crafting_per_sec: Rat,
    pub used_for: Seq<char>,
    pub depth: Option<int>,
    pub image: Option<Seq<char>>,
}

/// View of an optional depth.
pub open spec fn opt_depth_view(o: Option<i64>) -> Option<int> {
    match o {
        Some(d) => Some(d as int),
        None => None,
    }
}

impl View for ComputedRecipe {
    type V = NodeV;

    open spec fn view(&self) -> NodeV {
        NodeV {
            output_item: self.output_item@,
            facility: self.facility@,
            num_facilities_needed: self.num_facilities_needed,
            items_consumed_per_sec: mats_view(self.items_consumed_per_sec@),
            seconds_spent_per_craft: self.seconds_spent_per_craft,
            crafting_per_sec: self.crafting_per_sec,
            used_for: self.used_for@,
            depth: opt_depth_view(self.depth),
            image: opt_str_view(self.image),
        }
    }
}

/// The rationals a node carries are well formed.
pub open spec fn node_rats_wf(n: NodeV) -> bool {
    crate::rat::rat_wf(n.num_facilities_needed) && crate::rat::rat_wf(n.seconds_spent_per_craft)
        && crate::rat::rat_wf(n.crafting_per_sec) && (forall|j: int|
        0 <= j < n.items_consumed_per_sec.len() ==> crate::rat::rat_wf(
            #[trigger] n.items_consumed_per_sec[j].1,
        ))
}

/// Handle to the recipe document store; its querying and persistence run
/// outside the library.
#[derive(Debug)]
pub struct DB {}

impl DB {
    /// A store handle.
    pub fn new() -> DB {
        DB {  }
    }
}

impl ComputedRecipe {
    /// An exact copy, with the same view.
    pub fn duplicate(&self) -> (r: ComputedRecipe)
        ensures
            r@ == self@,
    {
        ComputedRecipe {
            output_item: self.output_item.clone(),
            facility: self.facility.clone(),
            num_facilities_needed: self.num_facilities_needed,
            items_consumed_per_sec: crate::data::dup_mats(&self.items_consumed_per_sec),
            seconds_spent_per_craft: self.seconds_spent_per_craft,
            crafting_per_sec: self.crafting_per_sec,
            used_for: self.used_for.clone(),
            depth: self.depth,
            image: crate::data::dup_opt_string(&self.image),
        }
    }
}

/// View of a list of computed nodes.
pub open spec fn nodes_view(v: Seq<ComputedRecipe>) -> Seq<NodeV> {
    v.map_values(|c: ComputedRecipe| c@)
}

/// View of a recipe list as recipe views.
pub open spec fn recipes_view(v: Seq<Recipe>) -> Seq<RecipeV> {
    v.map_values(|r: Recipe| r@)
}

/// View of the catalog: lowercased item name to its list of variants.
pub open spec fn catalog_view(v: Seq<(String, Vec<Recipe>)>) -> Seq<(Seq<char>, Seq<RecipeV>)> {
    v.map_values(|p: (String, Vec<Recipe>)| (p.0@, recipes_view(p.1@)))
}

/// The first index holding key `k` in an association sequence, or -1.
pub open spec fn find_key<T>(s: Seq<(Seq<char>, T)>, k: Seq<char>) -> int
    decreases s.len(),
{
    if s.len() == 0 {
        -1
    } else if s[0].0 == k {
        0
    } else {
        let r = find_key(s.drop_first(), k);
        if r == -1 {
            -1
        } else {
            r + 1
        }
    }
}

/// What [`find_key`] returns: -1 exactly when the key is absent, else the
/// first index that holds it.
pub proof fn lemma_find_key<T>(s: Seq<(Seq<char>, T)>, k: Seq<char>)
    ensures
        find_key(s, k) == -1 ==> forall|i: int| 0 <= i < s.len() ==> s[i].0 != k,
        find_key(s, k) != -1 ==> 0 <= find_key(s, k) < s.len() && s[find_key(s, k)].0 == k,
        find_key(s, k) != -1 ==> forall|i: int| 0 <= i < find_key(s, k) ==> s[i].0 != k,
    decreases s.len(),
{
    if s.len() > 0 {
        lemma_find_key(s.drop_first(), k);
        if s[0].0 != k {
            assert(forall|i: int|
                1 <= i < s.len() ==> #[trigger] s[i] == s.drop_first()[i - 1]);
        }
    }
}

/// The catalog's well-formedness: keys unique, every variant list non-empty,
/// every recipe's rationals well formed.
pub open spec fn catalog_wf(cat: Seq<(Seq<char>, Seq<RecipeV>)>) -> bool {
    (forall|i: int, j: int| 0 <= i < j < cat.len() ==> cat[i].0 != cat[j].0) && (forall|i: int|
        0 <= i < cat.len() ==> #[trigger] cat[i].1.len() > 0) && (forall|i: int, j: int|
        0 <= i < cat.len() && 0 <= j < cat[i].1.len() ==> recipe_rats_wf(
            #[trigger] cat[i].1[j],
        ))
}

/// Grouping one recipe into the accumulating catalog, under its lowercased
/// output-item name.
pub open spec fn group_step(
    acc: Seq<(Seq<char>, Seq<RecipeV>)>,
    r: RecipeV,
) -> Seq<(Seq<char>, Seq<RecipeV>)> {
    let k = lower_of(r.output_item);
    let i = find_key(acc, k);
    if i == -1 {
        acc.push((k, seq![r]))
    } else {
        acc.update(i, (k, acc[i].1.push(r)))
    }
}

/// The catalog built from a flat recipe list, in order.
pub open spec fn group_spec(rs: Seq<RecipeV>) -> Seq<(Seq<char>, Seq<RecipeV>)>
    decreases rs.len(),
{
    if rs.len() == 0 {
        Seq::empty()
    } else {
        group_step(group_spec(rs.drop_last()), rs.last())
    }
}

/// Grouping preserves catalog well-formedness.
pub proof fn lemma_group_step_wf(acc: Seq<(Seq<char>, Seq<RecipeV>)>, r: RecipeV)
    requires
        catalog_wf(acc),
        recipe_rats_wf(r),
    ensures
        catalog_wf(group_step(acc, r)),
{
    lemma_find_key(acc, lower_of(r.output_item));
}

/// The catalog [`group_spec`] builds from well-formed recipes is well
/// formed.
pub proof fn lemma_group_spec_wf(rs: Seq<RecipeV>)
    requires
        forall|i: int| 0 <= i < rs.len() ==> recipe_rats_wf(#[trigger] rs[i]),
    ensures
        catalog_wf(group_spec(rs)),
    decreases rs.len(),
{
    if rs.len() > 0 {
        lemma_group_spec_wf(rs.drop_last());
        lemma_group_step_wf(group_spec(rs.drop_last()), rs.last());
    }
}

/// Find the position of `k` among the catalog keys, or the length when
/// absent; computes [`find_key`].
pub(crate) fn find_key_exec(cat: &Vec<(String, Vec<Recipe>)>, k: &String) -> (r: usize)
    ensures
        r <= cat@.len(),
        r < cat@.len() ==> r as int == find_key(catalog_view(cat@), k@),
        r == cat@.len() ==> find_key(catalog_view(cat@), k@) == -1,
{
    proof {
        lemma_find_key(catalog_view(cat@), k@);
    }
    let mut i: usize = 0;
    while i < cat.len()
        invariant
            i <= cat@.len(),
            forall|j: int| 0 <= j < i ==> catalog_view(cat@)[j].0 != k@,
        decreases cat@.len() - i,
    {
        proof {
            assert(catalog_view(cat@)[i as int].0 == cat@[i as int].0@);
        }
        if cat[i].0 == *k {
            proof {
                lemma_find_key_from_facts(catalog_view(cat@), k@, i as int);
            }
            return i;
        }
        i = i + 1;
    }
    i
}

/// When index `i` holds key `k` and no earlier index does, [`find_key`]
/// returns `i`.
pub proof fn lemma_find_key_from_facts<T>(s: Seq<(Seq<char>, T)>, k: Seq<char>, i: int)
    requires
        0 <= i < s.len(),
        s[i].0 == k,
        forall|j: int| 0 <= j < i ==> s[j].0 != k,
    ensures
        find_key(s, k) == i,
    decreases s.len(),
{
    if i > 0 {
        assert(forall|j: int| 1 <= j < s.len() ==> #[trigger] s[j] == s.drop_first()[j - 1]);
        lemma_find_key_from_facts(s.drop_first(), k, i - 1);
    }
}

/// Group a flat recipe list into the catalog: lowercased output-item name to
/// the ordered list of that item's recipe variants. Exactly [`group_spec`];
/// the result is well formed.
pub fn load_recipe_map(recipes: Vec<Recipe>) -> (map: Vec<(String, Vec<Recipe>)>)
    requires
        forall|i: int| 0 <= i < recipes@.len() ==> recipe_rats_wf(#[trigger] recipes@[i]@),
    ensures
        catalog_view(map@) == group_spec(recipes_view(recipes@)),
        catalog_wf(catalog_view(map@)),
{
    let mut map: Vec<(String, Vec<Recipe>)> = Vec::new();
    let mut i: usize = 0;
    proof {
        assert(catalog_view(map@) =~= Seq::empty());
        assert(recipes_view(recipes@.take(0)) =~= Seq::empty());
        assert(group_spec(Seq::empty()) =~= Seq::<(Seq<char>, Seq<RecipeV>)>::empty());
    }
    while i < recipes.len()
        invariant
            i <= recipes@.len(),
            forall|j: int| 0 <= j < recipes@.len() ==> recipe_rats_wf(#[trigger] recipes@[j]@),
            catalog_view(map@) == group_spec(recipes_view(recipes@.take(i as int))),
            catalog_wf(catalog_view(map@)),
        decreases recipes@.len() - i,
    {
        let ghost pre = catalog_view(map@);
        let r = recipes[i].duplicate();
        let key = to_lower(r.output_item.as_str());
        let pos = find_key_exec(&map, &key);
        proof {
            lemma_find_key(pre, key@);
        }
        if pos < map.len() {
            let mut entry = map.remove(pos);
            entry.1.push(r);
            map.insert(pos, entry);
            proof {
                assert(catalog_view(map@) =~~= group_step(pre, recipes@[i as int]@));
            }
        } else {
            let mut variants: Vec<Recipe> = Vec::new();
            variants.push(r);
            map.push((key, variants));
            proof {
                assert(catalog_view(map@) =~~= group_step(pre, recipes@[i as int]@));
            }
        }
        i = i + 1;
        proof {
            lemma_group_step_wf(pre, recipes@[i - 1]@);
            assert(recipes_view(recipes@.take(i as int)).drop_last() =~= recipes_view(
                recipes@.take(i - 1),
            ));
            assert(recipes_view(recipes@.take(i as int)).last() == recipes@[i - 1]@);
        }
    }
    proof {
        assert(recipes@.take(recipes@.len() as int) =~= recipes@);
    }
    map
}

} // verus!
