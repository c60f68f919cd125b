use dsp_chain::data::Recipe;
use dsp_chain::dsp::{load_recipe_map, ComputedRecipe};
use dsp_chain::optimizer::{max, Optimizer};
use dsp_chain::rat::Rat;

fn recipe(
    output_item: &str,
    output_item_count: i64,
    facility: &str,
    time: i64,
    materials: Vec<(&str, i64)>,
) -> Recipe {
    Recipe {
        output_item: output_item.to_string(),
        output_item_count: Rat::from_int(output_item_count),
        min_output_item_count: None,
        max_output_item_count: None,
        facility: facility.to_string(),
        time: Rat::from_int(time),
        materials: materials
            .into_iter()
            .map(|(n, q)| (n.to_string(), Rat::from_int(q)))
            .collect(),
        image: None,
        market_data: None,
    }
}

fn node(output_item: &str, num: i64, mats: Vec<(&str, i64)>, depth: Option<i64>) -> ComputedRecipe {
    ComputedRecipe {
        output_item: output_item.to_string(),
        facility: "Smelter".to_string(),
        num_facilities_needed: Rat::from_int(num),
        items_consumed_per_sec: mats
            .into_iter()
            .map(|(n, q)| (n.to_string(), Rat::from_int(q)))
            .collect(),
        seconds_spent_per_craft: Rat::from_int(1),
        crafting_per_sec: Rat::from_int(1),
        used_for: "".to_string(),
        depth,
        image: None,
    }
}

fn rate_of(mats: &[(String, Rat)], name: &str) -> Option<Rat> {
    mats.iter().find(|(n, _)| n == name).map(|(_, r)| *r)
}

#[test]
fn test_max() {
    assert_eq!(max(Some(1), Some(2)), Some(2));
    assert_eq!(max(Some(2), Some(1)), Some(2));
    assert_eq!(max(Some(1), None), Some(1));
    assert_eq!(max(None, Some(1)), Some(1));
    assert_eq!(max(None, None), None);
}

#[test]
fn test_combine_recipes() {
    let mut recipes = vec![
        node("Iron Ingot", 1, vec![("Iron Ore", 1)], Some(0)),
        node("Iron Ingot", 1, vec![("Iron Ore", 1)], Some(0)),
    ];

    let combined_recipes = Optimizer::new().combine_recipes(&mut recipes);
    assert_eq!(combined_recipes.len(), 1);
    assert_eq!(combined_recipes[0].num_facilities_needed, Rat::from_int(2));
    assert_eq!(
        rate_of(&combined_recipes[0].items_consumed_per_sec, "Iron Ore"),
        Some(Rat::from_int(2))
    );
}

#[test]
fn test_sort_recipes() {
    let mut recipes = vec![
        node("Iron Ingot A", 1, vec![("Iron Ore", 1)], Some(1)),
        node("Iron Ingot B", 1, vec![("Iron Ore", 1)], Some(1)),
        node("Iron Ingot C", 1, vec![("Iron Ore", 1)], Some(0)),
    ];

    Optimizer::new().sort_recipes(&mut recipes);
    assert_eq!(recipes[0].output_item, "Iron Ingot C");
    assert_eq!(recipes[1].output_item, "Iron Ingot A");
    assert_eq!(recipes[2].output_item, "Iron Ingot B");
}

#[test]
fn test_get_optimal_recipe() {
    let mut recipe_map = Vec::new();
    recipe_map.insert(
        0,
        (
            "Iron Ingot".to_string().to_lowercase(),
            vec![recipe("Iron Ingot", 1, "Smelter", 1, vec![("Iron Ore", 1)])],
        ),
    );
    recipe_map.push((
        "Iron Ore".to_string().to_lowercase(),
        vec![recipe("Iron Ore", 1, "Miner", 1, vec![])],
    ));

    let mut seen_recipes = Vec::new();
    let recipe_requirements = Vec::new();
    let mut optimizer = Optimizer::new();
    optimizer.set_recipes(recipe_map);
    let recipes = optimizer.get_optimal_recipe(
        "Iron Ingot".to_string(),
        Rat::from_int(1),
        "".to_string(),
        &mut seen_recipes,
        0,
        recipe_requirements,
    );

    assert_eq!(recipes.len(), 2);
    assert_eq!(recipes[0].output_item, "Iron Ingot");
    assert_eq!(recipes[0].num_facilities_needed, Rat::from_int(1));
    assert_eq!(
        rate_of(&recipes[0].items_consumed_per_sec, "Iron Ore"),
        Some(Rat::from_int(1))
    );
    assert_eq!(recipes[0].seconds_spent_per_craft, Rat::from_int(1));
    assert_eq!(recipes[0].crafting_per_sec, Rat::from_int(1));
    assert_eq!(recipes[0].used_for, "".to_string());
    assert_eq!(recipes[0].depth, Some(0));

    assert_eq!(recipes[1].output_item, "Iron Ore");
    assert_eq!(recipes[1].num_facilities_needed, Rat::from_int(1));
    assert_eq!(recipes[1].items_consumed_per_sec.len(), 0);
    assert_eq!(recipes[1].seconds_spent_per_craft, Rat::from_int(1));
    assert_eq!(recipes[1].crafting_per_sec, Rat::from_int(1));
    assert_eq!(recipes[1].used_for, "Iron Ingot".to_string());
    assert_eq!(recipes[1].depth, Some(1));
}

#[test]
fn zero_output_count_gives_zero_facilities_and_rates() {
    let mut recipe_map = Vec::new();
    recipe_map.push((
        "widget".to_string(),
        vec![recipe("Widget", 0, "Assembler", 2, vec![("Gear", 3)])],
    ));
    let mut optimizer = Optimizer::new();
    optimizer.set_recipes(recipe_map);
    let recipes = optimizer.get_optimal_recipe(
        "Widget".to_string(),
        Rat::from_int(7),
        "".to_string(),
        &mut Vec::new(),
        0,
        Vec::new(),
    );
    assert_eq!(recipes.len(), 1);
    assert_eq!(recipes[0].num_facilities_needed, Rat::zero());
    assert_eq!(
        rate_of(&recipes[0].items_consumed_per_sec, "Gear"),
        Some(Rat::zero())
    );
}

#[test]
fn zero_time_gives_zero_consumption() {
    let mut recipe_map = Vec::new();
    recipe_map.push((
        "widget".to_string(),
        vec![recipe("Widget", 2, "Assembler", 0, vec![("Gear", 3)])],
    ));
    let mut optimizer = Optimizer::new();
    optimizer.set_recipes(recipe_map);
    let recipes = optimizer.get_optimal_recipe(
        "Widget".to_string(),
        Rat::from_int(5),
        "".to_string(),
        &mut Vec::new(),
        0,
        Vec::new(),
    );
    assert_eq!(recipes.len(), 1);
    // time * rate / count = 0 * 5 / 2 = 0 facilities as well.
    assert_eq!(recipes[0].num_facilities_needed, Rat::zero());
    assert_eq!(
        rate_of(&recipes[0].items_consumed_per_sec, "Gear"),
        Some(Rat::zero())
    );
}

#[test]
fn fractional_facility_arithmetic_is_exact() {
    // facilities = time * rate / count = 2 * (5/2) / 3 = 5/3;
    // consumption = qty * facilities / time = 4 * (5/3) / 2 = 10/3.
    let mut recipe_map = Vec::new();
    recipe_map.push((
        "widget".to_string(),
        vec![recipe("Widget", 3, "Assembler", 2, vec![("Gear", 4)])],
    ));
    let mut optimizer = Optimizer::new();
    optimizer.set_recipes(recipe_map);
    let recipes = optimizer.get_optimal_recipe(
        "Widget".to_string(),
        Rat::frac(5, 2),
        "".to_string(),
        &mut Vec::new(),
        0,
        Vec::new(),
    );
    assert_eq!(recipes.len(), 1);
    assert_eq!(recipes[0].num_facilities_needed, Rat::frac(5, 3));
    assert_eq!(
        rate_of(&recipes[0].items_consumed_per_sec, "Gear"),
        Some(Rat::frac(10, 3))
    );
}

#[test]
fn direct_cycle_terminates_with_two_nodes() {
    let mut recipe_map = Vec::new();
    recipe_map.push((
        "a".to_string(),
        vec![recipe("A", 1, "Plant", 1, vec![("B", 1)])],
    ));
    recipe_map.push((
        "b".to_string(),
        vec![recipe("B", 1, "Plant", 1, vec![("A", 1)])],
    ));
    let mut optimizer = Optimizer::new();
    optimizer.set_recipes(recipe_map);
    let recipes = optimizer.get_optimal_recipe(
        "A".to_string(),
        Rat::from_int(1),
        "".to_string(),
        &mut Vec::new(),
        0,
        Vec::new(),
    );
    assert_eq!(recipes.len(), 2);
    assert_eq!(recipes[0].output_item, "A");
    assert_eq!(recipes[1].output_item, "B");
}

#[test]
fn diamond_dependency_expands_per_branch() {
    // Both plates need ore: the ore node appears once per branch.
    let mut recipe_map = Vec::new();
    recipe_map.push((
        "kit".to_string(),
        vec![recipe("Kit", 1, "Assembler", 1, vec![("PlateA", 1), ("PlateB", 1)])],
    ));
    recipe_map.push((
        "platea".to_string(),
        vec![recipe("PlateA", 1, "Smelter", 1, vec![("Ore", 1)])],
    ));
    recipe_map.push((
        "plateb".to_string(),
        vec![recipe("PlateB", 1, "Smelter", 1, vec![("Ore", 1)])],
    ));
    recipe_map.push((
        "ore".to_string(),
        vec![recipe("Ore", 1, "Miner", 1, vec![])],
    ));
    let mut optimizer = Optimizer::new();
    optimizer.set_recipes(recipe_map);
    let recipes = optimizer.get_optimal_recipe(
        "Kit".to_string(),
        Rat::from_int(1),
        "".to_string(),
        &mut Vec::new(),
        0,
        Vec::new(),
    );
    let ore_nodes = recipes.iter().filter(|r| r.output_item == "Ore").count();
    assert_eq!(recipes.len(), 5);
    assert_eq!(ore_nodes, 2);
}

#[test]
fn unknown_item_expands_to_nothing() {
    let mut optimizer = Optimizer::new();
    optimizer.set_recipes(Vec::new());
    let recipes = optimizer.get_optimal_recipe(
        "Nowhere".to_string(),
        Rat::from_int(1),
        "".to_string(),
        &mut Vec::new(),
        0,
        Vec::new(),
    );
    assert!(recipes.is_empty());
}

#[test]
fn lookup_is_case_insensitive() {
    // If lowercasing were skipped the upper-case name would miss the
    // catalog key and the result would be empty.
    let mut recipe_map = Vec::new();
    recipe_map.push((
        "iron ingot".to_string(),
        vec![recipe("Iron Ingot", 1, "Smelter", 1, vec![])],
    ));
    let mut optimizer = Optimizer::new();
    optimizer.set_recipes(recipe_map);
    let recipes = optimizer.get_optimal_recipe(
        "IRON INGOT".to_string(),
        Rat::from_int(1),
        "".to_string(),
        &mut Vec::new(),
        0,
        Vec::new(),
    );
    assert_eq!(recipes.len(), 1);
    assert_eq!(recipes[0].output_item, "Iron Ingot");
}

#[test]
fn out_of_bounds_variant_falls_back_to_first() {
    let mut recipe_map = Vec::new();
    recipe_map.push((
        "plate".to_string(),
        vec![
            recipe("Plate", 1, "Smelter", 1, vec![]),
            recipe("Plate", 2, "Arc Smelter", 1, vec![]),
        ],
    ));
    let mut optimizer = Optimizer::new();
    optimizer.set_recipes(recipe_map);

    let mut reqs = Vec::new();
    reqs.push(("Plate".to_string(), 7i64));
    let recipes = optimizer.get_optimal_recipe(
        "Plate".to_string(),
        Rat::from_int(1),
        "".to_string(),
        &mut Vec::new(),
        0,
        reqs,
    );
    assert_eq!(recipes.len(), 1);
    assert_eq!(recipes[0].facility, "Smelter");

    let mut reqs = Vec::new();
    reqs.push(("Plate".to_string(), 1i64));
    let recipes = optimizer.get_optimal_recipe(
        "Plate".to_string(),
        Rat::from_int(1),
        "".to_string(),
        &mut Vec::new(),
        0,
        reqs,
    );
    assert_eq!(recipes.len(), 1);
    assert_eq!(recipes[0].facility, "Arc Smelter");
}

#[test]
fn combine_order_keeps_numeric_totals() {
    let a = node("Iron Ingot", 1, vec![("Iron Ore", 1)], Some(0));
    let mut b = node("Iron Ingot", 2, vec![("Iron Ore", 3)], Some(1));
    b.used_for = "Gear".to_string();

    let mut fwd = vec![a.clone(), b.clone()];
    let mut rev = vec![b, a];
    let opt = Optimizer::new();
    let fwd = opt.combine_recipes(&mut fwd);
    let rev = opt.combine_recipes(&mut rev);
    assert_eq!(fwd.len(), 1);
    assert_eq!(rev.len(), 1);
    assert_eq!(fwd[0].num_facilities_needed, Rat::from_int(3));
    assert_eq!(rev[0].num_facilities_needed, Rat::from_int(3));
    assert_eq!(
        rate_of(&fwd[0].items_consumed_per_sec, "Iron Ore"),
        Some(Rat::from_int(4))
    );
    assert_eq!(
        rate_of(&rev[0].items_consumed_per_sec, "Iron Ore"),
        Some(Rat::from_int(4))
    );
    // The depth of an aggregate is the deeper of the two.
    assert_eq!(fwd[0].depth, Some(1));
    assert_eq!(rev[0].depth, Some(1));
    // Both consumer labels appear, in either order; the audit trail is the
    // one place where the order shows.
    assert_eq!(fwd[0].used_for, " | Gear (Uses 1/s)");
    assert_eq!(rev[0].used_for, "Gear (Uses 1/s) |  (Uses 1/s)");
}

#[test]
fn combine_weighted_average_craft_time() {
    // (1*1 + 3*2) / (1+2) = 7/3 seconds per craft.
    let mut a = node("Iron Ingot", 1, vec![], Some(0));
    a.seconds_spent_per_craft = Rat::from_int(1);
    let mut b = node("Iron Ingot", 2, vec![], Some(0));
    b.seconds_spent_per_craft = Rat::from_int(3);
    let mut both = vec![a, b];
    let combined = Optimizer::new().combine_recipes(&mut both);
    assert_eq!(combined.len(), 1);
    assert_eq!(combined[0].seconds_spent_per_craft, Rat::frac(7, 3));
}

#[test]
fn sort_breaks_ties_by_used_for_then_rate() {
    let mut a = node("Plate", 1, vec![], Some(0));
    a.used_for = "Gear".to_string();
    a.crafting_per_sec = Rat::from_int(2);
    let mut b = node("Plate", 1, vec![], Some(0));
    b.used_for = "Frame".to_string();
    b.crafting_per_sec = Rat::from_int(9);
    let mut c = node("Plate", 1, vec![], Some(0));
    c.used_for = "Gear".to_string();
    c.crafting_per_sec = Rat::from_int(1);
    let mut v = vec![a, b, c];
    Optimizer::new().sort_recipes(&mut v);
    assert_eq!(v[0].used_for, "Frame");
    assert_eq!(v[1].used_for, "Gear");
    assert_eq!(v[1].crafting_per_sec, Rat::from_int(1));
    assert_eq!(v[2].crafting_per_sec, Rat::from_int(2));
}

#[test]
fn sort_puts_invalid_rate_last() {
    let mut a = node("Plate", 1, vec![], Some(0));
    a.crafting_per_sec = Rat::invalid();
    let mut b = node("Plate", 1, vec![], Some(0));
    b.crafting_per_sec = Rat::from_int(5);
    let mut v = vec![a, b];
    Optimizer::new().sort_recipes(&mut v);
    assert_eq!(v[0].crafting_per_sec, Rat::from_int(5));
    assert_eq!(v[1].crafting_per_sec, Rat::invalid());
}

#[test]
fn load_recipe_map_groups_variants_case_insensitively() {
    let recipes = vec![
        recipe("Plate", 1, "Smelter", 1, vec![]),
        recipe("PLATE", 2, "Arc Smelter", 1, vec![]),
        recipe("Gear", 1, "Assembler", 1, vec![("Plate", 2)]),
    ];
    let map = load_recipe_map(recipes);
    assert_eq!(map.len(), 2);
    assert_eq!(map[0].0, "plate");
    assert_eq!(map[0].1.len(), 2);
    assert_eq!(map[0].1[1].facility, "Arc Smelter");
    assert_eq!(map[1].0, "gear");
    assert_eq!(map[1].1.len(), 1);
}
