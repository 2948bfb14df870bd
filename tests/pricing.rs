use std::collections::{HashMap, HashSet};

use craft_cost::client::{Ingredient, ItemId, Listing, Listings, Recipe, RecipeId};
use craft_cost::cost::{special, vendor, Cost, Source};
use craft_cost::error::{Failed, Failure};
use craft_cost::index::Index;

const REAGENT: i32 = 46747; // vendor price 150
const JUTE: i32 = 19792; // vendor price 8

fn level(unit_price: i32, quantity: i32) -> Listing {
    Listing { listings: 1, unit_price, quantity }
}

fn book(id: i32, buys: Vec<Listing>, sells: Vec<Listing>) -> Listings {
    Listings { id: ItemId(id), buys, sells }
}

fn recipe(id: i32, output: i32, per_run: i32, ingredients: Vec<(i32, i32)>) -> Recipe {
    Recipe {
        typ: "Refinement".to_string(),
        output_item_id: ItemId(output),
        output_item_count: per_run,
        min_rating: 0,
        time_to_craft_ms: 1000,
        disciplines: vec![],
        flags: vec![],
        ingredients: ingredients
            .into_iter()
            .map(|(item, count)| Ingredient { item_id: ItemId(item), count })
            .collect(),
        id: RecipeId(id),
        chat_link: String::new(),
    }
}

fn empty_index() -> Index {
    Index {
        recipes: HashMap::new(),
        recipes_by_item: HashMap::new(),
        items: HashMap::new(),
        materials: HashMap::new(),
        listings: HashMap::new(),
        offerings: HashSet::new(),
    }
}

fn add_recipe(index: &mut Index, r: Recipe) {
    index.recipes.insert(r.id.0, r.clone());
    index.recipes_by_item.insert(r.output_item_id.0, r);
}

fn ingredient_totals(c: &Cost) -> Vec<(i32, i32)> {
    match &c.source {
        Source::Recipe { ingredients, .. } => ingredients.iter().map(|i| (i.id.0, i.total)).collect(),
        _ => panic!("not crafted: {:?}", c.source),
    }
}

#[test]
fn cost_walks_sells_cheapest_first() {
    let ls = book(7, vec![], vec![level(10, 2), level(12, 3), level(20, 5)]);
    assert_eq!(ls.cost(0), Ok(0));
    assert_eq!(ls.cost(2), Ok(20));
    assert_eq!(ls.cost(4), Ok(2 * 10 + 2 * 12));
    assert_eq!(ls.cost(10), Ok(20 + 36 + 100));
}

#[test]
fn cost_reports_true_shortfall() {
    let ls = book(7, vec![], vec![level(10, 2), level(12, 3)]);
    assert_eq!(
        ls.cost(9),
        Err(Failed(Failure::InsufficientDepth { item: ItemId(7), remaining: 4 }))
    );
    let empty = book(8, vec![], vec![]);
    assert_eq!(
        empty.cost(1),
        Err(Failed(Failure::InsufficientDepth { item: ItemId(8), remaining: 1 }))
    );
    assert_eq!(empty.cost(0), Ok(0));
}

#[test]
fn sale_walks_buys_dearest_first() {
    let ls = book(7, vec![level(9, 2), level(8, 5)], vec![level(10, 2), level(12, 3)]);
    assert_eq!(ls.sale(3), Ok(9 * 2 + 8));
    assert_eq!(
        ls.sale(8),
        Err(Failed(Failure::InsufficientDepth { item: ItemId(7), remaining: 1 }))
    );
}

#[test]
fn round_trip_loses_with_positive_spread() {
    let ls = book(7, vec![level(9, 2), level(8, 5)], vec![level(10, 2), level(12, 3)]);
    for q in 1..=5 {
        let paid = ls.cost(q).unwrap();
        let received = ls.sale(q).unwrap();
        assert!(received < paid, "q={} paid={} received={}", q, paid, received);
    }
}

#[test]
fn vendor_and_special_catalog() {
    assert_eq!(vendor(&ItemId(REAGENT)), Some(150));
    assert_eq!(vendor(&ItemId(JUTE)), Some(8));
    assert_eq!(vendor(&ItemId(1)), None);
    let mut index = empty_index();
    assert_eq!(special(&index, &ItemId(19925)), Ok(Some(1000)));
    assert_eq!(special(&index, &ItemId(1)), Ok(None));
    index.offerings.insert(555);
    assert_eq!(special(&index, &ItemId(555)), Ok(Some(1000000)));
}

#[test]
fn charged_quartz_priced_from_quartz_book() {
    let mut index = empty_index();
    assert_eq!(
        special(&index, &ItemId(43772)),
        Err(Failed(Failure::MissingReferenceData { id: 43773 }))
    );
    index.listings.insert(43773, book(43773, vec![], vec![level(3, 10)]));
    assert_eq!(
        special(&index, &ItemId(43772)),
        Err(Failed(Failure::InsufficientDepth { item: ItemId(43773), remaining: 15 }))
    );
    index.listings.insert(43773, book(43773, vec![], vec![level(3, 10), level(4, 100)]));
    assert_eq!(special(&index, &ItemId(43772)), Ok(Some(30 + 15 * 4)));
}

#[test]
fn scenario_vendor_item() {
    let index = empty_index();
    let c = Cost::new(&index, &ItemId(REAGENT), 3).unwrap();
    assert_eq!(c.total, 450);
    assert!(matches!(c.source, Source::Vendor));
    assert_eq!(c.quantity, 3);
}

#[test]
fn scenario_recipe_without_listings() {
    let mut index = empty_index();
    add_recipe(&mut index, recipe(1, 2001, 1, vec![(REAGENT, 2)]));
    let c = Cost::new(&index, &ItemId(2001), 1).unwrap();
    assert_eq!(c.total, 300);
    match &c.source {
        Source::Recipe { id, ingredients } => {
            assert_eq!(*id, RecipeId(1));
            assert_eq!(ingredients.len(), 1);
            assert_eq!(ingredients[0].id, ItemId(REAGENT));
            assert_eq!(ingredients[0].quantity, 2);
            assert!(matches!(ingredients[0].source, Source::Vendor));
        }
        other => panic!("expected a recipe, got {:?}", other),
    }
}

#[test]
fn scenario_market_beats_recipe_and_restores_ledger() {
    let mut index = empty_index();
    add_recipe(&mut index, recipe(2, 2002, 1, vec![(REAGENT, 2)]));
    index.listings.insert(2002, book(2002, vec![], vec![level(200, 1)]));
    let mut bank: HashMap<i32, i32> = HashMap::new();
    bank.insert(9, 4);
    let before = bank.clone();
    let c = Cost::new_with_bank(&index, &ItemId(2002), 1, &mut bank).unwrap();
    assert!(matches!(c.source, Source::Auction));
    assert_eq!(c.total, 200);
    assert_eq!(bank, before);
}

#[test]
fn market_win_gives_back_inventory_drawn_while_pricing() {
    let mut index = empty_index();
    add_recipe(&mut index, recipe(11, 2011, 1, vec![(REAGENT, 3)]));
    index.listings.insert(2011, book(2011, vec![], vec![level(200, 1)]));
    let mut bank: HashMap<i32, i32> = HashMap::new();
    bank.insert(REAGENT, 1);
    let c = Cost::new_with_bank(&index, &ItemId(2011), 1, &mut bank).unwrap();
    assert!(matches!(c.source, Source::Auction));
    assert_eq!(c.total, 200);
    assert_eq!(bank.get(&REAGENT), Some(&1));
}

#[test]
fn scenario_inventory_then_vendor() {
    let index = empty_index();
    let mut bank: HashMap<i32, i32> = HashMap::new();
    bank.insert(JUTE, 5);
    let c = Cost::new_with_bank(&index, &ItemId(JUTE), 8, &mut bank).unwrap();
    match &c.source {
        Source::Bank { used: 5, rest: Some(rest) } => assert!(matches!(**rest, Source::Vendor)),
        other => panic!("expected an inventory draw, got {:?}", other),
    }
    assert_eq!(c.total, 3 * 8);
    assert_eq!(c.quantity, 8);
    assert_eq!(bank.get(&JUTE), Some(&0));
}

#[test]
fn fully_covered_by_inventory_costs_nothing() {
    let index = empty_index();
    let mut bank: HashMap<i32, i32> = HashMap::new();
    bank.insert(4242, 10);
    let c = Cost::new_with_bank(&index, &ItemId(4242), 7, &mut bank).unwrap();
    assert!(matches!(c.source, Source::Bank { used: 7, rest: None }));
    assert_eq!(c.total, 0);
    assert_eq!(bank.get(&4242), Some(&3));
}

#[test]
fn crafting_cheaper_sums_ingredient_totals() {
    let mut index = empty_index();
    add_recipe(&mut index, recipe(3, 2003, 1, vec![(REAGENT, 1), (JUTE, 3)]));
    index.listings.insert(2003, book(2003, vec![], vec![level(1000, 10)]));
    let c = Cost::new(&index, &ItemId(2003), 2).unwrap();
    assert_eq!(ingredient_totals(&c), vec![(REAGENT, 300), (JUTE, 48)]);
    assert_eq!(c.total, 348);
}

#[test]
fn tie_between_market_and_craft_favours_crafting() {
    let mut index = empty_index();
    add_recipe(&mut index, recipe(4, 2004, 1, vec![(REAGENT, 2)]));
    index.listings.insert(2004, book(2004, vec![], vec![level(300, 1)]));
    let c = Cost::new(&index, &ItemId(2004), 1).unwrap();
    assert!(matches!(c.source, Source::Recipe { .. }));
    assert_eq!(c.total, 300);
}

#[test]
fn runs_round_up() {
    let mut index = empty_index();
    add_recipe(&mut index, recipe(5, 2005, 5, vec![(JUTE, 2)]));
    let c = Cost::new(&index, &ItemId(2005), 6).unwrap();
    assert_eq!(ingredient_totals(&c), vec![(JUTE, 2 * 2 * 8)]);
    let c = Cost::new(&index, &ItemId(2005), 0).unwrap();
    assert_eq!(c.total, 0);
}

#[test]
fn unpriced_item_is_unknown_at_zero() {
    let mut index = empty_index();
    let c = Cost::new(&index, &ItemId(3001), 4).unwrap();
    assert!(matches!(c.source, Source::Unknown));
    assert_eq!(c.total, 0);
    index.listings.insert(3001, book(3001, vec![], vec![level(5, 3)]));
    let c = Cost::new(&index, &ItemId(3001), 4).unwrap();
    assert!(matches!(c.source, Source::Unknown));
    let c = Cost::new(&index, &ItemId(3001), 3).unwrap();
    assert!(matches!(c.source, Source::Auction));
    assert_eq!(c.total, 15);
}

#[test]
fn cyclic_recipes_fall_back_to_market() {
    let mut index = empty_index();
    add_recipe(&mut index, recipe(6, 2006, 1, vec![(2007, 1)]));
    add_recipe(&mut index, recipe(7, 2007, 1, vec![(2006, 1)]));
    index.listings.insert(2006, book(2006, vec![], vec![level(40, 9)]));
    let c = Cost::new(&index, &ItemId(2006), 1).unwrap();
    match &c.source {
        Source::Recipe { ingredients, .. } => {
            let inner = &ingredients[0];
            assert_eq!(inner.id, ItemId(2007));
            match &inner.source {
                Source::Recipe { ingredients, .. } => {
                    assert!(matches!(ingredients[0].source, Source::Auction));
                    assert_eq!(ingredients[0].total, 40);
                }
                other => panic!("expected a recipe, got {:?}", other),
            }
        }
        other => panic!("expected a recipe, got {:?}", other),
    }
    assert_eq!(c.total, 40);
}

#[test]
fn siblings_share_scarce_inventory_in_recipe_order() {
    let mut index = empty_index();
    add_recipe(&mut index, recipe(8, 2008, 1, vec![(JUTE, 2), (JUTE, 2)]));
    let mut bank: HashMap<i32, i32> = HashMap::new();
    bank.insert(JUTE, 3);
    let c = Cost::new_with_bank(&index, &ItemId(2008), 1, &mut bank).unwrap();
    match &c.source {
        Source::Recipe { ingredients, .. } => {
            assert!(matches!(ingredients[0].source, Source::Bank { used: 2, rest: None }));
            assert!(matches!(ingredients[1].source, Source::Bank { used: 1, rest: Some(_) }));
            assert_eq!(ingredients[1].total, 8);
        }
        other => panic!("expected a recipe, got {:?}", other),
    }
    assert_eq!(bank.get(&JUTE), Some(&0));
}

#[test]
fn overflowing_total_is_reported() {
    let index = empty_index();
    match Cost::new(&index, &ItemId(REAGENT), i32::MAX) {
        Err(e) => assert_eq!(e, Failed(Failure::Overflow { item: ItemId(REAGENT) })),
        Ok(c) => panic!("expected an overflow, got {:?}", c),
    }
}

#[test]
fn base_ingredients_counts_leaves() {
    let mut index = empty_index();
    add_recipe(&mut index, recipe(9, 2009, 1, vec![(REAGENT, 1), (2010, 2)]));
    add_recipe(&mut index, recipe(10, 2010, 1, vec![(JUTE, 3), (REAGENT, 1)]));
    let mut bank: HashMap<i32, i32> = HashMap::new();
    bank.insert(JUTE, 2);
    let c = Cost::new_with_bank(&index, &ItemId(2009), 1, &mut bank).unwrap();
    let leaves = c.base_ingredients().unwrap();
    assert_eq!(leaves.get(&REAGENT), Some(&3));
    assert_eq!(leaves.get(&JUTE), Some(&6));
    assert_eq!(leaves.len(), 2);
}
