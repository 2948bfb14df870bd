use std::collections::{HashMap, HashSet};

use craft_cost::client::{ids_str, Ingredient, Item, ItemId, Listing, Listings, Recipe, RecipeId};
use craft_cost::cost::{Cost, Source};
use craft_cost::index::Index;
use craft_cost::profit::{
    bank_profit, bank_used, days, find_profits, flip_profit, is_daily, shopping_ingredients,
    Profit,
};
use craft_cost::text::{contains_text, money, same_text};

const REAGENT: i32 = 46747; // vendor price 150
const ELDER_RESIDUE: i32 = 46744; // daily-limited

fn price_level(unit_price: i32, quantity: i32) -> Listing {
    Listing { listings: 1, unit_price, quantity }
}

fn make_recipe(id: i32, output: i32, ingredients: Vec<(i32, i32)>) -> Recipe {
    Recipe {
        typ: "Insignia".to_string(),
        output_item_id: ItemId(output),
        output_item_count: 1,
        min_rating: 400,
        time_to_craft_ms: 1000,
        disciplines: vec!["Tailor".to_string()],
        flags: vec![],
        ingredients: ingredients
            .into_iter()
            .map(|(item, count)| Ingredient { item_id: ItemId(item), count })
            .collect(),
        id: RecipeId(id),
        chat_link: String::new(),
    }
}

fn make_item(id: i32, name: &str, description: Option<&str>) -> Item {
    Item {
        name: name.to_string(),
        description: description.map(|d| d.to_string()),
        typ: "CraftingMaterial".to_string(),
        level: 0,
        rarity: "Fine".to_string(),
        vendor_value: 0,
        game_types: vec![],
        flags: vec![],
        restrictions: vec![],
        id: ItemId(id),
        chat_link: String::new(),
        icon: String::new(),
    }
}

/// Item 2001 crafts from two reagents (300) and sells at 1000 per unit.
fn market_index() -> Index {
    let mut index = Index {
        recipes: HashMap::new(),
        recipes_by_item: HashMap::new(),
        items: HashMap::new(),
        materials: HashMap::new(),
        listings: HashMap::new(),
        offerings: HashSet::new(),
    };
    let r = make_recipe(1, 2001, vec![(REAGENT, 2)]);
    index.recipes.insert(1, r.clone());
    index.recipes_by_item.insert(2001, r);
    index.items.insert(2001, make_item(2001, "Insignia", None));
    index.listings.insert(
        2001,
        Listings { id: ItemId(2001), buys: vec![price_level(1000, 5)], sells: vec![] },
    );
    index.listings.insert(
        REAGENT,
        Listings { id: ItemId(REAGENT), buys: vec![price_level(100, 10)], sells: vec![] },
    );
    index
}

fn profit_with(value: i32, days: i32) -> Profit {
    Profit {
        id: RecipeId(1),
        days,
        sale: value,
        value,
        daily: vec![],
        cost: Cost { id: ItemId(1), source: Source::Unknown, quantity: 1, total: 0 },
        mats_profit: None,
    }
}

#[test]
fn money_formats_gold_silver_copper() {
    assert_eq!(money(123456), "12g 34s 56c");
    assert_eq!(money(56), "56c");
    assert_eq!(money(100), "1s 0c");
    assert_eq!(money(10000), "1g 0s 0c");
    assert_eq!(money(0), "0c");
    assert_eq!(money(-5), "-5c");
}

#[test]
fn source_labels() {
    assert_eq!(Source::Vendor.to_str(), " [VENDOR]");
    assert_eq!(Source::Special.to_str(), " [SPECIAL]");
    assert_eq!(Source::Unknown.to_str(), " [UNKNOWN]");
    assert_eq!(Source::Auction.to_str(), "");
    let bank = Source::Bank { used: 5, rest: Some(Box::new(Source::Vendor)) };
    assert_eq!(bank.to_str(), " [5 BANK + [VENDOR]]");
    assert_eq!(Source::Bank { used: 5, rest: None }.to_str(), "");
}

#[test]
fn ids_are_joined_with_commas() {
    assert_eq!(ids_str(&[ItemId(1), ItemId(22), ItemId(333)]), "1,22,333");
    assert_eq!(ids_str(&[RecipeId(-4)]), "-4");
    assert_eq!(ids_str::<ItemId>(&[]), "");
}

#[test]
fn text_search_and_compare() {
    assert!(contains_text("This is used to craft the legendary bow.", "used to craft the legendary"));
    assert!(!contains_text("used to craft", "used to craft the legendary"));
    assert!(contains_text("abc", ""));
    assert!(same_text("Guild Catapult", "Guild Catapult"));
    assert!(!same_text("Guild Catapult", "Guild Catapul"));
}

#[test]
fn per_day_rounds_down_over_at_least_one_day() {
    assert_eq!(profit_with(10, 3).per_day(), 3);
    assert_eq!(profit_with(10, 0).per_day(), 10);
    assert_eq!(profit_with(10, 1).per_day(), 10);
    assert_eq!(profit_with(-7, 2).per_day(), -4);
}

#[test]
fn daily_items() {
    assert!(is_daily(&ItemId(43772)));
    assert!(is_daily(&ItemId(ELDER_RESIDUE)));
    assert!(!is_daily(&ItemId(REAGENT)));
}

#[test]
fn flip_profit_of_cheap_recipe() {
    let index = market_index();
    let r = index.recipes.get(&1).unwrap();
    let p = flip_profit(&index, r, 850).unwrap();
    assert_eq!(p.cost.total, 300);
    assert_eq!(p.value, 550);
    assert_eq!(p.sale, 850);
    assert_eq!(p.days, 0);
    assert!(p.mats_profit.is_none());
    assert!(flip_profit(&index, r, 300).is_none());
}

#[test]
fn bank_profit_counts_resale_of_materials() {
    let mut index = market_index();
    index.materials.insert(REAGENT, 2);
    let r = index.recipes.get(&1).unwrap().clone();
    let p = bank_profit(&index, &r, 850).unwrap();
    assert_eq!(p.cost.total, 0);
    assert_eq!(p.mats_profit, Some(200));
    assert_eq!(p.value, 650);
    let used = bank_used(&p.cost).unwrap();
    assert_eq!(used.order, vec![REAGENT]);
    assert_eq!(used.counts.get(&REAGENT), Some(&2));
    assert_eq!(index.materials.get(&REAGENT), Some(&2));
}

#[test]
fn daily_ingredients_set_days() {
    let mut index = market_index();
    let r = make_recipe(2, 2002, vec![(ELDER_RESIDUE, 3), (REAGENT, 1)]);
    index.recipes.insert(2, r.clone());
    index.recipes_by_item.insert(2002, r.clone());
    let c = Cost::new(&index, &ItemId(2002), 1).unwrap();
    let d = days(&c).unwrap();
    assert_eq!(d.order, vec![ELDER_RESIDUE]);
    assert_eq!(d.counts.get(&ELDER_RESIDUE), Some(&3));
    let p = flip_profit(&index, &r, 1000).unwrap();
    assert_eq!(p.days, 3);
    assert_eq!(p.daily, vec![ELDER_RESIDUE]);
    assert_eq!(p.per_day(), (1000 - 150) / 3);
}

#[test]
fn shopping_list_subtracts_owned_materials() {
    let mut index = market_index();
    let c = Cost::new(&index, &ItemId(2001), 1).unwrap();
    index.materials.insert(REAGENT, 1);
    let list = shopping_ingredients(&index, &c).unwrap();
    assert_eq!(list.get(&REAGENT), Some(&1));
    index.materials.insert(REAGENT, 5);
    let list = shopping_ingredients(&index, &c).unwrap();
    assert!(list.is_empty());
}

#[test]
fn find_profits_ranks_and_filters() {
    let mut index = market_index();
    let legendary = make_recipe(3, 2003, vec![(REAGENT, 1)]);
    index.recipes.insert(3, legendary.clone());
    index.recipes_by_item.insert(2003, legendary);
    index.items.insert(
        2003,
        make_item(2003, "Gift", Some("An item used to craft the legendary weapon.")),
    );
    index.listings.insert(
        2003,
        Listings { id: ItemId(2003), buys: vec![price_level(5000, 5)], sells: vec![] },
    );
    let better = make_recipe(4, 2004, vec![(REAGENT, 1)]);
    index.recipes.insert(4, better.clone());
    index.recipes_by_item.insert(2004, better);
    index.items.insert(2004, make_item(2004, "Inscription", None));
    index.listings.insert(
        2004,
        Listings { id: ItemId(2004), buys: vec![price_level(3000, 5)], sells: vec![] },
    );
    let (flips, banks) = find_profits(&index);
    let ids: Vec<i32> = flips.iter().map(|p| p.id.0).collect();
    assert_eq!(ids, vec![4, 1]);
    // 3000 less a fee of 450, less the reagent at 150.
    assert_eq!(flips[0].value, 2400);
    assert_eq!(flips[1].value, 850 - 300);
    assert_eq!(banks.len(), 2);
}
