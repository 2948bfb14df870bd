use craft_cost::client::{Ingredient, Item, ItemId, Listing, Listings, Material, Recipe, RecipeId};
use craft_cost::index::{wanted_items, Index};
use craft_cost::pacing::{after_reply, wait_before, Step};

fn lvl(unit_price: i32, quantity: i32) -> Listing {
    Listing { listings: 1, unit_price, quantity }
}

fn rcp(id: i32, output: i32, per_run: i32, ingredients: Vec<(i32, i32)>) -> Recipe {
    Recipe {
        typ: "Component".to_string(),
        output_item_id: ItemId(output),
        output_item_count: per_run,
        min_rating: 0,
        time_to_craft_ms: 0,
        disciplines: vec![],
        flags: vec![],
        ingredients: ingredients
            .into_iter()
            .map(|(item, count)| Ingredient { item_id: ItemId(item), count })
            .collect(),
        id: RecipeId(id),
        chat_link: String::new(),
    }
}

fn itm(id: i32, description: Option<&str>) -> Item {
    Item {
        name: format!("item {}", id),
        description: description.map(|d| d.to_string()),
        typ: "Trophy".to_string(),
        level: 0,
        rarity: "Rare".to_string(),
        vendor_value: 0,
        game_types: vec![],
        flags: vec![],
        restrictions: vec![],
        id: ItemId(id),
        chat_link: String::new(),
        icon: String::new(),
    }
}

#[test]
fn sort_sides_orders_best_first() {
    let mut ls = Listings {
        id: ItemId(1),
        buys: vec![lvl(5, 1), lvl(9, 2), lvl(7, 3)],
        sells: vec![lvl(12, 1), lvl(10, 2), lvl(11, 3), lvl(10, 4)],
    };
    ls.sort_sides();
    let buys: Vec<i32> = ls.buys.iter().map(|l| l.unit_price).collect();
    let sells: Vec<(i32, i32)> = ls.sells.iter().map(|l| (l.unit_price, l.quantity)).collect();
    assert_eq!(buys, vec![9, 7, 5]);
    assert_eq!(sells, vec![(10, 2), (10, 4), (11, 3), (12, 1)]);
    assert_eq!(ls.cost(3), Ok(10 * 2 + 10));
}

#[test]
fn book_check_rejects_negative_and_oversized() {
    let good = Listings { id: ItemId(1), buys: vec![lvl(1, 1)], sells: vec![lvl(2, 3)] };
    assert!(good.check());
    let negative = Listings { id: ItemId(1), buys: vec![lvl(1, -1)], sells: vec![] };
    assert!(!negative.check());
    let huge = Listings { id: ItemId(1), buys: vec![], sells: vec![lvl(i32::MAX, 2)] };
    assert!(!huge.check());
}

#[test]
fn wanted_items_lists_each_item_once() {
    let recipes = vec![
        rcp(1, 100, 1, vec![(200, 2), (300, 1)]),
        rcp(2, 300, 1, vec![(200, 1), (400, 5)]),
    ];
    assert_eq!(wanted_items(&recipes), vec![100, 200, 300, 400]);
    assert_eq!(wanted_items(&vec![]), Vec::<i32>::new());
}

#[test]
fn assemble_keys_data_and_finds_offerings() {
    let recipes = vec![
        rcp(1, 100, 1, vec![(200, 2)]),
        rcp(2, 101, 0, vec![(200, 2)]),
        rcp(3, 100, 2, vec![(201, 1)]),
    ];
    let items = vec![
        itm(200, Some("An offering used in dungeon recipes.")),
        itm(201, Some("Something else.")),
        itm(202, None),
    ];
    let listings = vec![
        Listings { id: ItemId(200), buys: vec![], sells: vec![lvl(3, 4)] },
        Listings { id: ItemId(201), buys: vec![lvl(-1, 4)], sells: vec![] },
    ];
    let materials = vec![
        Material { id: ItemId(200), category: 5, binding: None, count: 7 },
        Material { id: ItemId(201), category: 5, binding: None, count: -2 },
    ];
    let index = Index::assemble(recipes, items, listings, materials);
    assert_eq!(index.recipes.len(), 2);
    assert!(index.recipes.get(&2).is_none());
    assert_eq!(index.recipes_by_item.get(&100).map(|r| r.id), Some(RecipeId(3)));
    assert!(index.recipes_by_item.get(&101).is_none());
    assert_eq!(index.items.len(), 3);
    assert!(index.listings.contains_key(&200));
    assert!(!index.listings.contains_key(&201));
    assert_eq!(index.materials.get(&200), Some(&7));
    assert!(index.materials.get(&201).is_none());
    assert!(index.offerings.contains(&200));
    assert_eq!(index.offerings.len(), 1);
}

#[test]
fn pacing_waits_out_the_tick_and_retries_once() {
    assert_eq!(wait_before(30), 70);
    assert_eq!(wait_before(100), 0);
    assert_eq!(wait_before(5000), 0);
    assert_eq!(after_reply(200, false), Step::Accept);
    assert_eq!(after_reply(206, true), Step::Accept);
    assert_eq!(after_reply(429, false), Step::Retry { wait_ms: 200 });
    assert_eq!(after_reply(429, true), Step::Fail);
    assert_eq!(after_reply(404, false), Step::Fail);
}
