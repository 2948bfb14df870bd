//! The catalog index: reference data gathered once, read during pricing.
use vstd::prelude::*;

use std::collections::{HashMap, HashSet};

use crate::client::{Item, Listings, Material, Recipe};
use crate::text::same_text;

verus! {

/// Reference data keyed by the numeric identity of recipes and items.
pub struct Index {
    /// Recipes by recipe identity.
    pub recipes: HashMap<i32, Recipe>,
    /// The recipe that produces each item, by the item's identity.
    pub recipes_by_item: HashMap<i32, Recipe>,
    /// Item descriptions by item identity.
    pub items: HashMap<i32, Item>,
    /// Owned quantity of each item.
    pub materials: HashMap<i32, i32>,
    /// Order book of each item.
    pub listings: HashMap<i32, Listings>,
    /// Items priced as offerings.
    pub offerings: HashSet<i32>,
}

/// A recipe makes at least one unit per run from non-negative counts.
pub open spec fn recipe_wf(r: Recipe) -> bool {
    &&& r.output_item_count > 0
    &&& forall|i: int| 0 <= i < r.ingredients@.len() ==> #[trigger] r.ingredients@[i].count >= 0
}

impl Index {
    /// Every order book and every recipe is well formed, and every owned
    /// quantity is non-negative.
    pub open spec fn wf(&self) -> bool {
        &&& forall|k: i32| #[trigger] self.listings@.contains_key(k) ==> self.listings@[k].wf()
        &&& forall|k: i32| #[trigger] self.recipes_by_item@.contains_key(k) ==> recipe_wf(
            self.recipes_by_item@[k],
        )
        &&& forall|k: i32| #[trigger] self.recipes@.contains_key(k) ==> recipe_wf(self.recipes@[k])
        &&& forall|k: i32| #[trigger] self.materials@.contains_key(k) ==> self.materials@[k] >= 0
    }
}

/// Description that marks an item as an offering.
pub const OFFERING_NOTE: &'static str = "An offering used in dungeon recipes.";

/// Whether `a` and `b` agree on everything pricing reads of a recipe.
pub open spec fn same_terms(a: Recipe, b: Recipe) -> bool {
    &&& a.output_item_id == b.output_item_id
    &&& a.output_item_count == b.output_item_count
    &&& a.ingredients@ == b.ingredients@
    &&& a.id == b.id
}

/// Whether an item is an offering.
pub open spec fn is_offering(i: Item) -> bool {
    i.description matches Some(d) && d@ == OFFERING_NOTE@
}

/// The well-formed recipes among the first `n`, by recipe identity; a later
/// recipe replaces an earlier one of the same identity.
pub open spec fn recipes_by_id(rs: Seq<Recipe>, n: int) -> Map<i32, Recipe>
    decreases n,
{
    if n <= 0 || n > rs.len() {
        Map::empty()
    } else if recipe_wf(rs[n - 1]) {
        recipes_by_id(rs, n - 1).insert(rs[n - 1].id.0, rs[n - 1])
    } else {
        recipes_by_id(rs, n - 1)
    }
}

/// The well-formed recipes among the first `n`, by output item; a later
/// recipe replaces an earlier one for the same item.
pub open spec fn recipes_by_output(rs: Seq<Recipe>, n: int) -> Map<i32, Recipe>
    decreases n,
{
    if n <= 0 || n > rs.len() {
        Map::empty()
    } else if recipe_wf(rs[n - 1]) {
        recipes_by_output(rs, n - 1).insert(rs[n - 1].output_item_id.0, rs[n - 1])
    } else {
        recipes_by_output(rs, n - 1)
    }
}

/// The first `n` items by identity, later ones replacing earlier ones.
pub open spec fn items_by_id(items: Seq<Item>, n: int) -> Map<i32, Item>
    decreases n,
{
    if n <= 0 || n > items.len() {
        Map::empty()
    } else {
        items_by_id(items, n - 1).insert(items[n - 1].id.0, items[n - 1])
    }
}

/// The well-formed books among the first `n`, by item.
pub open spec fn books_by_id(ls: Seq<Listings>, n: int) -> Map<i32, Listings>
    decreases n,
{
    if n <= 0 || n > ls.len() {
        Map::empty()
    } else if ls[n - 1].wf() {
        books_by_id(ls, n - 1).insert(ls[n - 1].id.0, ls[n - 1])
    } else {
        books_by_id(ls, n - 1)
    }
}

/// The non-negative stocks among the first `n`, by item.
pub open spec fn stock_by_id(ms: Seq<Material>, n: int) -> Map<i32, i32>
    decreases n,
{
    if n <= 0 || n > ms.len() {
        Map::empty()
    } else if ms[n - 1].count >= 0 {
        stock_by_id(ms, n - 1).insert(ms[n - 1].id.0, ms[n - 1].count)
    } else {
        stock_by_id(ms, n - 1)
    }
}

/// Whether recipe `r` makes or uses item `k`.
pub open spec fn mentions(r: Recipe, k: i32) -> bool {
    r.output_item_id.0 == k || uses_within(r, r.ingredients@.len() as int, k)
}

fn recipe_ok(r: &Recipe) -> (ok: bool)
    ensures
        ok == recipe_wf(*r),
{
    if r.output_item_count <= 0 {
        return false;
    }
    let mut i: usize = 0;
    while i < r.ingredients.len()
        invariant
            i <= r.ingredients@.len(),
            forall|j: int| 0 <= j < i ==> #[trigger] r.ingredients@[j].count >= 0,
        decreases r.ingredients.len() - i,
    {
        if r.ingredients[i].count < 0 {
            return false;
        }
        i = i + 1;
    }
    true
}

fn copy_recipe(r: &Recipe) -> (c: Recipe)
    ensures
        same_terms(c, *r),
{
    let ingredients = r.ingredients.clone();
    proof {
        assert(ingredients@ == r.ingredients@);
    }
    Recipe {
        typ: r.typ.clone(),
        output_item_id: r.output_item_id,
        output_item_count: r.output_item_count,
        min_rating: r.min_rating,
        time_to_craft_ms: r.time_to_craft_ms,
        disciplines: r.disciplines.clone(),
        flags: r.flags.clone(),
        ingredients,
        id: r.id,
        chat_link: r.chat_link.clone(),
    }
}

fn offering(i: &Item) -> (r: bool)
    ensures
        r == is_offering(*i),
{
    match &i.description {
        Some(d) => same_text(d.as_str(), OFFERING_NOTE),
        None => false,
    }
}

impl Index {
    /// Assembles an index from fetched reference data. Recipes that make
    /// nothing per run or take a negative count, books with a negative
    /// quantity or price or a value beyond an `i32`, and negative stocks
    /// are left out; of two entries for one key the later one counts.
    /// Offerings are the items described as such.
    pub fn assemble(
        recipes: Vec<Recipe>,
        items: Vec<Item>,
        listings: Vec<Listings>,
        materials: Vec<Material>,
    ) -> (ix: Index)
        ensures
            ix.wf(),
            ix.recipes@ == recipes_by_id(recipes@, recipes@.len() as int),
            ix.recipes_by_item@.dom() == recipes_by_output(recipes@, recipes@.len() as int).dom(),
            forall|k: i32| #[trigger]
                ix.recipes_by_item@.contains_key(k) ==> same_terms(
                    ix.recipes_by_item@[k],
                    recipes_by_output(recipes@, recipes@.len() as int)[k],
                ),
            ix.items@ == items_by_id(items@, items@.len() as int),
            ix.listings@ == books_by_id(listings@, listings@.len() as int),
            ix.materials@ == stock_by_id(materials@, materials@.len() as int),
            forall|k: i32| #[trigger]
                ix.offerings@.contains(k) <==> ix.items@.contains_key(k) && is_offering(
                    ix.items@[k],
                ),
    {
        broadcast use vstd::std_specs::hash::group_hash_axioms;

        let mut by_id: HashMap<i32, Recipe> = HashMap::new();
        let mut by_output: HashMap<i32, Recipe> = HashMap::new();
        let ghost all_recipes = recipes@;
        let total = recipes.len();
        let mut rest = recipes;
        let mut i: usize = 0;
        while rest.len() > 0
            invariant
                i + rest@.len() == all_recipes.len(),
                all_recipes.len() == total,
                rest@ == all_recipes.subrange(i as int, all_recipes.len() as int),
                by_id@ == recipes_by_id(all_recipes, i as int),
                by_output@.dom() == recipes_by_output(all_recipes, i as int).dom(),
                forall|k: i32| #[trigger]
                    by_output@.contains_key(k) ==> same_terms(
                        by_output@[k],
                        recipes_by_output(all_recipes, i as int)[k],
                    ),
                forall|k: i32| #[trigger] by_id@.contains_key(k) ==> recipe_wf(by_id@[k]),
                forall|k: i32| #[trigger] by_output@.contains_key(k) ==> recipe_wf(by_output@[k]),
            decreases rest.len(),
        {
            let r = rest.remove(0);
            proof {
                assert(all_recipes[i as int] == r);
            }
            if recipe_ok(&r) {
                by_output.insert(r.output_item_id.0, copy_recipe(&r));
                by_id.insert(r.id.0, r);
            }
            i = i + 1;
        }

        let mut item_map: HashMap<i32, Item> = HashMap::new();
        let mut offerings: HashSet<i32> = HashSet::new();
        let ghost all_items = items@;
        let total = items.len();
        let mut rest = items;
        let mut i: usize = 0;
        while rest.len() > 0
            invariant
                i + rest@.len() == all_items.len(),
                all_items.len() == total,
                rest@ == all_items.subrange(i as int, all_items.len() as int),
                item_map@ == items_by_id(all_items, i as int),
                forall|k: i32| #[trigger]
                    offerings@.contains(k) <==> item_map@.contains_key(k) && is_offering(
                        item_map@[k],
                    ),
            decreases rest.len(),
        {
            let it = rest.remove(0);
            proof {
                assert(all_items[i as int] == it);
            }
            let k = it.id.0;
            if offering(&it) {
                offerings.insert(k);
            } else {
                offerings.remove(&k);
            }
            item_map.insert(k, it);
            i = i + 1;
        }

        let mut books: HashMap<i32, Listings> = HashMap::new();
        let ghost all_books = listings@;
        let total = listings.len();
        let mut rest = listings;
        let mut i: usize = 0;
        while rest.len() > 0
            invariant
                i + rest@.len() == all_books.len(),
                all_books.len() == total,
                rest@ == all_books.subrange(i as int, all_books.len() as int),
                books@ == books_by_id(all_books, i as int),
                forall|k: i32| #[trigger] books@.contains_key(k) ==> books@[k].wf(),
            decreases rest.len(),
        {
            let ls = rest.remove(0);
            proof {
                assert(all_books[i as int] == ls);
            }
            if ls.check() {
                books.insert(ls.id.0, ls);
            }
            i = i + 1;
        }

        let mut stock: HashMap<i32, i32> = HashMap::new();
        let mut i: usize = 0;
        while i < materials.len()
            invariant
                i <= materials@.len(),
                stock@ == stock_by_id(materials@, i as int),
                forall|k: i32| #[trigger] stock@.contains_key(k) ==> stock@[k] >= 0,
            decreases materials.len() - i,
        {
            let m = &materials[i];
            if m.count >= 0 {
                stock.insert(m.id.0, m.count);
            }
            i = i + 1;
        }

        Index {
            recipes: by_id,
            recipes_by_item: by_output,
            items: item_map,
            materials: stock,
            listings: books,
            offerings,
        }
    }
}

/// Appends `k` to `out` unless `seen` already holds it.
fn note(out: &mut Vec<i32>, seen: &mut HashSet<i32>, k: i32)
    requires
        old(out)@.no_duplicates(),
        forall|k2: i32| old(seen)@.contains(k2) <==> old(out)@.contains(k2),
    ensures
        final(out)@.no_duplicates(),
        forall|k2: i32| final(seen)@.contains(k2) <==> final(out)@.contains(k2),
        forall|k2: i32| final(out)@.contains(k2) <==> (old(out)@.contains(k2) || k2 == k),
{
    broadcast use vstd::std_specs::hash::group_hash_axioms;

    if !seen.contains(&k) {
        let ghost before = out@;
        seen.insert(k);
        out.push(k);
        proof {
            assert(out@ == before.push(k));
            assert forall|k2: i32| out@.contains(k2) <==> (before.contains(k2) || k2 == k) by {
                if out@.contains(k2) {
                    let a = choose|a: int| 0 <= a < out@.len() && out@[a] == k2;
                    if a < before.len() {
                        assert(before[a] == k2);
                    }
                }
                if before.contains(k2) {
                    let a = choose|a: int| 0 <= a < before.len() && before[a] == k2;
                    assert(out@[a] == k2);
                }
                if k2 == k {
                    assert(out@[before.len() as int] == k);
                }
            }
            assert forall|a: int, b: int|
                0 <= a < out@.len() && 0 <= b < out@.len() && a != b implies out@[a] != out@[b] by {
                if a == before.len() as int {
                    assert(!before.contains(out@[b]) || out@[b] != k);
                } else if b == before.len() as int {
                    assert(before[a] == out@[a]);
                }
            }
        }
    }
}

/// Whether one of the first `j` ingredients of `r` is item `k`.
pub open spec fn uses_within(r: Recipe, j: int, k: i32) -> bool {
    exists|b: int| 0 <= b < j && #[trigger] r.ingredients@[b].item_id.0 == k
}

/// Every item that `recipes` make or use, each once, in the order the
/// recipes first mention them.
pub fn wanted_items(recipes: &Vec<Recipe>) -> (r: Vec<i32>)
    ensures
        r@.no_duplicates(),
        forall|k: i32|
            r@.contains(k) <==> exists|i: int|
                0 <= i < recipes@.len() && #[trigger] mentions(recipes@[i], k),
{
    let mut out: Vec<i32> = Vec::new();
    let mut seen: HashSet<i32> = HashSet::new();
    let mut i: usize = 0;
    proof {
        broadcast use vstd::std_specs::hash::group_hash_axioms;
        assert(seen@ == Set::<i32>::empty());
    }
    while i < recipes.len()
        invariant
            i <= recipes@.len(),
            out@.no_duplicates(),
            forall|k: i32| seen@.contains(k) <==> out@.contains(k),
            forall|k: i32|
                out@.contains(k) <==> exists|a: int|
                    0 <= a < i && #[trigger] mentions(recipes@[a], k),
        decreases recipes.len() - i,
    {
        let r = &recipes[i];
        let ghost before = out@;
        note(&mut out, &mut seen, r.output_item_id.0);
        let mut j: usize = 0;
        while j < r.ingredients.len()
            invariant
                i < recipes@.len(),
                *r == recipes@[i as int],
                j <= r.ingredients@.len(),
                out@.no_duplicates(),
                forall|k: i32| seen@.contains(k) <==> out@.contains(k),
                forall|k: i32|
                    out@.contains(k) <==> (before.contains(k) || k == r.output_item_id.0
                        || uses_within(*r, j as int, k)),
            decreases r.ingredients.len() - j,
        {
            let k = r.ingredients[j].item_id.0;
            let ghost prev = out@;
            assert(forall|k2: i32|
                prev.contains(k2) <==> (before.contains(k2) || k2 == r.output_item_id.0
                    || uses_within(*r, j as int, k2)));
            note(&mut out, &mut seen, k);
            proof {
                assert forall|k2: i32|
                    uses_within(*r, j + 1, k2) <==> (uses_within(*r, j as int, k2) || k2
                        == k) by {
                    if k2 == k {
                        assert(r.ingredients@[j as int].item_id.0 == k2);
                    }
                    if uses_within(*r, j as int, k2) {
                        let b = choose|b: int|
                            0 <= b < j && #[trigger] r.ingredients@[b].item_id.0 == k2;
                        assert(r.ingredients@[b].item_id.0 == k2);
                    }
                    if uses_within(*r, j + 1, k2) {
                        let b = choose|b: int|
                            0 <= b < j + 1 && #[trigger] r.ingredients@[b].item_id.0 == k2;
                        if b < j {
                            assert(r.ingredients@[b].item_id.0 == k2);
                        }
                    }
                }
            }
            let ghost jj = j as int;
            j = j + 1;
            proof {
                assert forall|k2: i32|
                    out@.contains(k2) <==> (before.contains(k2) || k2 == r.output_item_id.0
                        || uses_within(*r, j as int, k2)) by {
                    assert(j as int == jj + 1);
                    assert(out@.contains(k2) <==> (prev.contains(k2) || k2 == k));
                    assert(prev.contains(k2) <==> (before.contains(k2) || k2 == r.output_item_id.0
                        || uses_within(*r, jj, k2)));
                    assert(uses_within(*r, jj + 1, k2) <==> (uses_within(*r, jj, k2) || k2 == k));
                }
            }
        }
        proof {
            assert forall|k2: i32|
                out@.contains(k2) <==> exists|a: int|
                    0 <= a < i + 1 && #[trigger] mentions(recipes@[a], k2) by {
                assert(mentions(recipes@[i as int], k2) <==> (k2 == r.output_item_id.0
                    || uses_within(*r, r.ingredients@.len() as int, k2)));
                if exists|a: int| 0 <= a < i + 1 && #[trigger] mentions(recipes@[a], k2) {
                    let a = choose|a: int| 0 <= a < i + 1 && #[trigger] mentions(recipes@[a], k2);
                    if a < i {
                        assert(before.contains(k2));
                    }
                }
                if before.contains(k2) {
                    let a = choose|a: int| 0 <= a < i && #[trigger] mentions(recipes@[a], k2);
                    assert(mentions(recipes@[a], k2));
                }
            }
        }
        i = i + 1;
    }
    out
}

} // verus!
