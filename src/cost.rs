//! The cost resolver: the cheapest way to obtain a quantity of an item.
use vstd::prelude::*;

use std::collections::HashMap;

use crate::client::{ItemId, RecipeId, matched};
use crate::error::{Failed, Failure};
use crate::index::{Index, recipe_wf};
use crate::tally::{Tally, TallyModel, add_need, no_counts};
use crate::text::{decimal, push_decimal};

use vstd::string::StringExecFns;

verus! {

/// How a quantity of an item is obtained.
#[derive(Debug)]
pub enum Source {
    /// Bought from a vendor at a fixed price.
    Vendor,
    /// Crafted; `ingredients` holds the cost of each ingredient, in the
    /// order the recipe lists them.
    Recipe { id: RecipeId, ingredients: Vec<Cost> },
    /// Bought on the open market.
    Auction,
    /// No price could be found; the cost is counted as zero.
    Unknown,
    /// Priced by a curated rule.
    Special,
    /// `used` units drawn from the inventory; `rest` says how the remainder
    /// was obtained, if any remained.
    Bank { used: i32, rest: Option<Box<Source>> },
}

/// The resolved cost of `quantity` units of item `id`.
#[derive(Debug)]
pub struct Cost {
    pub id: ItemId,
    pub source: Source,
    pub quantity: i32,
    pub total: i32,
}

/// Mathematical form of a [`Source`].
pub enum SourceModel {
    Vendor,
    Recipe { id: RecipeId, ingredients: Seq<CostModel> },
    Auction,
    Unknown,
    Special,
    Bank { used: i32, rest: Option<Box<SourceModel>> },
}

/// Mathematical form of a [`Cost`].
pub struct CostModel {
    pub id: ItemId,
    pub source: SourceModel,
    pub quantity: i32,
    pub total: i32,
}

/// Mathematical form of a source.
pub open spec fn source_view(s: Source) -> SourceModel
    decreases s,
{
    match s {
        Source::Vendor => SourceModel::Vendor,
        Source::Recipe { id, ingredients } => SourceModel::Recipe {
            id,
            ingredients: costs_view(ingredients@),
        },
        Source::Auction => SourceModel::Auction,
        Source::Unknown => SourceModel::Unknown,
        Source::Special => SourceModel::Special,
        Source::Bank { used, rest } => SourceModel::Bank {
            used,
            rest: match rest {
                Some(r) => Some(Box::new(source_view(*r))),
                None => None,
            },
        },
    }
}

/// Mathematical form of each cost of `s`.
pub open spec fn costs_view(s: Seq<Cost>) -> Seq<CostModel>
    decreases s,
{
    if s.len() == 0 {
        Seq::empty()
    } else {
        costs_view(s.subrange(0, s.len() - 1)).push(cost_view(s[s.len() - 1]))
    }
}

/// Mathematical form of a cost.
pub open spec fn cost_view(c: Cost) -> CostModel
    decreases c,
{
    CostModel { id: c.id, source: source_view(c.source), quantity: c.quantity, total: c.total }
}

impl View for Cost {
    type V = CostModel;

    open spec fn view(&self) -> CostModel {
        cost_view(*self)
    }
}

/// Mathematical form of a resolution result.
pub open spec fn result_view(r: Result<Cost, Failed>) -> Result<CostModel, Failed> {
    match r {
        Ok(c) => Ok(c@),
        Err(e) => Err(e),
    }
}

/// Unit price of items bought from a vendor.
pub open spec fn vendor_price(id: i32) -> Option<i32> {
    match id {
        46747 => Some(150i32),  // Thermocatalytic Reagent
        19790 => Some(64i32),  // Spool of Gossamer Thread
        19791 => Some(48i32),  // Spool of Silk Thread
        19793 => Some(32i32),  // Spool of Linen Thread
        19794 => Some(24i32),  // Spool of Cotton Thread
        19789 => Some(16i32),  // Spool of Wool Thread
        19792 => Some(8i32),  // Spool of Jute Thread
        76839 => Some(56i32),  // Milling Basin
        19704 => Some(8i32),  // Lump of Tin
        19750 => Some(16i32),  // Lump of Coal
        19924 => Some(48i32),  // Lump of Primordium
        _ => None,
    }
}

/// Item whose market price sets the price of a Charged Quartz Crystal.
pub const QUARTZ_CRYSTAL: i32 = 43773;

/// Quartz Crystals that go into one Charged Quartz Crystal.
pub const QUARTZ_PER_CHARGE: i32 = 25;

/// Unit price of an offering.
pub const OFFERING_PRICE: i32 = 1000000;

/// Unit price of items priced by a curated rule: a constant, the market
/// cost of their raw material, or the offering price.
pub open spec fn special_price(ix: Index, id: ItemId) -> Result<Option<i32>, Failed> {
    match id.0 {
        19925 => Ok(Some(1000i32)),  // Obsidian Shard
        43772 => {  // Charged Quartz Crystal
            if ix.listings@.contains_key(QUARTZ_CRYSTAL) {
                let ls = ix.listings@[QUARTZ_CRYSTAL];
                match matched(ls.id, ls.sells@, QUARTZ_PER_CHARGE as int) {
                    Ok(t) => Ok(Some(t)),
                    Err(e) => Err(e),
                }
            } else {
                Err(Failed(Failure::MissingReferenceData { id: QUARTZ_CRYSTAL }))
            }
        },
        87809 => Ok(Some(112000i32)),  // Plaguedoctor's Orichalcum-Imbued Inscription
        88011 => Ok(Some(56000i32)),  // Plaguedoctor's Intricate Gossamer Insignia
        89537 => Ok(Some(320i32)),  // Branded Mass
        89696 => Ok(Some(100000i32)),  // Exquisite Serpentite Jewel
        69434 => Ok(Some(1000i32)),  // Bottle of Airship Oil
        69432 => Ok(Some(1000i32)),  // Pile of Auric Dust
        69392 => Ok(Some(1000i32)),  // Ley Line Spark
        _ => if ix.offerings@.contains(id.0) {
            Ok(Some(OFFERING_PRICE))
        } else {
            Ok(None)
        },
    }
}

/// Fixed unit price of a vendor item, if `id` is one.
pub fn vendor(id: &ItemId) -> (r: Option<i32>)
    ensures
        r == vendor_price(id.0),
        r matches Some(p) ==> p > 0,
{
    match id.0 {
        46747 => Some(150),
        19790 => Some(64),
        19791 => Some(48),
        19793 => Some(32),
        19794 => Some(24),
        19789 => Some(16),
        19792 => Some(8),
        76839 => Some(56),
        19704 => Some(8),
        19750 => Some(16),
        19924 => Some(48),
        _ => None,
    }
}

/// Unit price of a specially priced item, if `id` is one. Fails when the
/// order book that a price derives from is absent or too shallow.
pub fn special(index: &Index, id: &ItemId) -> (r: Result<Option<i32>, Failed>)
    requires
        index.wf(),
    ensures
        r == special_price(*index, *id),
        r matches Ok(Some(p)) ==> p >= 0,
{
    match id.0 {
        19925 => Ok(Some(1000)),
        43772 => {
            match index.listings.get(&QUARTZ_CRYSTAL) {
                Some(ls) => {
                    match ls.cost(QUARTZ_PER_CHARGE) {
                        Ok(t) => Ok(Some(t)),
                        Err(e) => Err(e),
                    }
                },
                None => Err(Failed(Failure::MissingReferenceData { id: QUARTZ_CRYSTAL })),
            }
        },
        87809 => Ok(Some(112000)),
        88011 => Ok(Some(56000)),
        89537 => Ok(Some(320)),
        89696 => Ok(Some(100000)),
        69434 => Ok(Some(1000)),
        69432 => Ok(Some(1000)),
        69392 => Ok(Some(1000)),
        _ => {
            if index.offerings.contains(&id.0) {
                Ok(Some(OFFERING_PRICE))
            } else {
                Ok(None)
            }
        },
    }
}

/// Whether `x` fits in an `i32`.
pub open spec fn fits(x: int) -> bool {
    i32::MIN <= x <= i32::MAX
}

/// Runs of a recipe making `per_run` units each that cover `quantity` units.
pub open spec fn runs_for(quantity: int, per_run: int) -> int {
    if quantity % per_run == 0 {
        quantity / per_run
    } else {
        quantity / per_run + 1
    }
}

/// Price of `quantity` units of `id` at `unit` each.
pub open spec fn priced(id: ItemId, quantity: int, unit: int) -> Result<i32, Failed> {
    if fits(quantity * unit) {
        Ok((quantity * unit) as i32)
    } else {
        Err(Failed(Failure::Overflow { item: id }))
    }
}

/// Market cost of `quantity` units of `id`, when its book can supply them.
pub open spec fn market(ix: Index, id: ItemId, quantity: int) -> Option<i32> {
    if ix.listings@.contains_key(id.0) {
        let ls = ix.listings@[id.0];
        match matched(ls.id, ls.sells@, quantity) {
            Ok(t) => Some(t),
            Err(_) => None,
        }
    } else {
        None
    }
}

/// Producing recipes not yet being expanded further up the recursion.
pub open spec fn budget(ix: Index, ancestors: Seq<i32>) -> nat {
    ix.recipes_by_item@.dom().difference(ancestors.to_set()).len()
}

/// Expanding a producing recipe that is not yet being expanded leaves fewer
/// recipes to expand below it.
pub proof fn lemma_budget_shrinks(ix: Index, ancestors: Seq<i32>, k: i32)
    requires
        ix.recipes_by_item@.contains_key(k),
        !ancestors.contains(k),
    ensures
        budget(ix, ancestors.push(k)) < budget(ix, ancestors),
{
    let dom = ix.recipes_by_item@.dom();
    broadcast use vstd::std_specs::hash::group_hash_axioms;
    assert(dom.finite());
    let open_before = dom.difference(ancestors.to_set());
    assert(ancestors.push(k).to_set() == ancestors.to_set().insert(k)) by {
        assert forall|x: i32| #[trigger] ancestors.push(k).to_set().contains(x)
            <==> ancestors.to_set().insert(k).contains(x) by {
            if x == k {
                assert(ancestors.push(k)[ancestors.len() as int] == k);
            }
            if ancestors.contains(x) {
                let j = choose|j: int| 0 <= j < ancestors.len() && ancestors[j] == x;
                assert(ancestors.push(k)[j] == x);
            }
            if ancestors.push(k).contains(x) {
                let j = choose|j: int| 0 <= j < ancestors.len() + 1 && ancestors.push(k)[j] == x;
                if j < ancestors.len() {
                    assert(ancestors[j] == x);
                }
            }
        }
    }
    assert(dom.difference(ancestors.push(k).to_set()) == open_before.remove(k));
    assert(open_before.finite());
    assert(open_before.contains(k));
}

/// Resolution of `quantity` units of `id`: inventory first, then
/// [`acquire_spec`] for whatever the inventory could not cover. Gives the
/// result and the ledger afterwards.
pub open spec fn resolve_spec(
    ix: Index,
    id: ItemId,
    quantity: int,
    ledger: Map<i32, i32>,
    ancestors: Seq<i32>,
) -> (Result<CostModel, Failed>, Map<i32, i32>)
    decreases budget(ix, ancestors), 2nat, 0nat,
{
    if ledger.contains_key(id.0) && ledger[id.0] > 0 {
        let count = ledger[id.0];
        let used = if quantity < count {
            quantity
        } else {
            count as int
        };
        let drawn = ledger.insert(id.0, (count - used) as i32);
        if used == quantity {
            (
                Ok(
                    CostModel {
                        id,
                        source: SourceModel::Bank { used: used as i32, rest: None },
                        quantity: quantity as i32,
                        total: 0,
                    },
                ),
                drawn,
            )
        } else {
            let (r, after) = acquire_spec(ix, id, quantity - used, drawn, ancestors);
            (
                match r {
                    Ok(c) => Ok(
                        CostModel {
                            id,
                            source: SourceModel::Bank {
                                used: used as i32,
                                rest: Some(Box::new(c.source)),
                            },
                            quantity: quantity as i32,
                            total: c.total,
                        },
                    ),
                    Err(e) => Err(e),
                },
                after,
            )
        }
    } else {
        acquire_spec(ix, id, quantity, ledger, ancestors)
    }
}

/// Resolution without the inventory: a fixed price, else crafting when a
/// recipe produces the item and it is not already being crafted further up,
/// else the market, else unknown.
pub open spec fn acquire_spec(
    ix: Index,
    id: ItemId,
    quantity: int,
    ledger: Map<i32, i32>,
    ancestors: Seq<i32>,
) -> (Result<CostModel, Failed>, Map<i32, i32>)
    decreases budget(ix, ancestors), 1nat, 0nat,
{
    let fixed = |source: SourceModel, unit: i32|
        match priced(id, quantity, unit as int) {
            Ok(t) => Ok(CostModel { id, source, quantity: quantity as i32, total: t }),
            Err(e) => Err(e),
        };
    if vendor_price(id.0) is Some {
        (fixed(SourceModel::Vendor, vendor_price(id.0)->0), ledger)
    } else if special_price(ix, id) is Err {
        (Err(special_price(ix, id)->Err_0), ledger)
    } else if special_price(ix, id)->Ok_0 is Some {
        (fixed(SourceModel::Special, special_price(ix, id)->Ok_0->0), ledger)
    } else if ix.recipes_by_item@.contains_key(id.0) && !ancestors.contains(id.0) {
        proof {
            lemma_budget_shrinks(ix, ancestors, id.0);
        }
        craft_spec(ix, id, quantity, ledger, ancestors.push(id.0))
    } else {
        (
            Ok(
                match market(ix, id, quantity) {
                    Some(t) => CostModel {
                        id,
                        source: SourceModel::Auction,
                        quantity: quantity as i32,
                        total: t,
                    },
                    None => CostModel {
                        id,
                        source: SourceModel::Unknown,
                        quantity: quantity as i32,
                        total: 0,
                    },
                },
            ),
            ledger,
        )
    }
}

/// Crafting `quantity` units of `id` from its recipe, unless the market
/// sells them for strictly less than the ingredients cost; in that case the
/// ledger is left as it was before the ingredients were priced.
pub open spec fn craft_spec(
    ix: Index,
    id: ItemId,
    quantity: int,
    ledger: Map<i32, i32>,
    ancestors: Seq<i32>,
) -> (Result<CostModel, Failed>, Map<i32, i32>)
    decreases budget(ix, ancestors), 4nat, 0nat,
{
    let recipe = ix.recipes_by_item@[id.0];
    let ings = recipe.ingredients@;
    let runs = runs_for(quantity, recipe.output_item_count as int);
    let (r, after) = ingredients_spec(ix, ings, ings.len() as int, runs, id, ledger, ancestors);
    match r {
        Err(e) => (Err(e), after),
        Ok((costs, total)) => match market(ix, id, quantity) {
            Some(m) if m < total => (
                Ok(CostModel { id, source: SourceModel::Auction, quantity: quantity as i32, total: m }),
                ledger,
            ),
            _ => (
                Ok(
                    CostModel {
                        id,
                        source: SourceModel::Recipe { id: recipe.id, ingredients: costs },
                        quantity: quantity as i32,
                        total: total as i32,
                    },
                ),
                after,
            ),
        },
    }
}

/// Resolution of the first `n` ingredients, in order, each for `runs` runs,
/// against the ledger as the earlier ones left it; gives their costs and
/// the sum of their totals.
pub open spec fn ingredients_spec(
    ix: Index,
    ings: Seq<crate::client::Ingredient>,
    n: int,
    runs: int,
    parent: ItemId,
    ledger: Map<i32, i32>,
    ancestors: Seq<i32>,
) -> (Result<(Seq<CostModel>, int), Failed>, Map<i32, i32>)
    decreases budget(ix, ancestors), 3nat, n,
{
    if n <= 0 {
        (Ok((Seq::empty(), 0)), ledger)
    } else {
        let (prev, mid) = ingredients_spec(ix, ings, n - 1, runs, parent, ledger, ancestors);
        match prev {
            Err(e) => (Err(e), mid),
            Ok((costs, total)) => {
                let ing = ings[n - 1];
                let need = ing.count * runs;
                if !fits(need) {
                    (Err(Failed(Failure::Overflow { item: ing.item_id })), mid)
                } else {
                    let (r, after) = resolve_spec(ix, ing.item_id, need, mid, ancestors);
                    match r {
                        Err(e) => (Err(e), after),
                        Ok(c) => if fits(total + c.total) {
                            (Ok((costs.push(c), total + c.total)), after)
                        } else {
                            (Err(Failed(Failure::Overflow { item: parent })), after)
                        },
                    }
                }
            },
        }
    }
}

proof fn lemma_costs_view_push(s: Seq<Cost>, c: Cost)
    ensures
        costs_view(s.push(c)) == costs_view(s).push(cost_view(c)),
{
    assert(s.push(c).subrange(0, s.len() as int) == s);
    assert(s.push(c)[s.len() as int] == c);
}

proof fn lemma_ingredient_error_stays(
    ix: Index,
    ings: Seq<crate::client::Ingredient>,
    i: int,
    n: int,
    runs: int,
    parent: ItemId,
    ledger: Map<i32, i32>,
    ancestors: Seq<i32>,
)
    requires
        0 <= i <= n,
        ingredients_spec(ix, ings, i, runs, parent, ledger, ancestors).0 is Err,
    ensures
        ingredients_spec(ix, ings, n, runs, parent, ledger, ancestors) == ingredients_spec(
            ix,
            ings,
            i,
            runs,
            parent,
            ledger,
            ancestors,
        ),
    decreases n - i,
{
    if i < n {
        lemma_ingredient_error_stays(ix, ings, i, n - 1, runs, parent, ledger, ancestors);
    }
}

/// Market cost of `quantity` units of `id`, when its book can supply them.
fn market_cost(index: &Index, id: ItemId, quantity: i32) -> (r: Option<i32>)
    requires
        index.wf(),
        quantity >= 0,
    ensures
        r == market(*index, id, quantity as int),
{
    match index.listings.get(&id.0) {
        Some(ls) => match ls.cost(quantity) {
            Ok(t) => Some(t),
            Err(_) => None,
        },
        None => None,
    }
}

/// Price of `quantity` units of `id` at `unit` each.
fn price_units(id: ItemId, quantity: i32, unit: i32) -> (r: Result<i32, Failed>)
    ensures
        r == priced(id, quantity as int, unit as int),
{
    match quantity.checked_mul(unit) {
        Some(t) => Ok(t),
        None => Err(Failed(Failure::Overflow { item: id })),
    }
}

/// Whether `k` is among `ids`.
fn contains_id(ids: &Vec<i32>, k: i32) -> (r: bool)
    ensures
        r == ids@.contains(k),
{
    let mut i: usize = 0;
    while i < ids.len()
        invariant
            i <= ids.len(),
            forall|j: int| 0 <= j < i ==> ids@[j] != k,
        decreases ids.len() - i,
    {
        if ids[i] == k {
            return true;
        }
        i = i + 1;
    }
    false
}

/// [`resolve_spec`]: inventory first, then [`acquire`].
fn resolve(
    index: &Index,
    id: ItemId,
    quantity: i32,
    bank: &mut HashMap<i32, i32>,
    ancestors: &Vec<i32>,
) -> (r: Result<Cost, Failed>)
    requires
        index.wf(),
        quantity >= 0,
    ensures
        (result_view(r), final(bank)@) == resolve_spec(
            *index,
            id,
            quantity as int,
            old(bank)@,
            ancestors@,
        ),
    decreases budget(*index, ancestors@), 2nat, 0nat,
{
    let count: i32 = match bank.get(&id.0) {
        Some(c) => *c,
        None => 0,
    };
    if count > 0 {
        let used: i32 = if quantity < count {
            quantity
        } else {
            count
        };
        bank.insert(id.0, count - used);
        if used == quantity {
            Ok(Cost { id, source: Source::Bank { used, rest: None }, quantity, total: 0 })
        } else {
            match acquire(index, id, quantity - used, bank, ancestors) {
                Ok(inner) => Ok(
                    Cost {
                        id,
                        source: Source::Bank { used, rest: Some(Box::new(inner.source)) },
                        quantity,
                        total: inner.total,
                    },
                ),
                Err(e) => Err(e),
            }
        }
    } else {
        acquire(index, id, quantity, bank, ancestors)
    }
}

/// [`acquire_spec`]: fixed price, recipe, market or unknown.
fn acquire(
    index: &Index,
    id: ItemId,
    quantity: i32,
    bank: &mut HashMap<i32, i32>,
    ancestors: &Vec<i32>,
) -> (r: Result<Cost, Failed>)
    requires
        index.wf(),
        quantity >= 0,
    ensures
        (result_view(r), final(bank)@) == acquire_spec(
            *index,
            id,
            quantity as int,
            old(bank)@,
            ancestors@,
        ),
    decreases budget(*index, ancestors@), 1nat, 0nat,
{
    if let Some(unit) = vendor(&id) {
        return match price_units(id, quantity, unit) {
            Ok(total) => Ok(Cost { id, source: Source::Vendor, quantity, total }),
            Err(e) => Err(e),
        };
    }
    match special(index, &id) {
        Err(e) => {
            return Err(e);
        },
        Ok(Some(unit)) => {
            return match price_units(id, quantity, unit) {
                Ok(total) => Ok(Cost { id, source: Source::Special, quantity, total }),
                Err(e) => Err(e),
            };
        },
        Ok(None) => {},
    }
    if index.recipes_by_item.contains_key(&id.0) && !contains_id(ancestors, id.0) {
        let mut inner = ancestors.clone();
        proof {
            assert(inner@ == ancestors@);
        }
        inner.push(id.0);
        proof {
            lemma_budget_shrinks(*index, ancestors@, id.0);
        }
        return craft(index, id, quantity, bank, &inner);
    }
    match market_cost(index, id, quantity) {
        Some(total) => Ok(Cost { id, source: Source::Auction, quantity, total }),
        None => Ok(Cost { id, source: Source::Unknown, quantity, total: 0 }),
    }
}

/// [`craft_spec`]: prices the ingredients in recipe order against the live
/// ledger, then buys instead when the market is strictly cheaper, restoring
/// the ledger from a snapshot.
fn craft(
    index: &Index,
    id: ItemId,
    quantity: i32,
    bank: &mut HashMap<i32, i32>,
    ancestors: &Vec<i32>,
) -> (r: Result<Cost, Failed>)
    requires
        index.wf(),
        quantity >= 0,
        index.recipes_by_item@.contains_key(id.0),
    ensures
        (result_view(r), final(bank)@) == craft_spec(
            *index,
            id,
            quantity as int,
            old(bank)@,
            ancestors@,
        ),
    decreases budget(*index, ancestors@), 4nat, 0nat,
{
    let recipe = match index.recipes_by_item.get(&id.0) {
        Some(r) => r,
        None => {
            return Err(Failed(Failure::MissingReferenceData { id: id.0 }));
        },
    };
    let ghost ings = recipe.ingredients@;
    assert(recipe_wf(*recipe));
    let per_run = recipe.output_item_count;
    let runs: i32 = if quantity % per_run == 0 {
        quantity / per_run
    } else {
        assert(quantity / per_run + 1 <= quantity) by (nonlinear_arith)
            requires
                quantity >= 0,
                per_run >= 1,
                quantity % per_run != 0,
        ;
        quantity / per_run + 1
    };
    let snapshot = bank.clone();
    let n = recipe.ingredients.len();
    let mut costs: Vec<Cost> = Vec::new();
    let mut total: i32 = 0;
    let mut i: usize = 0;
    while i < n
        invariant
            index.wf(),
            index.recipes_by_item@.contains_key(id.0),
            *recipe == index.recipes_by_item@[id.0],
            recipe_wf(*recipe),
            per_run == recipe.output_item_count,
            ings == recipe.ingredients@,
            n == ings.len(),
            i <= n,
            runs == runs_for(quantity as int, per_run as int),
            runs >= 0,
            snapshot@ == old(bank)@,
            ingredients_spec(*index, ings, i as int, runs as int, id, old(bank)@, ancestors@) == (
            Ok::<(Seq<CostModel>, int), Failed>((costs_view(costs@), total as int)),
            bank@),
        decreases n - i,
    {
        let ing = recipe.ingredients[i];
        assert(ings[i as int] == ing);
        assert(ing.count >= 0);
        let need = match ing.count.checked_mul(runs) {
            Some(v) => v,
            None => {
                proof {
                    lemma_ingredient_error_stays(
                        *index,
                        ings,
                        i as int + 1,
                        n as int,
                        runs as int,
                        id,
                        old(bank)@,
                        ancestors@,
                    );
                }
                return Err(Failed(Failure::Overflow { item: ing.item_id }));
            },
        };
        assert(need >= 0) by (nonlinear_arith)
            requires
                need == ing.count * runs,
                ing.count >= 0,
                runs >= 0,
        ;
        match resolve(index, ing.item_id, need, bank, ancestors) {
            Err(e) => {
                proof {
                    lemma_ingredient_error_stays(
                        *index,
                        ings,
                        i as int + 1,
                        n as int,
                        runs as int,
                        id,
                        old(bank)@,
                        ancestors@,
                    );
                }
                return Err(e);
            },
            Ok(c) => {
                match total.checked_add(c.total) {
                    Some(t) => {
                        total = t;
                        proof {
                            lemma_costs_view_push(costs@, c);
                        }
                        costs.push(c);
                    },
                    None => {
                        proof {
                            lemma_ingredient_error_stays(
                                *index,
                                ings,
                                i as int + 1,
                                n as int,
                                runs as int,
                                id,
                                old(bank)@,
                                ancestors@,
                            );
                        }
                        return Err(Failed(Failure::Overflow { item: id }));
                    },
                }
            },
        }
        i = i + 1;
    }
    match market_cost(index, id, quantity) {
        Some(m) => {
            if m < total {
                *bank = snapshot;
                return Ok(Cost { id, source: Source::Auction, quantity, total: m });
            }
        },
        None => {},
    }
    Ok(Cost { id, source: Source::Recipe { id: recipe.id, ingredients: costs }, quantity, total })
}

/// A resolved cost is well formed: its quantity and total are not negative,
/// and so is every part of its source.
pub open spec fn cost_wf(c: CostModel) -> bool
    decreases c, 1int,
{
    c.quantity >= 0 && c.total >= 0 && source_wf(c.source, c.quantity as int)
}

/// A source obtaining `quantity` units is well formed: an inventory draw
/// uses at most `quantity` units and has a remainder exactly when it used
/// fewer, and every ingredient cost of a recipe is well formed.
pub open spec fn source_wf(s: SourceModel, quantity: int) -> bool
    decreases s, 0int,
{
    match s {
        SourceModel::Bank { used, rest } => {
            &&& 0 <= used <= quantity
            &&& (rest is Some <==> used < quantity)
            &&& match rest {
                Some(r) => source_wf(*r, quantity - used),
                None => true,
            }
        },
        SourceModel::Recipe { ingredients, .. } => costs_wf(ingredients, ingredients.len() as int),
        _ => true,
    }
}

/// The first `n` of `costs` are well formed.
pub open spec fn costs_wf(costs: Seq<CostModel>, n: int) -> bool
    decreases costs, n,
{
    if n <= 0 || n > costs.len() {
        true
    } else {
        costs_wf(costs, n - 1) && cost_wf(costs[n - 1])
    }
}

proof fn lemma_costs_wf_push(costs: Seq<CostModel>, c: CostModel, n: int)
    requires
        0 <= n <= costs.len(),
    ensures
        costs_wf(costs.push(c), n) == costs_wf(costs, n),
    decreases n,
{
    if n > 0 {
        lemma_costs_wf_push(costs, c, n - 1);
        assert(costs.push(c)[n - 1] == costs[n - 1]);
    }
}

/// Sum of the totals of `costs`.
pub open spec fn sum_totals(costs: Seq<CostModel>) -> int
    decreases costs.len(),
{
    if costs.len() == 0 {
        0
    } else {
        sum_totals(costs.drop_last()) + costs.last().total
    }
}

/// The ingredients of the recipe producing `id`, resolved for `quantity`
/// units of it while `id` itself is being crafted.
pub open spec fn crafted(ix: Index, id: ItemId, quantity: int, ledger: Map<i32, i32>) -> Result<
    (Seq<CostModel>, int),
    Failed,
> {
    let recipe = ix.recipes_by_item@[id.0];
    let ings = recipe.ingredients@;
    ingredients_spec(
        ix,
        ings,
        ings.len() as int,
        runs_for(quantity, recipe.output_item_count as int),
        id,
        ledger,
        seq![id.0],
    ).0
}

/// Whether the resolver goes to the recipe of `id`: none of it is in the
/// inventory, it has no fixed price, and a recipe produces it.
pub open spec fn goes_to_recipe(ix: Index, id: ItemId, ledger: Map<i32, i32>) -> bool {
    &&& !(ledger.contains_key(id.0) && ledger[id.0] > 0)
    &&& vendor_price(id.0) is None
    &&& special_price(ix, id) == Ok::<Option<i32>, Failed>(None)
    &&& ix.recipes_by_item@.contains_key(id.0)
}

proof fn lemma_ingredients_sum(
    ix: Index,
    ings: Seq<crate::client::Ingredient>,
    n: int,
    runs: int,
    parent: ItemId,
    ledger: Map<i32, i32>,
    ancestors: Seq<i32>,
)
    ensures
        ingredients_spec(ix, ings, n, runs, parent, ledger, ancestors).0 matches Ok((costs, total))
            ==> total == sum_totals(costs) && fits(total),
    decreases n,
{
    if n > 0 {
        lemma_ingredients_sum(ix, ings, n - 1, runs, parent, ledger, ancestors);
        let (prev, mid) = ingredients_spec(ix, ings, n - 1, runs, parent, ledger, ancestors);
        if let Ok((costs, total)) = prev {
            let ing = ings[n - 1];
            let (r, after) = resolve_spec(ix, ing.item_id, ing.count * runs, mid, ancestors);
            if let Ok(c) = r {
                assert(costs.push(c).drop_last() == costs);
            }
        }
    }
}

proof fn lemma_market_nonneg(ix: Index, id: ItemId, quantity: int)
    requires
        ix.wf(),
        quantity >= 0,
    ensures
        market(ix, id, quantity) matches Some(t) ==> t >= 0,
{
    if ix.listings@.contains_key(id.0) {
        let ls = ix.listings@[id.0];
        crate::client::lemma_fill_bounds(ls.sells@, quantity);
    }
}

proof fn lemma_fixed_prices_nonneg(ix: Index, id: ItemId)
    requires
        ix.wf(),
    ensures
        vendor_price(id.0) matches Some(p) ==> p > 0,
        special_price(ix, id) matches Ok(Some(p)) ==> p >= 0,
{
    if ix.listings@.contains_key(QUARTZ_CRYSTAL) {
        crate::client::lemma_fill_bounds(
            ix.listings@[QUARTZ_CRYSTAL].sells@,
            QUARTZ_PER_CHARGE as int,
        );
    }
}

proof fn lemma_resolve_wf(
    ix: Index,
    id: ItemId,
    quantity: int,
    ledger: Map<i32, i32>,
    ancestors: Seq<i32>,
)
    requires
        ix.wf(),
        0 <= quantity <= i32::MAX,
    ensures
        resolve_spec(ix, id, quantity, ledger, ancestors).0 matches Ok(c) ==> cost_wf(c)
            && c.quantity == quantity && c.id == id,
    decreases budget(ix, ancestors), 2nat, 0nat,
{
    if ledger.contains_key(id.0) && ledger[id.0] > 0 {
        let count = ledger[id.0];
        let used = if quantity < count {
            quantity
        } else {
            count as int
        };
        let drawn = ledger.insert(id.0, (count - used) as i32);
        if used != quantity {
            lemma_acquire_wf(ix, id, quantity - used, drawn, ancestors);
        }
    } else {
        lemma_acquire_wf(ix, id, quantity, ledger, ancestors);
    }
}

proof fn lemma_acquire_wf(
    ix: Index,
    id: ItemId,
    quantity: int,
    ledger: Map<i32, i32>,
    ancestors: Seq<i32>,
)
    requires
        ix.wf(),
        0 <= quantity <= i32::MAX,
    ensures
        acquire_spec(ix, id, quantity, ledger, ancestors).0 matches Ok(c) ==> cost_wf(c)
            && c.quantity == quantity && c.id == id,
    decreases budget(ix, ancestors), 1nat, 0nat,
{
    lemma_fixed_prices_nonneg(ix, id);
    lemma_market_nonneg(ix, id, quantity);
    if let Some(p) = vendor_price(id.0) {
        assert(quantity * p >= 0) by (nonlinear_arith)
            requires
                quantity >= 0,
                p > 0,
        ;
    } else if let Ok(Some(p)) = special_price(ix, id) {
        assert(quantity * p >= 0) by (nonlinear_arith)
            requires
                quantity >= 0,
                p >= 0,
        ;
    } else if special_price(ix, id) is Err {
    } else if ix.recipes_by_item@.contains_key(id.0) && !ancestors.contains(id.0) {
        lemma_budget_shrinks(ix, ancestors, id.0);
        lemma_craft_wf(ix, id, quantity, ledger, ancestors.push(id.0));
    }
}

proof fn lemma_craft_wf(
    ix: Index,
    id: ItemId,
    quantity: int,
    ledger: Map<i32, i32>,
    ancestors: Seq<i32>,
)
    requires
        ix.wf(),
        0 <= quantity <= i32::MAX,
        ix.recipes_by_item@.contains_key(id.0),
    ensures
        craft_spec(ix, id, quantity, ledger, ancestors).0 matches Ok(c) ==> cost_wf(c)
            && c.quantity == quantity && c.id == id,
    decreases budget(ix, ancestors), 4nat, 0nat,
{
    let recipe = ix.recipes_by_item@[id.0];
    let ings = recipe.ingredients@;
    assert(recipe_wf(recipe));
    let per_run = recipe.output_item_count as int;
    let runs = runs_for(quantity, per_run);
    assert(runs >= 0) by (nonlinear_arith)
        requires
            runs == (if quantity % per_run == 0 {
                quantity / per_run
            } else {
                quantity / per_run + 1
            }),
            quantity >= 0,
            per_run > 0,
    ;
    lemma_ingredients_wf(ix, ings, ings.len() as int, runs, id, ledger, ancestors);
    lemma_ingredients_sum(ix, ings, ings.len() as int, runs, id, ledger, ancestors);
    lemma_market_nonneg(ix, id, quantity);
    let (r, _) = ingredients_spec(ix, ings, ings.len() as int, runs, id, ledger, ancestors);
    if let Ok((costs, total)) = r {
        let source = SourceModel::Recipe { id: recipe.id, ingredients: costs };
        assert(source_wf(source, quantity));
        let c = CostModel {
            id,
            source,
            quantity: quantity as i32,
            total: total as i32,
        };
        assert(cost_wf(c));
    }
}

proof fn lemma_ingredients_wf(
    ix: Index,
    ings: Seq<crate::client::Ingredient>,
    n: int,
    runs: int,
    parent: ItemId,
    ledger: Map<i32, i32>,
    ancestors: Seq<i32>,
)
    requires
        ix.wf(),
        runs >= 0,
        n <= ings.len(),
        forall|j: int| 0 <= j < ings.len() ==> #[trigger] ings[j].count >= 0,
    ensures
        ingredients_spec(ix, ings, n, runs, parent, ledger, ancestors).0 matches Ok((costs, total))
            ==> total >= 0 && costs_wf(costs, costs.len() as int),
    decreases budget(ix, ancestors), 3nat, n,
{
    if n > 0 {
        lemma_ingredients_wf(ix, ings, n - 1, runs, parent, ledger, ancestors);
        let (prev, mid) = ingredients_spec(ix, ings, n - 1, runs, parent, ledger, ancestors);
        if let Ok((costs, total)) = prev {
            let ing = ings[n - 1];
            let need = ing.count * runs;
            assert(need >= 0) by (nonlinear_arith)
                requires
                    need == ing.count * runs,
                    ing.count >= 0,
                    runs >= 0,
            ;
            if fits(need) {
                lemma_resolve_wf(ix, ing.item_id, need, mid, ancestors);
                let (r, after) = resolve_spec(ix, ing.item_id, need, mid, ancestors);
                if let Ok(c) = r {
                    lemma_costs_wf_push(costs, c, costs.len() as int);
                    assert(costs.push(c)[costs.len() as int] == c);
                }
            }
        }
    }
}

/// Every cost the resolver returns is well formed: no quantity or total is
/// negative, an inventory draw uses at most what was asked and names how the
/// remainder was obtained exactly when some remained, and the same holds of
/// every ingredient cost of a crafted item, all the way down.
pub proof fn lemma_resolved_costs_wf(ix: Index, id: ItemId, quantity: i32, ledger: Map<i32, i32>)
    requires
        ix.wf(),
        quantity >= 0,
    ensures
        resolve_spec(ix, id, quantity as int, ledger, Seq::empty()).0 matches Ok(c) ==> cost_wf(c)
            && c.quantity == quantity && c.id == id,
{
    lemma_resolve_wf(ix, id, quantity as int, ledger, Seq::empty());
}

proof fn lemma_ingredients_shape(
    ix: Index,
    ings: Seq<crate::client::Ingredient>,
    n: int,
    runs: int,
    parent: ItemId,
    ledger: Map<i32, i32>,
    ancestors: Seq<i32>,
)
    requires
        ix.wf(),
        runs >= 0,
        0 <= n <= ings.len(),
        forall|j: int| 0 <= j < ings.len() ==> #[trigger] ings[j].count >= 0,
    ensures
        ingredients_spec(ix, ings, n, runs, parent, ledger, ancestors).0 matches Ok((costs, _))
            ==> costs.len() == n && forall|i: int|
            0 <= i < n ==> (#[trigger] costs[i]).id == ings[i].item_id && costs[i].quantity
                == ings[i].count * runs,
    decreases n,
{
    if n > 0 {
        lemma_ingredients_shape(ix, ings, n - 1, runs, parent, ledger, ancestors);
        let (prev, mid) = ingredients_spec(ix, ings, n - 1, runs, parent, ledger, ancestors);
        if let Ok((costs, total)) = prev {
            let ing = ings[n - 1];
            let need = ing.count * runs;
            assert(need >= 0) by (nonlinear_arith)
                requires
                    need == ing.count * runs,
                    ing.count >= 0,
                    runs >= 0,
            ;
            if fits(need) {
                lemma_resolve_wf(ix, ing.item_id, need, mid, ancestors);
                let (r, _) = resolve_spec(ix, ing.item_id, need, mid, ancestors);
                if let Ok(c) = r {
                    let pushed = costs.push(c);
                    assert forall|i: int| 0 <= i < n implies (#[trigger] pushed[i]).id
                        == ings[i].item_id && pushed[i].quantity == ings[i].count * runs by {
                        if i < n - 1 {
                            assert(pushed[i] == costs[i]);
                        }
                    }
                }
            }
        }
    }
}

/// A crafted item lists one cost per ingredient of its recipe, in the
/// recipe's order, each for that ingredient's count times the runs needed to
/// cover the quantity asked.
pub proof fn lemma_crafted_shape(ix: Index, id: ItemId, quantity: i32, ledger: Map<i32, i32>)
    requires
        ix.wf(),
        quantity >= 0,
    ensures
        resolve_spec(ix, id, quantity as int, ledger, Seq::empty()).0 matches Ok(c)
            ==> c.source matches SourceModel::Recipe { ingredients, .. } ==> {
            let recipe = ix.recipes_by_item@[id.0];
            let runs = runs_for(quantity as int, recipe.output_item_count as int);
            &&& ix.recipes_by_item@.contains_key(id.0)
            &&& ingredients.len() == recipe.ingredients@.len()
            &&& forall|i: int|
                0 <= i < ingredients.len() ==> (#[trigger] ingredients[i]).id
                    == recipe.ingredients@[i].item_id && ingredients[i].quantity
                    == recipe.ingredients@[i].count * runs
        },
{
    let q = quantity as int;
    if ix.recipes_by_item@.contains_key(id.0) {
        let recipe = ix.recipes_by_item@[id.0];
        let ings = recipe.ingredients@;
        assert(recipe_wf(recipe));
        let per_run = recipe.output_item_count as int;
        let runs = runs_for(q, per_run);
        assert(runs >= 0) by (nonlinear_arith)
            requires
                runs == (if q % per_run == 0 {
                    q / per_run
                } else {
                    q / per_run + 1
                }),
                q >= 0,
                per_run > 0,
        ;
        let anc = Seq::<i32>::empty().push(id.0);
        lemma_ingredients_shape(ix, ings, ings.len() as int, runs, id, ledger, anc);
    }
}

/// Drawing on the inventory: when at least `quantity` units of `id` are
/// owned, resolving them costs nothing, is sourced from the inventory with
/// nothing left over, and takes exactly `quantity` units out of the ledger.
pub proof fn lemma_covered_by_inventory(
    ix: Index,
    id: ItemId,
    quantity: i32,
    ledger: Map<i32, i32>,
)
    requires
        ledger.contains_key(id.0),
        ledger[id.0] > 0,
        0 <= quantity <= ledger[id.0],
    ensures
        resolve_spec(ix, id, quantity as int, ledger, Seq::empty()) == (
            Ok::<CostModel, Failed>(
                CostModel {
                    id,
                    source: SourceModel::Bank { used: quantity, rest: None },
                    quantity,
                    total: 0,
                },
            ),
            ledger.insert(id.0, (ledger[id.0] - quantity) as i32),
        ),
{
}

/// Rollback: when the market sells `quantity` units of an item for strictly
/// less than crafting them from its recipe would cost, the item is bought
/// on the market at that price and the ledger is left exactly as it was,
/// whatever pricing the ingredients drew from it.
pub proof fn lemma_market_beats_craft(ix: Index, id: ItemId, quantity: i32, ledger: Map<i32, i32>)
    requires
        quantity >= 0,
        goes_to_recipe(ix, id, ledger),
        crafted(ix, id, quantity as int, ledger) matches Ok((_, craft_total)) && market(
            ix,
            id,
            quantity as int,
        ) matches Some(m) && m < craft_total,
    ensures
        resolve_spec(ix, id, quantity as int, ledger, Seq::empty()) == (
            Ok::<CostModel, Failed>(
                CostModel {
                    id,
                    source: SourceModel::Auction,
                    quantity,
                    total: market(ix, id, quantity as int)->0,
                },
            ),
            ledger,
        ),
{
    assert(Seq::<i32>::empty().push(id.0) == seq![id.0]);
}

/// Crafting wins: when crafting `quantity` units of an item from its recipe
/// costs strictly less than the market asks, the item is crafted, and the
/// totals of its ingredients add up exactly to the reported total.
pub proof fn lemma_craft_beats_market(ix: Index, id: ItemId, quantity: i32, ledger: Map<i32, i32>)
    requires
        quantity >= 0,
        goes_to_recipe(ix, id, ledger),
        crafted(ix, id, quantity as int, ledger) matches Ok((_, craft_total)) && market(
            ix,
            id,
            quantity as int,
        ) matches Some(m) && craft_total < m,
    ensures
        resolve_spec(ix, id, quantity as int, ledger, Seq::empty()).0 matches Ok(c) && c.source matches SourceModel::Recipe { id: rid, ingredients }
            && rid == ix.recipes_by_item@[id.0].id && c.total == sum_totals(ingredients)
            && c.total == crafted(ix, id, quantity as int, ledger)->Ok_0.1,
{
    assert(Seq::<i32>::empty().push(id.0) == seq![id.0]);
    let recipe = ix.recipes_by_item@[id.0];
    let ings = recipe.ingredients@;
    lemma_ingredients_sum(
        ix,
        ings,
        ings.len() as int,
        runs_for(quantity as int, recipe.output_item_count as int),
        id,
        ledger,
        seq![id.0],
    );
}

impl Cost {
    /// Resolves the cheapest way to obtain `quantity` units of `id` with an
    /// empty inventory.
    pub fn new(index: &Index, id: &ItemId, quantity: i32) -> (r: Result<Cost, Failed>)
        requires
            index.wf(),
            quantity >= 0,
        ensures
            result_view(r) == resolve_spec(
                *index,
                *id,
                quantity as int,
                Map::empty(),
                Seq::empty(),
            ).0,
    {
        let mut bank: HashMap<i32, i32> = HashMap::new();
        Cost::new_with_bank(index, id, quantity, &mut bank)
    }

    /// Resolves the cheapest way to obtain `quantity` units of `id`, drawing
    /// first on the owned quantities in `bank` and taking out of it what is
    /// used.
    pub fn new_with_bank(
        index: &Index,
        id: &ItemId,
        quantity: i32,
        bank: &mut HashMap<i32, i32>,
    ) -> (r: Result<Cost, Failed>)
        requires
            index.wf(),
            quantity >= 0,
        ensures
            (result_view(r), final(bank)@) == resolve_spec(
                *index,
                *id,
                quantity as int,
                old(bank)@,
                Seq::empty(),
            ),
    {
        let ancestors: Vec<i32> = Vec::new();
        resolve(index, *id, quantity, bank, &ancestors)
    }
}

/// Adds to `acc` the leaf quantities of a cost tree: a recipe contributes
/// the leaves of each ingredient in order, an inventory draw contributes
/// the units drawn and then the leaves of the remainder, and every other
/// source contributes its whole quantity. `None` when a count overflows.
pub open spec fn gather(acc: TallyModel, id: ItemId, source: SourceModel, quantity: int) -> Option<
    TallyModel,
>
    decreases source, 0int,
{
    match source {
        SourceModel::Recipe { ingredients, .. } => gather_all(
            acc,
            ingredients,
            ingredients.len() as int,
        ),
        SourceModel::Bank { used, rest: Some(r) } => match add_need(acc, id.0, used as int) {
            Some(a) => if fits(quantity - used) {
                gather(a, id, *r, quantity - used)
            } else {
                None
            },
            None => None,
        },
        _ => add_need(acc, id.0, quantity),
    }
}

/// [`gather`] over the first `n` of `costs`, in order.
pub open spec fn gather_all(acc: TallyModel, costs: Seq<CostModel>, n: int) -> Option<TallyModel>
    decreases costs, n,
{
    if n <= 0 || n > costs.len() {
        Some(acc)
    } else {
        match gather_all(acc, costs, n - 1) {
            Some(a) => {
                let c = costs[n - 1];
                gather(a, c.id, c.source, c.quantity as int)
            },
            None => None,
        }
    }
}

/// The view of a list of costs is the view of each cost.
pub proof fn lemma_costs_view_index(s: Seq<Cost>)
    ensures
        costs_view(s).len() == s.len(),
        forall|i: int| 0 <= i < s.len() ==> #[trigger] costs_view(s)[i] == cost_view(s[i]),
    decreases s.len(),
{
    if s.len() > 0 {
        let init = s.subrange(0, s.len() - 1);
        lemma_costs_view_index(init);
        assert forall|i: int| 0 <= i < s.len() implies #[trigger] costs_view(s)[i] == cost_view(
            s[i],
        ) by {
            if i < s.len() - 1 {
                assert(init[i] == s[i]);
            }
        }
    }
}

fn base_ingredients_aux(id: ItemId, source: &Source, quantity: i32, out: &mut Tally) -> (r: bool)
    ensures
        r == gather(old(out)@, id, source_view(*source), quantity as int) is Some,
        r ==> final(out)@ == gather(old(out)@, id, source_view(*source), quantity as int)->0,
    decreases source,
{
    match source {
        Source::Recipe { ingredients, .. } => {
            let ghost seq = costs_view(ingredients@);
            proof {
                lemma_costs_view_index(ingredients@);
            }
            let mut i: usize = 0;
            while i < ingredients.len()
                invariant
                    i <= ingredients.len(),
                    seq == costs_view(ingredients@),
                    seq.len() == ingredients@.len(),
                    forall|j: int|
                        0 <= j < ingredients@.len() ==> #[trigger] seq[j] == cost_view(
                            ingredients@[j],
                        ),
                    *source == (Source::Recipe { id: source->Recipe_id, ingredients: *ingredients }),
                    gather_all(old(out)@, seq, i as int) == Some(out@),
                decreases ingredients.len() - i,
            {
                let c = &ingredients[i];
                proof {
                    assert(decreases_to!(ingredients => ingredients@));
                    assert(decreases_to!(ingredients@ => ingredients@[i as int]));
                }
                let ok = base_ingredients_aux(c.id, &c.source, c.quantity, out);
                if !ok {
                    proof {
                        lemma_gather_none_stays(old(out)@, seq, i as int + 1, seq.len() as int);
                    }
                    return false;
                }
                i = i + 1;
            }
            true
        },
        Source::Bank { used, rest: Some(r) } => {
            if !out.add(id.0, *used) {
                return false;
            }
            match quantity.checked_sub(*used) {
                Some(left) => base_ingredients_aux(id, r, left, out),
                None => false,
            }
        },
        _ => out.add(id.0, quantity),
    }
}

proof fn lemma_gather_none_stays(acc: TallyModel, costs: Seq<CostModel>, i: int, n: int)
    requires
        0 < i <= n <= costs.len(),
        gather_all(acc, costs, i) is None,
    ensures
        gather_all(acc, costs, n) is None,
    decreases n - i,
{
    if i < n {
        lemma_gather_none_stays(acc, costs, i, n - 1);
    }
}

impl Cost {
    /// The quantity of each leaf item that the cost tree accounts for: the
    /// whole quantity of every purchased or unpriced leaf, and the units
    /// drawn from the inventory. Fails with `Overflow` when a count does
    /// not fit in an `i32`.
    pub fn base_ingredients(&self) -> (r: Result<HashMap<i32, i32>, Failed>)
        ensures
            r matches Ok(m) ==> gather(no_counts(), self.id, self@.source, self.quantity as int)
                matches Some(g) && m@ == g.0,
            r is Err <==> gather(no_counts(), self.id, self@.source, self.quantity as int) is None,
            r matches Err(e) ==> e == Failed(Failure::Overflow { item: self.id }),
    {
        match self.leaves() {
            Some(t) => Ok(t.counts),
            None => Err(Failed(Failure::Overflow { item: self.id })),
        }
    }

    /// [`Cost::base_ingredients`] with the items in the order the tree
    /// first reaches them; `None` when a count overflows.
    pub fn leaves(&self) -> (r: Option<Tally>)
        ensures
            r matches Some(t) ==> gather(no_counts(), self.id, self@.source, self.quantity as int)
                == Some(t@),
            r is None <==> gather(no_counts(), self.id, self@.source, self.quantity as int) is None,
    {
        let mut out = Tally::new();
        if base_ingredients_aux(self.id, &self.source, self.quantity, &mut out) {
            Some(out)
        } else {
            None
        }
    }
}

/// Short label of a source, as shown after a priced line.
pub open spec fn source_label(s: SourceModel) -> Seq<char>
    decreases s,
{
    match s {
        SourceModel::Unknown => " [UNKNOWN]"@,
        SourceModel::Special => " [SPECIAL]"@,
        SourceModel::Vendor => " [VENDOR]"@,
        SourceModel::Bank { used, rest: Some(r) } => " ["@ + decimal(used as int) + " BANK +"@
            + source_label(*r) + "]"@,
        _ => Seq::empty(),
    }
}

impl Source {
    /// Short label of the source: the fixed-price and unknown kinds, and
    /// inventory draws with the label of what covered the remainder.
    pub fn to_str(&self) -> (r: String)
        ensures
            r@ == source_label(source_view(*self)),
        decreases self,
    {
        proof {
            reveal_strlit(" [UNKNOWN]");
            reveal_strlit(" [SPECIAL]");
            reveal_strlit(" [VENDOR]");
            reveal_strlit(" [");
            reveal_strlit(" BANK +");
            reveal_strlit("]");
        }
        match self {
            Source::Unknown => String::from_str(" [UNKNOWN]"),
            Source::Special => String::from_str(" [SPECIAL]"),
            Source::Vendor => String::from_str(" [VENDOR]"),
            Source::Bank { used, rest: Some(rest) } => {
                let mut out = String::from_str(" [");
                push_decimal(&mut out, *used as i64);
                out.append(" BANK +");
                let inner = rest.to_str();
                out.append(inner.as_str());
                out.append("]");
                out
            },
            _ => String::new(),
        }
    }
}

} // verus!
