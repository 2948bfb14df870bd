//! Profit ranking: which recipes are worth crafting and reselling.
use vstd::prelude::*;
use vstd::std_specs::iter::IteratorSpec;

use std::collections::HashMap;

use crate::client::{ItemId, RecipeId, matched};
use crate::cost::{
    Cost,
    CostModel,
    Source,
    SourceModel,
    cost_view,
    costs_view,
    fits,
    lemma_costs_view_index,
    resolve_spec,
    source_view,
};
use crate::index::{Index, recipe_wf};
use crate::tally::{Tally, TallyModel, add_need, no_counts};
use crate::text::{contains_text, has_text, same_text};

verus! {

/// Items that can only be made a limited number of times per day.
pub open spec fn daily_item(id: i32) -> bool {
    id == 43772  // Charged Quartz Crystal
     || id == 46744  // Glob of Elder Spirit Residue
     || id == 46742  // Lump of Mithrillium
     || id == 46740  // Spool of Silk Weaving Thread
     || id == 46745  // Spool of Thick Elonian Cord
}

/// Whether `id` is limited to a few crafts per day.
pub fn is_daily(id: &ItemId) -> (r: bool)
    ensures
        r == daily_item(id.0),
{
    match id.0 {
        43772 => true,
        46744 => true,
        46742 => true,
        46740 => true,
        46745 => true,
        _ => false,
    }
}

/// Adds to `acc` the quantity of every daily item that the tree crafts or
/// buys, not looking inside a daily item. `None` when a count overflows.
pub open spec fn days_gather(acc: TallyModel, c: CostModel) -> Option<TallyModel>
    decreases c, 0int,
{
    if daily_item(c.id.0) {
        add_need(acc, c.id.0, c.quantity as int)
    } else {
        match c.source {
            SourceModel::Recipe { ingredients, .. } => days_all(
                acc,
                ingredients,
                ingredients.len() as int,
            ),
            _ => Some(acc),
        }
    }
}

/// [`days_gather`] over the first `n` of `costs`, in order.
pub open spec fn days_all(acc: TallyModel, costs: Seq<CostModel>, n: int) -> Option<TallyModel>
    decreases costs, n,
{
    if n <= 0 || n > costs.len() {
        Some(acc)
    } else {
        match days_all(acc, costs, n - 1) {
            Some(a) => days_gather(a, costs[n - 1]),
            None => None,
        }
    }
}

/// Adds to `acc` the units that each inventory draw in the tree took.
/// `None` when a count overflows.
pub open spec fn used_gather(acc: TallyModel, id: ItemId, source: SourceModel) -> Option<
    TallyModel,
>
    decreases source, 0int,
{
    match source {
        SourceModel::Bank { used, rest } => match add_need(acc, id.0, used as int) {
            Some(a) => match rest {
                Some(r) => used_gather(a, id, *r),
                None => Some(a),
            },
            None => None,
        },
        SourceModel::Recipe { ingredients, .. } => used_all(
            acc,
            ingredients,
            ingredients.len() as int,
        ),
        _ => Some(acc),
    }
}

/// [`used_gather`] over the first `n` of `costs`, in order.
pub open spec fn used_all(acc: TallyModel, costs: Seq<CostModel>, n: int) -> Option<TallyModel>
    decreases costs, n,
{
    if n <= 0 || n > costs.len() {
        Some(acc)
    } else {
        match used_all(acc, costs, n - 1) {
            Some(a) => used_gather(a, costs[n - 1].id, costs[n - 1].source),
            None => None,
        }
    }
}

proof fn lemma_days_none_stays(acc: TallyModel, costs: Seq<CostModel>, i: int, n: int)
    requires
        0 < i <= n <= costs.len(),
        days_all(acc, costs, i) is None,
    ensures
        days_all(acc, costs, n) is None,
    decreases n - i,
{
    if i < n {
        lemma_days_none_stays(acc, costs, i, n - 1);
    }
}

proof fn lemma_used_none_stays(acc: TallyModel, costs: Seq<CostModel>, i: int, n: int)
    requires
        0 < i <= n <= costs.len(),
        used_all(acc, costs, i) is None,
    ensures
        used_all(acc, costs, n) is None,
    decreases n - i,
{
    if i < n {
        lemma_used_none_stays(acc, costs, i, n - 1);
    }
}

fn days_aux(c: &Cost, out: &mut Tally) -> (r: bool)
    ensures
        r == days_gather(old(out)@, cost_view(*c)) is Some,
        r ==> final(out)@ == days_gather(old(out)@, cost_view(*c))->0,
    decreases c,
{
    if is_daily(&c.id) {
        return out.add(c.id.0, c.quantity);
    }
    match &c.source {
        Source::Recipe { ingredients, .. } => {
            let ghost seq = costs_view(ingredients@);
            proof {
                lemma_costs_view_index(ingredients@);
            }
            let mut i: usize = 0;
            while i < ingredients.len()
                invariant
                    i <= ingredients.len(),
                    seq == costs_view(ingredients@),
                    seq.len() == ingredients@.len(),
                    forall|j: int|
                        0 <= j < ingredients@.len() ==> #[trigger] seq[j] == cost_view(
                            ingredients@[j],
                        ),
                    c.source == (Source::Recipe {
                        id: c.source->Recipe_id,
                        ingredients: *ingredients,
                    }),
                    !daily_item(c.id.0),
                    days_all(old(out)@, seq, i as int) == Some(out@),
                decreases ingredients.len() - i,
            {
                proof {
                    assert(decreases_to!(ingredients => ingredients@));
                    assert(decreases_to!(ingredients@ => ingredients@[i as int]));
                }
                if !days_aux(&ingredients[i], out) {
                    proof {
                        lemma_days_none_stays(old(out)@, seq, i as int + 1, seq.len() as int);
                    }
                    return false;
                }
                i = i + 1;
            }
            true
        },
        _ => true,
    }
}

/// Quantity of each daily-limited item that the tree calls for, with the
/// items in the order the tree first reaches them; `None` when a count
/// overflows.
pub fn days(cost: &Cost) -> (r: Option<Tally>)
    ensures
        r matches Some(t) ==> days_gather(no_counts(), cost@) == Some(t@),
        r is None <==> days_gather(no_counts(), cost@) is None,
{
    let mut out = Tally::new();
    if days_aux(cost, &mut out) {
        Some(out)
    } else {
        None
    }
}

fn bank_used_aux(id: ItemId, s: &Source, out: &mut Tally) -> (r: bool)
    ensures
        r == used_gather(old(out)@, id, source_view(*s)) is Some,
        r ==> final(out)@ == used_gather(old(out)@, id, source_view(*s))->0,
    decreases s,
{
    match s {
        Source::Bank { used, rest } => {
            if !out.add(id.0, *used) {
                return false;
            }
            match rest {
                Some(r) => bank_used_aux(id, r, out),
                None => true,
            }
        },
        Source::Recipe { ingredients, .. } => {
            let ghost seq = costs_view(ingredients@);
            proof {
                lemma_costs_view_index(ingredients@);
            }
            let mut i: usize = 0;
            while i < ingredients.len()
                invariant
                    i <= ingredients.len(),
                    seq == costs_view(ingredients@),
                    seq.len() == ingredients@.len(),
                    forall|j: int|
                        0 <= j < ingredients@.len() ==> #[trigger] seq[j] == cost_view(
                            ingredients@[j],
                        ),
                    *s == (Source::Recipe { id: s->Recipe_id, ingredients: *ingredients }),
                    used_all(old(out)@, seq, i as int) == Some(out@),
                decreases ingredients.len() - i,
            {
                let c = &ingredients[i];
                proof {
                    assert(decreases_to!(ingredients => ingredients@));
                    assert(decreases_to!(ingredients@ => ingredients@[i as int]));
                }
                if !bank_used_aux(c.id, &c.source, out) {
                    proof {
                        lemma_used_none_stays(old(out)@, seq, i as int + 1, seq.len() as int);
                    }
                    return false;
                }
                i = i + 1;
            }
            true
        },
        _ => true,
    }
}

/// Units of each item drawn from the inventory anywhere in the tree, with
/// the items in the order the tree first reaches them; `None` when a count
/// overflows.
pub fn bank_used(c: &Cost) -> (r: Option<Tally>)
    ensures
        r matches Some(t) ==> used_gather(no_counts(), c.id, c@.source) == Some(t@),
        r is None <==> used_gather(no_counts(), c.id, c@.source) is None,
{
    let mut out = Tally::new();
    if bank_used_aux(c.id, &c.source, &mut out) {
        Some(out)
    } else {
        None
    }
}

/// Count of `k` in `counts`, zero when none is recorded.
pub open spec fn owned(materials: Map<i32, i32>, k: i32) -> int {
    if materials.contains_key(k) {
        materials[k] as int
    } else {
        0
    }
}

/// What is left to buy of the first `n` items of `leaves` once the owned
/// quantities in `materials` are used.
pub open spec fn shop_all(leaves: TallyModel, materials: Map<i32, i32>, n: int) -> Map<i32, i32>
    decreases n,
{
    if n <= 0 || n > leaves.1.len() {
        Map::empty()
    } else {
        let prev = shop_all(leaves, materials, n - 1);
        let k = leaves.1[n - 1];
        let need = owned(leaves.0, k);
        if owned(materials, k) < need {
            prev.insert(k, (need - owned(materials, k)) as i32)
        } else {
            prev
        }
    }
}

/// The shopping list of a cost tree: for each leaf item, the quantity still
/// to buy after the owned materials of the index are used. `None` when a
/// count of the tree overflows.
pub fn shopping_ingredients(index: &Index, cost: &Cost) -> (r: Option<HashMap<i32, i32>>)
    requires
        index.wf(),
    ensures
        r is None <==> crate::cost::gather(no_counts(), cost.id, cost@.source, cost.quantity as int)
            is None,
        r matches Some(m) ==> crate::cost::gather(
            no_counts(),
            cost.id,
            cost@.source,
            cost.quantity as int,
        ) matches Some(leaves) && m@ == shop_all(leaves, index.materials@, leaves.1.len() as int),
{
    let leaves = match cost.leaves() {
        Some(t) => t,
        None => {
            return None;
        },
    };
    let mut out: HashMap<i32, i32> = HashMap::new();
    let mut i: usize = 0;
    while i < leaves.order.len()
        invariant
            index.wf(),
            i <= leaves.order.len(),
            out@ == shop_all(leaves@, index.materials@, i as int),
        decreases leaves.order.len() - i,
    {
        let k = leaves.order[i];
        let need: i32 = match leaves.counts.get(&k) {
            Some(c) => *c,
            None => 0,
        };
        let has: i32 = match index.materials.get(&k) {
            Some(h) => *h,
            None => 0,
        };
        if has < need {
            out.insert(k, need - has);
        }
        i = i + 1;
    }
    Some(out)
}

/// A recipe worth crafting: what its output sells for, what crafting one
/// batch costs, and the surplus.
#[derive(Debug)]
pub struct Profit {
    pub id: RecipeId,
    /// Days needed for the daily-limited ingredients, one batch per day.
    pub days: i32,
    /// Net proceeds of selling one batch of the output.
    pub sale: i32,
    /// Surplus of `sale` over everything the batch costs.
    pub value: i32,
    /// The daily-limited items the batch needs.
    pub daily: Vec<i32>,
    pub cost: Cost,
    /// Resale value of the owned materials the batch uses up, when they
    /// are counted against it.
    pub mats_profit: Option<i32>,
}

/// Mathematical form of a [`Profit`].
pub struct ProfitModel {
    pub id: RecipeId,
    pub days: i32,
    pub sale: i32,
    pub value: i32,
    pub daily: Seq<i32>,
    pub cost: CostModel,
    pub mats_profit: Option<i32>,
}

impl View for Profit {
    type V = ProfitModel;

    open spec fn view(&self) -> ProfitModel {
        ProfitModel {
            id: self.id,
            days: self.days,
            sale: self.sale,
            value: self.value,
            daily: self.daily@,
            cost: self.cost@,
            mats_profit: self.mats_profit,
        }
    }
}

/// Surplus per day, rounded down: `value` spread over `days`, and over one
/// day when `days` is below one.
pub open spec fn rate(value: int, days: int) -> int {
    value / if days > 1 {
        days
    } else {
        1
    }
}

impl Profit {
    /// Surplus per day of crafting, rounded down.
    pub fn per_day(&self) -> (r: i32)
        ensures
            r == rate(self.value as int, self.days as int),
    {
        let d: i32 = if self.days > 1 {
            self.days
        } else {
            1
        };
        floor_div(self.value, d)
    }
}

/// `a / b` rounded down.
fn floor_div(a: i32, b: i32) -> (q: i32)
    requires
        b > 0,
    ensures
        q == a as int / b as int,
{
    if a >= 0 {
        a / b
    } else {
        let n: i64 = -(a as i64);
        let c: i64 = (n + b as i64 - 1) / (b as i64);
        let ghost ai = a as int;
        let ghost bi = b as int;
        let ghost ci = c as int;
        assert(ai / bi == -ci && ai <= ai / bi < 0) by (nonlinear_arith)
            requires
                ci == (-ai + bi - 1) / bi,
                bi > 0,
                ai < 0,
        ;
        let q: i64 = -c;
        q as i32
    }
}

/// The largest count in the first `n` items of a tally; zero when none.
pub open spec fn max_count(t: TallyModel, n: int) -> int
    decreases n,
{
    if n <= 0 || n > t.1.len() {
        0
    } else {
        let prev = max_count(t, n - 1);
        let c = owned(t.0, t.1[n - 1]);
        if c > prev {
            c
        } else {
            prev
        }
    }
}

/// The largest count of a tally; zero when it is empty.
fn most(t: &Tally) -> (r: i32)
    ensures
        r == max_count(t@, t@.1.len() as int),
{
    let mut best: i32 = 0;
    let mut i: usize = 0;
    while i < t.order.len()
        invariant
            i <= t.order.len(),
            best == max_count(t@, i as int),
        decreases t.order.len() - i,
    {
        let c: i32 = match t.counts.get(&t.order[i]) {
            Some(c) => *c,
            None => 0,
        };
        if c > best {
            best = c;
        }
        i = i + 1;
    }
    best
}

/// What the first `n` items of `used` fetch when sold into their buy
/// offers: an item without a book, or whose offers cannot take its count,
/// adds nothing. `None` when the sum overflows.
pub open spec fn resale(ix: Index, used: TallyModel, n: int) -> Option<int>
    decreases n,
{
    if n <= 0 || n > used.1.len() {
        Some(0)
    } else {
        match resale(ix, used, n - 1) {
            Some(u) => {
                let k = used.1[n - 1];
                let count = owned(used.0, k);
                let s = if ix.listings@.contains_key(k) && count >= 0 {
                    match matched(ix.listings@[k].id, ix.listings@[k].buys@, count) {
                        Ok(v) => v as int,
                        Err(_) => 0,
                    }
                } else {
                    0
                };
                if fits(u + s) {
                    Some(u + s)
                } else {
                    None
                }
            },
            None => None,
        }
    }
}

fn resale_value(index: &Index, used: &Tally) -> (r: Option<i32>)
    requires
        index.wf(),
    ensures
        r matches Some(v) ==> resale(*index, used@, used@.1.len() as int) == Some(v as int),
        r is None <==> resale(*index, used@, used@.1.len() as int) is None,
{
    let mut total: i32 = 0;
    let mut i: usize = 0;
    while i < used.order.len()
        invariant
            index.wf(),
            i <= used.order.len(),
            resale(*index, used@, i as int) == Some(total as int),
        decreases used.order.len() - i,
    {
        let k = used.order[i];
        let count: i32 = match used.counts.get(&k) {
            Some(c) => *c,
            None => 0,
        };
        let mut s: i32 = 0;
        if count >= 0 {
            if let Some(ls) = index.listings.get(&k) {
                if let Ok(v) = ls.sale(count) {
                    s = v;
                }
            }
        }
        match total.checked_add(s) {
            Some(t) => {
                total = t;
            },
            None => {
                proof {
                    lemma_resale_none_stays(*index, used@, i as int + 1, used@.1.len() as int);
                }
                return None;
            },
        }
        i = i + 1;
    }
    Some(total)
}

proof fn lemma_resale_none_stays(ix: Index, used: TallyModel, i: int, n: int)
    requires
        0 < i <= n <= used.1.len(),
        resale(ix, used, i) is None,
    ensures
        resale(ix, used, n) is None,
    decreases n - i,
{
    if i < n {
        lemma_resale_none_stays(ix, used, i, n - 1);
    }
}

/// The profit of crafting one batch of `recipe` from scratch and selling
/// it for `sale`: none when its output cannot be priced, is cheaper to buy
/// than to craft, or does not sell for more than it costs.
pub open spec fn flip_spec(ix: Index, recipe: crate::client::Recipe, sale: int) -> Option<
    ProfitModel,
> {
    match resolve_spec(ix, recipe.output_item_id, 1, Map::empty(), Seq::empty()).0 {
        Ok(c) => {
            if c.source is Auction {
                None
            } else {
                match days_gather(no_counts(), c) {
                    Some(d) => if sale > c.total && fits(sale - c.total) {
                        Some(
                            ProfitModel {
                                id: recipe.id,
                                days: max_count(d, d.1.len() as int) as i32,
                                sale: sale as i32,
                                value: (sale - c.total) as i32,
                                daily: d.1,
                                cost: c,
                                mats_profit: None,
                            },
                        )
                    } else {
                        None
                    },
                    None => None,
                }
            }
        },
        Err(_) => None,
    }
}

/// The profit of crafting one batch of `recipe` drawing on the owned
/// materials of the index, counting what those materials would have sold
/// for against it.
pub open spec fn bank_spec(ix: Index, recipe: crate::client::Recipe, sale: int) -> Option<
    ProfitModel,
> {
    match resolve_spec(ix, recipe.output_item_id, 1, ix.materials@, Seq::empty()).0 {
        Ok(c) => {
            if c.source is Auction {
                None
            } else {
                match (days_gather(no_counts(), c), used_gather(no_counts(), c.id, c.source)) {
                    (Some(d), Some(u)) => match resale(ix, u, u.1.len() as int) {
                        Some(mats) => {
                            let spent = c.total + mats;
                            if fits(spent) && sale > spent && fits(sale - spent) {
                                Some(
                                    ProfitModel {
                                        id: recipe.id,
                                        days: max_count(d, d.1.len() as int) as i32,
                                        sale: sale as i32,
                                        value: (sale - spent) as i32,
                                        daily: d.1,
                                        cost: c,
                                        mats_profit: Some(mats as i32),
                                    },
                                )
                            } else {
                                None
                            }
                        },
                        None => None,
                    },
                    _ => None,
                }
            }
        },
        Err(_) => None,
    }
}

/// Mathematical form of an optional profit.
pub open spec fn profit_view(p: Option<Profit>) -> Option<ProfitModel> {
    match p {
        Some(p) => Some(p@),
        None => None,
    }
}

/// Crafting one batch of `r` from scratch and selling it for `sale`.
pub fn flip_profit(index: &Index, r: &crate::client::Recipe, sale: i32) -> (p: Option<Profit>)
    requires
        index.wf(),
    ensures
        profit_view(p) == flip_spec(*index, *r, sale as int),
{
    let cost = match Cost::new(index, &r.output_item_id, 1) {
        Ok(c) => c,
        Err(_) => {
            return None;
        },
    };
    if let Source::Auction = cost.source {
        return None;
    }
    let daily = match days(&cost) {
        Some(d) => d,
        None => {
            return None;
        },
    };
    let days = most(&daily);
    if sale > cost.total {
        if let Some(value) = sale.checked_sub(cost.total) {
            return Some(
                Profit {
                    id: r.id,
                    days,
                    sale,
                    value,
                    daily: daily.order,
                    cost,
                    mats_profit: None,
                },
            );
        }
    }
    None
}

/// Crafting one batch of `r` drawing on the owned materials, and selling it
/// for `sale`; the resale value of the materials used counts as a cost.
pub fn bank_profit(index: &Index, r: &crate::client::Recipe, sale: i32) -> (p: Option<Profit>)
    requires
        index.wf(),
    ensures
        profit_view(p) == bank_spec(*index, *r, sale as int),
{
    let mut bank = index.materials.clone();
    let cost = match Cost::new_with_bank(index, &r.output_item_id, 1, &mut bank) {
        Ok(c) => c,
        Err(_) => {
            return None;
        },
    };
    if let Source::Auction = cost.source {
        return None;
    }
    let daily = match days(&cost) {
        Some(d) => d,
        None => {
            return None;
        },
    };
    let used = match bank_used(&cost) {
        Some(u) => u,
        None => {
            return None;
        },
    };
    let used_profit = match resale_value(index, &used) {
        Some(v) => v,
        None => {
            return None;
        },
    };
    let days = most(&daily);
    let spent = match cost.total.checked_add(used_profit) {
        Some(s) => s,
        None => {
            return None;
        },
    };
    if sale > spent {
        if let Some(value) = sale.checked_sub(spent) {
            return Some(
                Profit {
                    id: r.id,
                    days,
                    sale,
                    value,
                    daily: daily.order,
                    cost,
                    mats_profit: Some(used_profit),
                },
            );
        }
    }
    None
}

/// Net proceeds of a sale of `gross` once the 15% listing fee, rounded up,
/// is paid.
pub open spec fn net_of(gross: int) -> int {
    gross - (gross * 15 + 99) / 100
}

fn net_sale(gross: i32) -> (r: i32)
    requires
        gross >= 0,
    ensures
        r == net_of(gross as int),
        0 <= r <= gross,
{
    let fee: i64 = (gross as i64 * 15 + 99) / 100;
    assert(0 <= fee <= gross) by (nonlinear_arith)
        requires
            fee == (gross * 15 + 99) / 100,
            gross >= 0,
    ;
    (gross as i64 - fee) as i32
}

/// What one batch of `r` sells for, net of the fee, when it is worth
/// ranking: its output is a known item that is neither a component of a
/// legendary nor a guild catapult, and the buy offers take a whole batch.
pub open spec fn batch_sale(ix: Index, r: crate::client::Recipe) -> Option<int> {
    let out = r.output_item_id.0;
    if !ix.items@.contains_key(out) || !ix.listings@.contains_key(out) {
        None
    } else {
        let item = ix.items@[out];
        if (item.description matches Some(d) && has_text(d@, "used to craft the legendary"@))
            || item.name@ == "Guild Catapult"@ {
            None
        } else {
            let ls = ix.listings@[out];
            match matched(ls.id, ls.buys@, r.output_item_count as int) {
                Ok(g) => Some(net_of(g as int)),
                Err(_) => None,
            }
        }
    }
}

fn batch_sale_exec(index: &Index, r: &crate::client::Recipe) -> (s: Option<i32>)
    requires
        index.wf(),
        recipe_wf(*r),
    ensures
        s matches Some(v) ==> batch_sale(*index, *r) == Some(v as int),
        s is None <==> batch_sale(*index, *r) is None,
{
    let out = r.output_item_id.0;
    let item = match index.items.get(&out) {
        Some(i) => i,
        None => {
            return None;
        },
    };
    let ls = match index.listings.get(&out) {
        Some(l) => l,
        None => {
            return None;
        },
    };
    proof {
        reveal_strlit("used to craft the legendary");
        reveal_strlit("Guild Catapult");
    }
    let legendary = match &item.description {
        Some(d) => contains_text(d.as_str(), "used to craft the legendary"),
        None => false,
    };
    if legendary || same_text(item.name.as_str(), "Guild Catapult") {
        return None;
    }
    match ls.sale(r.output_item_count) {
        Ok(g) => Some(net_sale(g)),
        Err(_) => None,
    }
}

/// Per-day surplus of a profit.
pub open spec fn rate_of(p: ProfitModel) -> int {
    rate(p.value as int, p.days as int)
}

/// Where a profit of per-day surplus `x` goes in `s`: after every entry
/// that earns at least as much per day, up to the first that earns less.
pub open spec fn rank_pos(s: Seq<ProfitModel>, x: int) -> int
    decreases s.len(),
{
    if s.len() == 0 || rate_of(s[0]) < x {
        0
    } else {
        1 + rank_pos(s.drop_first(), x)
    }
}

/// `s` with `p` inserted at its rank.
pub open spec fn rank_in(s: Seq<ProfitModel>, p: ProfitModel) -> Seq<ProfitModel> {
    s.insert(rank_pos(s, rate_of(p)), p)
}

/// Mathematical form of each profit of `v`.
pub open spec fn profits_view(v: Seq<Profit>) -> Seq<ProfitModel> {
    v.map_values(|p: Profit| p@)
}

/// The flip profits of the first `n` recipes of `order`, ranked by
/// per-day surplus, best first, earlier recipes first among equals.
pub open spec fn flips_of(ix: Index, order: Seq<crate::client::Recipe>, n: int) -> Seq<ProfitModel>
    decreases n,
{
    if n <= 0 || n > order.len() {
        Seq::empty()
    } else {
        let prev = flips_of(ix, order, n - 1);
        match batch_sale(ix, order[n - 1]) {
            Some(s) => match flip_spec(ix, order[n - 1], s) {
                Some(p) => rank_in(prev, p),
                None => prev,
            },
            None => prev,
        }
    }
}

/// The bank profits of the first `n` recipes of `order`, ranked as in
/// [`flips_of`].
pub open spec fn banks_of(ix: Index, order: Seq<crate::client::Recipe>, n: int) -> Seq<ProfitModel>
    decreases n,
{
    if n <= 0 || n > order.len() {
        Seq::empty()
    } else {
        let prev = banks_of(ix, order, n - 1);
        match batch_sale(ix, order[n - 1]) {
            Some(s) => match bank_spec(ix, order[n - 1], s) {
                Some(p) => rank_in(prev, p),
                None => prev,
            },
            None => prev,
        }
    }
}

/// Inserts `p` into `v` at its rank.
fn insert_ranked(v: &mut Vec<Profit>, p: Profit)
    ensures
        profits_view(final(v)@) == rank_in(profits_view(old(v)@), p@),
{
    let x = p.per_day();
    let ghost s = profits_view(v@);
    let mut j: usize = 0;
    proof {
        assert(s.subrange(0, s.len() as int) == s);
    }
    while j < v.len() && v[j].per_day() >= x
        invariant
            j <= v.len(),
            s == profits_view(v@),
            x == rate_of(p@),
            rank_pos(s, x as int) == j + rank_pos(s.subrange(j as int, s.len() as int), x as int),
        decreases v.len() - j,
    {
        proof {
            let rest = s.subrange(j as int, s.len() as int);
            assert(rest[0] == v@[j as int]@);
            assert(rest.drop_first() == s.subrange(j + 1, s.len() as int));
        }
        j = j + 1;
    }
    proof {
        let rest = s.subrange(j as int, s.len() as int);
        if j < v.len() {
            assert(rest[0] == v@[j as int]@);
        }
    }
    v.insert(j, p);
    proof {
        assert(profits_view(v@) == s.insert(j as int, p@));
    }
}

proof fn lemma_ranked_prefix(
    ix: Index,
    a: Seq<crate::client::Recipe>,
    b: Seq<crate::client::Recipe>,
    n: int,
)
    requires
        0 <= n <= a.len(),
        n <= b.len(),
        forall|j: int| 0 <= j < n ==> a[j] == b[j],
    ensures
        flips_of(ix, a, n) == flips_of(ix, b, n),
        banks_of(ix, a, n) == banks_of(ix, b, n),
    decreases n,
{
    if n > 0 {
        lemma_ranked_prefix(ix, a, b, n - 1);
    }
}

/// Ranks the recipes of the index worth crafting for resale, best surplus
/// per day first: the first list crafts from scratch, the second draws on
/// the owned materials. Both follow one ordering of the index's recipes,
/// earlier recipes first among equal rates.
pub fn find_profits(index: &Index) -> (r: (Vec<Profit>, Vec<Profit>))
    requires
        index.wf(),
    ensures
        exists|order: Seq<crate::client::Recipe>|
            {
                &&& order.len() == index.recipes@.dom().len()
                &&& order.to_set() == index.recipes@.values()
                &&& profits_view(r.0@) == flips_of(*index, order, order.len() as int)
                &&& profits_view(r.1@) == banks_of(*index, order, order.len() as int)
            },
{
    broadcast use vstd::std_specs::hash::group_hash_axioms;

    let mut flips: Vec<Profit> = Vec::new();
    let mut banks: Vec<Profit> = Vec::new();
    let ghost all = vstd::std_specs::hash::spec_values_iter(&index.recipes).remaining();
    let ghost mut seen: Seq<crate::client::Recipe> = Seq::empty();
    for r in it: index.recipes.values()
        invariant
            index.wf(),
            it.seq() == all,
            seen.len() == it.index(),
            forall|j: int| 0 <= j < it.index() ==> seen[j] == *all[j],
            profits_view(flips@) == flips_of(*index, seen, seen.len() as int),
            profits_view(banks@) == banks_of(*index, seen, seen.len() as int),
    {
        let ghost before = seen;
        proof {
            assert(all.unref()[before.len() as int] == *r);
            assert(all.unref().to_set().contains(*r));
            assert(index.recipes@.values().contains(*r));
            let k = choose|k: i32| #[trigger]
                index.recipes@.contains_key(k) && index.recipes@[k] == *r;
            assert(recipe_wf(index.recipes@[k]));
            seen = seen.push(*r);
            lemma_ranked_prefix(*index, before, seen, before.len() as int);
        }
        if let Some(sale) = batch_sale_exec(index, r) {
            if let Some(p) = flip_profit(index, r, sale) {
                insert_ranked(&mut flips, p);
            }
            if let Some(p) = bank_profit(index, r, sale) {
                insert_ranked(&mut banks, p);
            }
        }
    }
    proof {
        assert(seen.len() == all.len());
        assert(seen == all.unref());
    }
    (flips, banks)
}

} // verus!
