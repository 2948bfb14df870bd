//! Reference data of the trading service, and the order-book matcher.
use vstd::prelude::*;

use crate::error::{Failed, Failure};
use crate::text::{decimal, push_decimal};

use vstd::string::StringExecFns;

verus! {

/// Identity of a recipe.
#[derive(Debug, Clone, Copy, PartialEq, Eq, Hash, Structural)]
pub struct RecipeId(pub i32);

/// Identity of an item.
#[derive(Debug, Clone, Copy, PartialEq, Eq, Hash, Structural)]
pub struct ItemId(pub i32);

/// The recipes that one character has learned.
#[derive(Debug, Clone)]
pub struct CharacterRecipes {
    pub recipes: Vec<RecipeId>,
}

/// One input of a recipe: `count` units of `item_id` per run.
#[derive(Debug, Clone, Copy, PartialEq, Eq, Structural)]
pub struct Ingredient {
    pub item_id: ItemId,
    pub count: i32,
}

/// A recipe: each run turns its ingredients into `output_item_count` units
/// of `output_item_id`.
#[derive(Debug, Clone)]
pub struct Recipe {
    pub typ: String,
    pub output_item_id: ItemId,
    pub output_item_count: i32,
    pub min_rating: i32,
    pub time_to_craft_ms: i32,
    pub disciplines: Vec<String>,
    pub flags: Vec<String>,
    pub ingredients: Vec<Ingredient>,
    pub id: RecipeId,
    pub chat_link: String,
}

/// Best buy and sell offers of an item.
#[derive(Debug, Clone)]
pub struct Price {
    pub id: ItemId,
    pub whitelisted: bool,
    pub buys: Order,
    pub sells: Order,
    pub vendor: Option<()>,
}

/// Quantity and unit price of the best offer on one side of a book.
#[derive(Debug, Clone, Copy, PartialEq, Eq, Structural)]
pub struct Order {
    pub quantity: i32,
    pub unit_price: i32,
}

/// Reference description of an item.
#[derive(Debug, Clone)]
pub struct Item {
    pub name: String,
    pub description: Option<String>,
    pub typ: String,
    pub level: i32,
    pub rarity: String,
    pub vendor_value: i32,
    pub game_types: Vec<String>,
    pub flags: Vec<String>,
    pub restrictions: Vec<String>,
    pub id: ItemId,
    pub chat_link: String,
    pub icon: String,
}

/// An owned stack of a crafting material.
#[derive(Debug, Clone)]
pub struct Material {
    pub id: ItemId,
    pub category: i32,
    pub binding: Option<String>,
    pub count: i32,
}

/// One price level of an order book: `listings` orders offering `quantity`
/// units in all at `unit_price` each.
#[derive(Debug, Clone, Copy, PartialEq, Eq, Structural)]
pub struct Listing {
    pub listings: i32,
    pub unit_price: i32,
    pub quantity: i32,
}

/// The order book of one item: `sells` cheapest first, `buys` dearest first.
#[derive(Debug, Clone)]
pub struct Listings {
    pub id: ItemId,
    pub buys: Vec<Listing>,
    pub sells: Vec<Listing>,
}

/// Units available over all levels.
pub open spec fn depth(levels: Seq<Listing>) -> int
    decreases levels.len(),
{
    if levels.len() == 0 {
        0
    } else {
        levels[0].quantity + depth(levels.drop_first())
    }
}

/// Value of all units over all levels.
pub open spec fn book_value(levels: Seq<Listing>) -> int
    decreases levels.len(),
{
    if levels.len() == 0 {
        0
    } else {
        levels[0].quantity * levels[0].unit_price + book_value(levels.drop_first())
    }
}

/// Matches `remaining` units greedily against `levels` in order, taking from
/// each level as much as it holds; gives the total paid and the quantity
/// that is left unmatched when the levels run out.
pub open spec fn fill(levels: Seq<Listing>, remaining: int) -> (int, int)
    decreases levels.len(),
{
    if remaining == 0 || levels.len() == 0 {
        (0, remaining)
    } else {
        let take = if remaining < levels[0].quantity {
            remaining
        } else {
            levels[0].quantity as int
        };
        let rest = fill(levels.drop_first(), remaining - take);
        (take * levels[0].unit_price + rest.0, rest.1)
    }
}

/// Quantities and prices are not negative, and the whole side is worth no
/// more than an `i32` holds.
pub open spec fn side_wf(levels: Seq<Listing>) -> bool {
    &&& forall|i: int| 0 <= i < levels.len() ==> #[trigger] levels[i].quantity >= 0
        && levels[i].unit_price >= 0
    &&& book_value(levels) <= i32::MAX
}

/// Unit prices do not decrease along the levels.
pub open spec fn ascending(levels: Seq<Listing>) -> bool {
    forall|i: int, j: int|
        0 <= i < j < levels.len() ==> #[trigger] levels[i].unit_price <= #[trigger] levels[j].unit_price
}

/// Unit prices do not increase along the levels.
pub open spec fn descending(levels: Seq<Listing>) -> bool {
    forall|i: int, j: int|
        0 <= i < j < levels.len() ==> #[trigger] levels[i].unit_price >= #[trigger] levels[j].unit_price
}

/// What matching `quantity` units against `levels` of the book of `id` gives.
pub open spec fn matched(id: ItemId, levels: Seq<Listing>, quantity: int) -> Result<i32, Failed> {
    let r = fill(levels, quantity);
    if r.1 == 0 {
        Ok(r.0 as i32)
    } else {
        Err(Failed(Failure::InsufficientDepth { item: id, remaining: r.1 as i32 }))
    }
}

/// Greedy matching pays between nothing and the whole side's value, and
/// leaves unmatched exactly what exceeds the side's depth.
pub proof fn lemma_fill_bounds(levels: Seq<Listing>, remaining: int)
    requires
        remaining >= 0,
        forall|i: int| 0 <= i < levels.len() ==> #[trigger] levels[i].quantity >= 0
            && levels[i].unit_price >= 0,
    ensures
        0 <= fill(levels, remaining).0 <= book_value(levels),
        fill(levels, remaining).1 == if remaining > depth(levels) {
            remaining - depth(levels)
        } else {
            0
        },
        0 <= depth(levels),
        0 <= book_value(levels),
    decreases levels.len(),
{
    if levels.len() > 0 {
        let tail = levels.drop_first();
        assert forall|i: int| 0 <= i < tail.len() implies #[trigger] tail[i].quantity >= 0
            && tail[i].unit_price >= 0 by {
            assert(tail[i] == levels[i + 1]);
        }
        assert(levels[0].quantity >= 0 && levels[0].unit_price >= 0);
        let take = if remaining < levels[0].quantity {
            remaining
        } else {
            levels[0].quantity as int
        };
        lemma_fill_bounds(tail, remaining - take);
        lemma_fill_bounds(tail, 0);
        assert(0 <= take * levels[0].unit_price <= levels[0].quantity * levels[0].unit_price)
            by (nonlinear_arith)
            requires
                0 <= take <= levels[0].quantity,
                levels[0].unit_price >= 0,
        ;
        assert(0 <= levels[0].quantity * levels[0].unit_price) by (nonlinear_arith)
            requires
                levels[0].quantity >= 0,
                levels[0].unit_price >= 0,
        ;
    }
}

proof fn lemma_fill_price_bounds(levels: Seq<Listing>, remaining: int, p: int)
    requires
        remaining >= 0,
        forall|i: int| 0 <= i < levels.len() ==> #[trigger] levels[i].quantity >= 0
            && levels[i].unit_price >= 0,
    ensures
        (forall|i: int| 0 <= i < levels.len() ==> #[trigger] levels[i].unit_price <= p)
            ==> fill(levels, remaining).0 <= (remaining - fill(levels, remaining).1) * p,
        (forall|i: int| 0 <= i < levels.len() ==> #[trigger] levels[i].unit_price >= p)
            ==> fill(levels, remaining).0 >= (remaining - fill(levels, remaining).1) * p,
    decreases levels.len(),
{
    if remaining != 0 && levels.len() > 0 {
        let tail = levels.drop_first();
        assert forall|i: int| 0 <= i < tail.len() implies #[trigger] tail[i].quantity >= 0
            && tail[i].unit_price >= 0 by {
            assert(tail[i] == levels[i + 1]);
        }
        let head = levels[0];
        assert(head.quantity >= 0 && head.unit_price >= 0);
        let take = if remaining < head.quantity {
            remaining
        } else {
            head.quantity as int
        };
        lemma_fill_price_bounds(tail, remaining - take, p);
        lemma_fill_bounds(tail, remaining - take);
        let rest = fill(tail, remaining - take);
        assert(fill(levels, remaining) == (take * head.unit_price + rest.0, rest.1));
        if forall|i: int| 0 <= i < levels.len() ==> #[trigger] levels[i].unit_price <= p {
            assert forall|i: int| 0 <= i < tail.len() implies #[trigger] tail[i].unit_price
                <= p by {
                assert(tail[i] == levels[i + 1]);
            }
            assert(head.unit_price <= p);
            assert(take * head.unit_price <= take * p) by (nonlinear_arith)
                requires
                    take >= 0,
                    head.unit_price <= p,
            ;
            assert(take * p + (remaining - take - rest.1) * p == (remaining - rest.1) * p)
                by (nonlinear_arith);
        }
        if forall|i: int| 0 <= i < levels.len() ==> #[trigger] levels[i].unit_price >= p {
            assert forall|i: int| 0 <= i < tail.len() implies #[trigger] tail[i].unit_price
                >= p by {
                assert(tail[i] == levels[i + 1]);
            }
            assert(head.unit_price >= p);
            assert(take * head.unit_price >= take * p) by (nonlinear_arith)
                requires
                    take >= 0,
                    head.unit_price >= p,
            ;
            assert(take * p + (remaining - take - rest.1) * p == (remaining - rest.1) * p)
                by (nonlinear_arith);
        }
    } else {
        assert(fill(levels, remaining).1 == remaining);
        assert((remaining - remaining) * p == 0) by (nonlinear_arith);
    }
}

/// Buying `quantity` units from a sorted book and selling them straight back
/// into it loses money whenever the best buy offer is below the best sell
/// offer: the sale brings in strictly less than the purchase cost.
pub proof fn lemma_round_trip_loses(ls: Listings, quantity: i32)
    requires
        ls.wf(),
        ls.sorted(),
        ls.buys@.len() > 0,
        ls.sells@.len() > 0,
        ls.buys@[0].unit_price < ls.sells@[0].unit_price,
        0 < quantity,
        quantity <= depth(ls.sells@),
        quantity <= depth(ls.buys@),
    ensures
        matched(ls.id, ls.sells@, quantity as int) matches Ok(paid) && matched(
            ls.id,
            ls.buys@,
            quantity as int,
        ) matches Ok(received) && received < paid,
{
    let q = quantity as int;
    let b = ls.buys@[0].unit_price as int;
    let s = ls.sells@[0].unit_price as int;
    lemma_fill_bounds(ls.sells@, q);
    lemma_fill_bounds(ls.buys@, q);
    assert forall|i: int| 0 <= i < ls.buys@.len() implies #[trigger] ls.buys@[i].unit_price
        <= b by {
        if i > 0 {
            assert(ls.buys@[0].unit_price >= ls.buys@[i].unit_price);
        }
    }
    assert forall|i: int| 0 <= i < ls.sells@.len() implies #[trigger] ls.sells@[i].unit_price
        >= s by {
        if i > 0 {
            assert(ls.sells@[0].unit_price <= ls.sells@[i].unit_price);
        }
    }
    lemma_fill_price_bounds(ls.buys@, q, b);
    lemma_fill_price_bounds(ls.sells@, q, s);
    assert(q * b < q * s) by (nonlinear_arith)
        requires
            q > 0,
            b < s,
    ;
}

/// Walks `levels` in order, matching `quantity` units greedily.
fn match_levels(id: ItemId, levels: &Vec<Listing>, quantity: i32) -> (r: Result<i32, Failed>)
    requires
        quantity >= 0,
        side_wf(levels@),
    ensures
        r == matched(id, levels@, quantity as int),
{
    let n = levels.len();
    let mut remaining: i32 = quantity;
    let mut total: i32 = 0;
    let mut i: usize = 0;
    proof {
        lemma_fill_bounds(levels@, quantity as int);
        assert(levels@.subrange(0, n as int) == levels@);
    }
    while i < n && remaining > 0
        invariant
            n == levels@.len(),
            i <= n,
            side_wf(levels@),
            0 <= remaining <= quantity,
            total >= 0,
            fill(levels@, quantity as int) == (
            total + fill(levels@.subrange(i as int, n as int), remaining as int).0,
            fill(levels@.subrange(i as int, n as int), remaining as int).1),
            total + book_value(levels@.subrange(i as int, n as int)) <= book_value(levels@),
        decreases n - i,
    {
        let level = levels[i];
        let ghost sub = levels@.subrange(i as int, n as int);
        let ghost next = levels@.subrange(i as int + 1, n as int);
        proof {
            assert(sub.drop_first() == next);
            assert(sub[0] == level);
            assert(level.quantity >= 0 && level.unit_price >= 0) by {
                assert(levels@[i as int] == level);
            }
            assert forall|j: int| 0 <= j < next.len() implies #[trigger] next[j].quantity >= 0
                && next[j].unit_price >= 0 by {
                assert(next[j] == levels@[i + 1 + j]);
            }
            lemma_fill_bounds(next, 0);
        }
        let take: i32 = if remaining < level.quantity {
            remaining
        } else {
            level.quantity
        };
        proof {
            assert(0 <= take * level.unit_price <= level.quantity * level.unit_price)
                by (nonlinear_arith)
                requires
                    0 <= take <= level.quantity,
                    level.unit_price >= 0,
            ;
            assert(book_value(levels@) <= i32::MAX);
        }
        total = total + take * level.unit_price;
        remaining = remaining - take;
        i = i + 1;
    }
    proof {
        let sub = levels@.subrange(i as int, n as int);
        if remaining > 0 {
            assert(sub.len() == 0);
        }
    }
    if remaining == 0 {
        Ok(total)
    } else {
        proof {
            lemma_fill_bounds(levels@, quantity as int);
        }
        Err(Failed(Failure::InsufficientDepth { item: id, remaining }))
    }
}

impl Listings {
    /// The side of the book a buyer takes from: sell offers, cheapest first.
    pub open spec fn wf(&self) -> bool {
        side_wf(self.sells@) && side_wf(self.buys@)
    }

    /// Both sides are ordered best-first for the one who takes from them.
    pub open spec fn sorted(&self) -> bool {
        ascending(self.sells@) && descending(self.buys@)
    }

    /// Price of buying `quantity` units from the sell offers, cheapest
    /// first. Fails with `InsufficientDepth` and the unmatched quantity
    /// when the offers hold fewer units than asked.
    pub fn cost(&self, quantity: i32) -> (r: Result<i32, Failed>)
        requires
            quantity >= 0,
            self.wf(),
        ensures
            r == matched(self.id, self.sells@, quantity as int),
            r is Ok <==> quantity <= depth(self.sells@),
            r matches Ok(total) ==> total == fill(self.sells@, quantity as int).0,
            r matches Ok(total) ==> total >= 0,
            r matches Err(e) ==> e == Failed(
                Failure::InsufficientDepth {
                    item: self.id,
                    remaining: (quantity - depth(self.sells@)) as i32,
                },
            ),
    {
        proof {
            lemma_fill_bounds(self.sells@, quantity as int);
        }
        match_levels(self.id, &self.sells, quantity)
    }

    /// Proceeds of selling `quantity` units into the buy offers, dearest
    /// first. Fails with `InsufficientDepth` and the unmatched quantity
    /// when the offers take fewer units than offered.
    pub fn sale(&self, quantity: i32) -> (r: Result<i32, Failed>)
        requires
            quantity >= 0,
            self.wf(),
        ensures
            r == matched(self.id, self.buys@, quantity as int),
            r is Ok <==> quantity <= depth(self.buys@),
            r matches Ok(total) ==> total == fill(self.buys@, quantity as int).0,
            r matches Ok(total) ==> total >= 0,
            r matches Err(e) ==> e == Failed(
                Failure::InsufficientDepth {
                    item: self.id,
                    remaining: (quantity - depth(self.buys@)) as i32,
                },
            ),
    {
        proof {
            lemma_fill_bounds(self.buys@, quantity as int);
        }
        match_levels(self.id, &self.buys, quantity)
    }
}

/// Whether `a` goes before `b` on a side ordered cheapest first (`up`) or
/// dearest first.
pub open spec fn keeps_order(a: Listing, b: Listing, up: bool) -> bool {
    if up {
        a.unit_price <= b.unit_price
    } else {
        a.unit_price >= b.unit_price
    }
}

fn goes_before(a: Listing, b: Listing, up: bool) -> (r: bool)
    ensures
        r == keeps_order(a, b, up),
{
    if up {
        a.unit_price <= b.unit_price
    } else {
        a.unit_price >= b.unit_price
    }
}

/// The levels ordered by unit price, cheapest first when `up`, else dearest
/// first; levels of equal price keep their order.
fn sort_levels(levels: &Vec<Listing>, up: bool) -> (r: Vec<Listing>)
    ensures
        r@.to_multiset() == levels@.to_multiset(),
        up ==> ascending(r@),
        !up ==> descending(r@),
{
    broadcast use vstd::seq_lib::group_to_multiset_ensures;

    let mut out: Vec<Listing> = Vec::new();
    let mut i: usize = 0;
    while i < levels.len()
        invariant
            i <= levels.len(),
            out@.to_multiset() == levels@.subrange(0, i as int).to_multiset(),
            forall|a: int, b: int|
                0 <= a < b < out@.len() ==> keeps_order(#[trigger] out@[a], #[trigger] out@[b], up),
        decreases levels.len() - i,
    {
        let x = levels[i];
        let mut j: usize = 0;
        while j < out.len() && goes_before(out[j], x, up)
            invariant
                j <= out.len(),
                i < levels.len(),
                x == levels@[i as int],
                out@.to_multiset() == levels@.subrange(0, i as int).to_multiset(),
                forall|a: int, b: int|
                    0 <= a < b < out@.len() ==> keeps_order(
                        #[trigger] out@[a],
                        #[trigger] out@[b],
                        up,
                    ),
                forall|a: int| 0 <= a < j ==> keeps_order(#[trigger] out@[a], x, up),
            decreases out.len() - j,
        {
            j = j + 1;
        }
        let ghost before = out@;
        out.insert(j, x);
        proof {
            vstd::seq_lib::to_multiset_insert(before, j as int, x);
            assert(out@ == before.insert(j as int, x));
            let done = levels@.subrange(0, i as int);
            done.to_multiset_ensures();
            assert(done.push(x).to_multiset() == done.to_multiset().insert(x));
            assert(levels@.subrange(0, i + 1) == done.push(x));
            assert forall|a: int, b: int|
                0 <= a < b < out@.len() implies keeps_order(
                #[trigger] out@[a],
                #[trigger] out@[b],
                up,
            ) by {
                if j < before.len() {
                    assert(!keeps_order(before[j as int], x, up));
                }
                if b < j {
                    assert(out@[a] == before[a] && out@[b] == before[b]);
                } else if b == j {
                    assert(out@[a] == before[a]);
                } else if a == j {
                    assert(out@[b] == before[b - 1]);
                    if b - 1 > j {
                        assert(keeps_order(before[j as int], before[b - 1], up));
                    }
                } else if a < j {
                    assert(out@[a] == before[a] && out@[b] == before[b - 1]);
                } else {
                    assert(out@[a] == before[a - 1] && out@[b] == before[b - 1]);
                }
            }
        }
        i = i + 1;
    }
    proof {
        assert(levels@.subrange(0, levels@.len() as int) == levels@);
        if up {
            assert forall|a: int, b: int| 0 <= a < b < out@.len() implies #[trigger] out@[a].unit_price
                <= #[trigger] out@[b].unit_price by {
                assert(keeps_order(out@[a], out@[b], up));
            }
        } else {
            assert forall|a: int, b: int| 0 <= a < b < out@.len() implies #[trigger] out@[a].unit_price
                >= #[trigger] out@[b].unit_price by {
                assert(keeps_order(out@[a], out@[b], up));
            }
        }
    }
    out
}

/// Whether a side holds no negative quantity or price and is worth no more
/// than an `i32` holds.
fn side_ok(levels: &Vec<Listing>) -> (r: bool)
    ensures
        r == side_wf(levels@),
{
    let n = levels.len();
    let mut value: i64 = 0;
    let mut i: usize = 0;
    proof {
        assert(levels@.subrange(0, n as int) == levels@);
    }
    while i < n
        invariant
            n == levels@.len(),
            i <= n,
            0 <= value <= i32::MAX,
            forall|j: int| 0 <= j < i ==> #[trigger] levels@[j].quantity >= 0
                && levels@[j].unit_price >= 0,
            book_value(levels@) == value + book_value(levels@.subrange(i as int, n as int)),
        decreases n - i,
    {
        let l = levels[i];
        let ghost rest = levels@.subrange(i as int, n as int);
        proof {
            assert(levels@[i as int] == l);
            assert(rest[0] == l);
            assert(rest.drop_first() == levels@.subrange(i + 1, n as int));
        }
        if l.quantity < 0 || l.unit_price < 0 {
            return false;
        }
        assert(0 <= l.quantity * l.unit_price <= i32::MAX as int * i32::MAX as int)
            by (nonlinear_arith)
            requires
                0 <= l.quantity <= i32::MAX,
                0 <= l.unit_price <= i32::MAX,
        ;
        let part: i64 = l.quantity as i64 * l.unit_price as i64;
        if value + part > i32::MAX as i64 {
            proof {
                let tail = levels@.subrange(i + 1, n as int);
                if forall|j: int| 0 <= j < n ==> #[trigger] levels@[j].quantity >= 0
                    && levels@[j].unit_price >= 0 {
                    assert forall|j: int| 0 <= j < tail.len() implies #[trigger] tail[j].quantity
                        >= 0 && tail[j].unit_price >= 0 by {
                        assert(tail[j] == levels@[i + 1 + j]);
                    }
                    lemma_fill_bounds(tail, 0);
                }
            }
            return false;
        }
        value = value + part;
        assert(levels@[i as int].quantity >= 0 && levels@[i as int].unit_price >= 0);
        i = i + 1;
    }
    true
}

impl Listings {
    /// Orders the sell offers cheapest first and the buy offers dearest
    /// first, as the matcher expects; levels of equal price keep their order.
    pub fn sort_sides(&mut self)
        ensures
            final(self).sorted(),
            final(self).id == old(self).id,
            final(self).sells@.to_multiset() == old(self).sells@.to_multiset(),
            final(self).buys@.to_multiset() == old(self).buys@.to_multiset(),
    {
        self.sells = sort_levels(&self.sells, true);
        self.buys = sort_levels(&self.buys, false);
    }

    /// Whether the book is well formed.
    pub fn check(&self) -> (r: bool)
        ensures
            r == self.wf(),
    {
        side_ok(&self.sells) && side_ok(&self.buys)
    }
}

/// A value carrying a numeric identity.
pub trait AsId {
    spec fn id_value(&self) -> i32;

    fn as_id(&self) -> (r: i32)
        ensures
            r == self.id_value(),
    ;
}

impl AsId for ItemId {
    open spec fn id_value(&self) -> i32 {
        self.0
    }

    fn as_id(&self) -> (r: i32) {
        self.0
    }
}

impl AsId for RecipeId {
    open spec fn id_value(&self) -> i32 {
        self.0
    }

    fn as_id(&self) -> (r: i32) {
        self.0
    }
}

/// The decimal identities of `ids`, separated by commas.
pub open spec fn joined<T: AsId>(ids: Seq<T>) -> Seq<char>
    decreases ids.len(),
{
    if ids.len() == 0 {
        Seq::empty()
    } else if ids.len() == 1 {
        decimal(ids[0].id_value() as int)
    } else {
        joined(ids.drop_last()) + ","@ + decimal(ids.last().id_value() as int)
    }
}

/// The identities of `ids` as a comma-separated list, as a query takes them.
pub fn ids_str<T: AsId>(ids: &[T]) -> (r: String)
    ensures
        r@ == joined(ids@),
{
    proof {
        reveal_strlit(",");
    }
    let mut out = String::new();
    let mut i: usize = 0;
    while i < ids.len()
        invariant
            i <= ids@.len(),
            out@ == joined(ids@.subrange(0, i as int)),
        decreases ids.len() - i,
    {
        let ghost before = ids@.subrange(0, i as int);
        let ghost after = ids@.subrange(0, i + 1);
        proof {
            assert(after.drop_last() == before);
            assert(after.last() == ids@[i as int]);
        }
        if i > 0 {
            out.append(",");
        }
        push_decimal(&mut out, ids[i].as_id() as i64);
        proof {
            if i == 0 {
                assert(out@ == Seq::<char>::empty() + decimal(ids@[0].id_value() as int));
            }
        }
        i = i + 1;
    }
    proof {
        assert(ids@.subrange(0, ids@.len() as int) == ids@);
    }
    out
}

} // verus!
