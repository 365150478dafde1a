use vstd::prelude::*;

use crate::price::{is_lower_price, lemma_price_order, price_less};

verus! {

/// One price level of an order book as the exchange sends it.
///
/// `extra` holds the level's other fields, each as its name and its JSON text.
/// `size_is_zero` tells whether `size` reads as the number zero; the level is
/// dropped from a book once an update has been merged while it holds.
#[derive(Debug)]
pub struct OrderBookLevel {
    pub price: String,
    pub size: String,
    pub remaining_base_amount: Option<String>,
    pub extra: Vec<(String, String)>,
    pub size_is_zero: bool,
}

/// What a level holds, as plain values.
pub struct LevelView {
    pub price: Seq<char>,
    pub size: Seq<char>,
    pub remaining_base_amount: Option<Seq<char>>,
    pub extra: Seq<(Seq<char>, Seq<char>)>,
    pub size_is_zero: bool,
}

pub open spec fn text_option_view(o: Option<String>) -> Option<Seq<char>> {
    match o {
        Some(s) => Some(s@),
        None => None,
    }
}

pub open spec fn fields_view(fields: Seq<(String, String)>) -> Seq<(Seq<char>, Seq<char>)> {
    fields.map_values(|f: (String, String)| (f.0@, f.1@))
}

impl View for OrderBookLevel {
    type V = LevelView;

    open spec fn view(&self) -> LevelView {
        LevelView {
            price: self.price@,
            size: self.size@,
            remaining_base_amount: text_option_view(self.remaining_base_amount),
            extra: fields_view(self.extra@),
            size_is_zero: self.size_is_zero,
        }
    }
}

/// The views of a sequence of levels.
pub open spec fn levels_view(levels: Seq<OrderBookLevel>) -> Seq<LevelView> {
    levels.map_values(|l: OrderBookLevel| l@)
}

fn clone_text_option(o: &Option<String>) -> (r: Option<String>)
    ensures
        text_option_view(r) == text_option_view(*o),
{
    match o {
        Some(s) => Some(s.clone()),
        None => None,
    }
}

fn clone_fields(fields: &Vec<(String, String)>) -> (r: Vec<(String, String)>)
    ensures
        fields_view(r@) == fields_view(fields@),
{
    let mut out: Vec<(String, String)> = Vec::new();
    let mut i: usize = 0;
    while i < fields.len()
        invariant
            i <= fields@.len(),
            out@.len() == i,
            forall|j: int|
                0 <= j < i ==> (#[trigger] out@[j]).0@ == fields@[j].0@ && out@[j].1@ == fields@[j].1@,
        decreases fields@.len() - i,
    {
        let name = fields[i].0.clone();
        let value = fields[i].1.clone();
        out.push((name, value));
        i = i + 1;
    }
    assert(fields_view(out@) =~= fields_view(fields@));
    out
}

impl Clone for OrderBookLevel {
    fn clone(&self) -> (r: Self)
        ensures
            r@ == self@,
    {
        OrderBookLevel {
            price: self.price.clone(),
            size: self.size.clone(),
            remaining_base_amount: clone_text_option(&self.remaining_base_amount),
            extra: clone_fields(&self.extra),
            size_is_zero: self.size_is_zero,
        }
    }
}

/// Copies a side of a book level by level.
pub fn clone_levels(levels: &[OrderBookLevel]) -> (r: Vec<OrderBookLevel>)
    ensures
        levels_view(r@) == levels_view(levels@),
{
    let mut out: Vec<OrderBookLevel> = Vec::new();
    let mut i: usize = 0;
    while i < levels.len()
        invariant
            i <= levels@.len(),
            out@.len() == i,
            forall|j: int| 0 <= j < i ==> (#[trigger] out@[j])@ == levels@[j]@,
        decreases levels@.len() - i,
    {
        out.push(levels[i].clone());
        i = i + 1;
    }
    assert(levels_view(out@) =~= levels_view(levels@));
    out
}

/// Index of the first level at `price`, or -1 when there is none.
pub open spec fn first_price_index(levels: Seq<LevelView>, price: Seq<char>) -> int
    decreases levels.len(),
{
    if levels.len() == 0 {
        -1
    } else {
        let r = first_price_index(levels.drop_last(), price);
        if r >= 0 {
            r
        } else if levels.last().price == price {
            levels.len() - 1
        } else {
            -1
        }
    }
}

/// The first level at `price`.
pub open spec fn level_at_price(levels: Seq<LevelView>, price: Seq<char>) -> Option<LevelView> {
    let k = first_price_index(levels, price);
    if k >= 0 {
        Some(levels[k])
    } else {
        None
    }
}

/// How a side of a book is ordered: asks lowest price first, bids highest first.
#[derive(Clone, Copy, Debug, PartialEq, Eq, Structural)]
pub enum PriceOrder {
    LowestFirst,
    HighestFirst,
}

/// A level at price `a` belongs before a level at price `b`.
pub open spec fn ranks_before(order: PriceOrder, a: Seq<char>, b: Seq<char>) -> bool {
    match order {
        PriceOrder::LowestFirst => price_less(a, b),
        PriceOrder::HighestFirst => price_less(b, a),
    }
}

/// Index of the first level that a level at `price` belongs before, or -1.
pub open spec fn first_ranked_after(levels: Seq<LevelView>, price: Seq<char>, order: PriceOrder) -> int
    decreases levels.len(),
{
    if levels.len() == 0 {
        -1
    } else {
        let r = first_ranked_after(levels.drop_last(), price, order);
        if r >= 0 {
            r
        } else if ranks_before(order, price, levels.last().price) {
            levels.len() - 1
        } else {
            -1
        }
    }
}

/// Where a level at a new price goes: before the first level it ranks
/// before, or at the end.
pub open spec fn insert_position(levels: Seq<LevelView>, price: Seq<char>, order: PriceOrder) -> int {
    let r = first_ranked_after(levels, price, order);
    if r >= 0 {
        r
    } else {
        levels.len() as int
    }
}

/// No level ranks before a level ahead of it.
pub open spec fn sorted_side(levels: Seq<LevelView>, order: PriceOrder) -> bool {
    forall|i: int, j: int|
        0 <= i < j < levels.len() ==> !ranks_before(
            order,
            (#[trigger] levels[j]).price,
            (#[trigger] levels[i]).price,
        )
}

/// Merges one update into a side: it replaces the first level at its price,
/// or is inserted at its place in the side's price order.
pub open spec fn upsert_level(levels: Seq<LevelView>, update: LevelView, order: PriceOrder) -> Seq<
    LevelView,
> {
    let k = first_price_index(levels, update.price);
    if k >= 0 {
        levels.update(k, update)
    } else {
        levels.insert(insert_position(levels, update.price, order), update)
    }
}

/// Merges updates one after the other, in order.
pub open spec fn upsert_levels(
    levels: Seq<LevelView>,
    updates: Seq<LevelView>,
    order: PriceOrder,
) -> Seq<LevelView>
    decreases updates.len(),
{
    if updates.len() == 0 {
        levels
    } else {
        upsert_level(upsert_levels(levels, updates.drop_last(), order), updates.last(), order)
    }
}

/// The levels whose size is not zero, in order.
pub open spec fn drop_zero_levels(levels: Seq<LevelView>) -> Seq<LevelView>
    decreases levels.len(),
{
    if levels.len() == 0 {
        levels
    } else {
        let rest = drop_zero_levels(levels.drop_last());
        if levels.last().size_is_zero {
            rest
        } else {
            rest.push(levels.last())
        }
    }
}

/// A side after a batch of updates: merge them, then drop the levels of size zero.
pub open spec fn updated_side(
    levels: Seq<LevelView>,
    updates: Seq<LevelView>,
    order: PriceOrder,
) -> Seq<LevelView> {
    drop_zero_levels(upsert_levels(levels, updates, order))
}

/// The last update at `price` in a batch.
pub open spec fn last_update_at(updates: Seq<LevelView>, price: Seq<char>) -> Option<LevelView>
    decreases updates.len(),
{
    if updates.len() == 0 {
        None
    } else if updates.last().price == price {
        Some(updates.last())
    } else {
        last_update_at(updates.drop_last(), price)
    }
}

/// No two levels share a price.
pub open spec fn distinct_prices(levels: Seq<LevelView>) -> bool {
    forall|i: int, j: int|
        0 <= i < levels.len() && 0 <= j < levels.len() && i != j ==> (#[trigger] levels[i]).price
            != (#[trigger] levels[j]).price
}

/// A level is kept only while its size is not zero.
pub open spec fn live_level(l: Option<LevelView>) -> Option<LevelView> {
    match l {
        Some(v) => if v.size_is_zero {
            None
        } else {
            Some(v)
        },
        None => None,
    }
}

proof fn lemma_first_price_index(levels: Seq<LevelView>, price: Seq<char>)
    ensures
        -1 <= first_price_index(levels, price) < levels.len(),
        first_price_index(levels, price) >= 0 ==> levels[first_price_index(levels, price)].price
            == price,
        forall|j: int|
            0 <= j < levels.len() && (first_price_index(levels, price) < 0 || j
                < first_price_index(levels, price)) ==> (#[trigger] levels[j]).price != price,
    decreases levels.len(),
{
    if levels.len() > 0 {
        lemma_first_price_index(levels.drop_last(), price);
        assert forall|j: int|
            0 <= j < levels.len() - 1 implies #[trigger] levels[j] == levels.drop_last()[j] by {}
    }
}

proof fn lemma_first_price_index_unique(levels: Seq<LevelView>, price: Seq<char>, k: int)
    requires
        0 <= k < levels.len(),
        levels[k].price == price,
        forall|j: int| 0 <= j < k ==> (#[trigger] levels[j]).price != price,
    ensures
        first_price_index(levels, price) == k,
{
    lemma_first_price_index(levels, price);
    let r = first_price_index(levels, price);
    if r < 0 {
        assert(levels[k].price != price);
    } else if r < k {
        assert(levels[r].price != price);
    } else if r > k {
        assert(levels[k].price != price);
    }
}

proof fn lemma_no_price_index(levels: Seq<LevelView>, price: Seq<char>)
    requires
        forall|j: int| 0 <= j < levels.len() ==> (#[trigger] levels[j]).price != price,
    ensures
        first_price_index(levels, price) == -1,
{
    lemma_first_price_index(levels, price);
    let r = first_price_index(levels, price);
    if r >= 0 {
        assert(levels[r].price == price);
    }
}

/// Reading a side after merging one update.
proof fn lemma_level_at_price_upsert(
    levels: Seq<LevelView>,
    update: LevelView,
    order: PriceOrder,
    price: Seq<char>,
)
    ensures
        level_at_price(upsert_level(levels, update, order), price) == (if update.price == price {
            Some(update)
        } else {
            level_at_price(levels, price)
        }),
{
    lemma_first_price_index(levels, update.price);
    lemma_first_price_index(levels, price);
    let k = first_price_index(levels, update.price);
    let merged = upsert_level(levels, update, order);
    if k >= 0 {
        assert(merged == levels.update(k, update));
        if update.price == price {
            lemma_first_price_index_unique(merged, price, k);
        } else {
            let r = first_price_index(levels, price);
            if r >= 0 {
                assert(r != k);
                assert forall|j: int| 0 <= j < r implies (#[trigger] merged[j]).price != price by {
                    if j != k {
                        assert(merged[j] == levels[j]);
                    }
                }
                lemma_first_price_index_unique(merged, price, r);
            } else {
                assert forall|j: int|
                    0 <= j < merged.len() implies (#[trigger] merged[j]).price != price by {
                    if j != k {
                        assert(merged[j] == levels[j]);
                    }
                }
                lemma_no_price_index(merged, price);
            }
        }
    } else {
        let p = insert_position(levels, update.price, order);
        lemma_insert_position(levels, update.price, order);
        levels.insert_ensures(p, update);
        assert(merged == levels.insert(p, update));
        if update.price == price {
            assert forall|j: int| 0 <= j < p implies (#[trigger] merged[j]).price != price by {
                assert(merged[j] == levels[j]);
            }
            lemma_first_price_index_unique(merged, price, p);
        } else {
            let r = first_price_index(levels, price);
            if r >= 0 {
                let r2 = if r < p {
                    r
                } else {
                    r + 1
                };
                if r >= p {
                    assert(merged[r + 1] == levels[r]);
                }
                assert forall|j: int| 0 <= j < r2 implies (#[trigger] merged[j]).price != price by {
                    if j < p {
                        assert(merged[j] == levels[j]);
                    } else if j > p {
                        assert(merged[(j - 1) + 1] == levels[j - 1]);
                    }
                }
                lemma_first_price_index_unique(merged, price, r2);
            } else {
                assert forall|j: int|
                    0 <= j < merged.len() implies (#[trigger] merged[j]).price != price by {
                    if j < p {
                        assert(merged[j] == levels[j]);
                    } else if j > p {
                        assert(merged[(j - 1) + 1] == levels[j - 1]);
                    }
                }
                lemma_no_price_index(merged, price);
            }
        }
    }
}

/// Reading a side after merging a batch of updates: the last update at a
/// price wins; a price that no update names reads as before.
pub proof fn lemma_level_at_price_upsert_levels(
    levels: Seq<LevelView>,
    updates: Seq<LevelView>,
    order: PriceOrder,
    price: Seq<char>,
)
    ensures
        level_at_price(upsert_levels(levels, updates, order), price) == match last_update_at(
            updates,
            price,
        ) {
            Some(u) => Some(u),
            None => level_at_price(levels, price),
        },
    decreases updates.len(),
{
    if updates.len() > 0 {
        lemma_level_at_price_upsert_levels(levels, updates.drop_last(), order, price);
        lemma_level_at_price_upsert(
            upsert_levels(levels, updates.drop_last(), order),
            updates.last(),
            order,
            price,
        );
    }
}

proof fn lemma_upsert_distinct(levels: Seq<LevelView>, update: LevelView, order: PriceOrder)
    requires
        distinct_prices(levels),
    ensures
        distinct_prices(upsert_level(levels, update, order)),
{
    lemma_first_price_index(levels, update.price);
    let k = first_price_index(levels, update.price);
    let merged = upsert_level(levels, update, order);
    if k >= 0 {
        assert forall|i: int, j: int|
            0 <= i < merged.len() && 0 <= j < merged.len() && i != j implies (#[trigger] merged[i]).price
            != (#[trigger] merged[j]).price by {
            assert(levels[i].price != levels[j].price);
        }
    } else {
        let p = insert_position(levels, update.price, order);
        lemma_insert_position(levels, update.price, order);
        levels.insert_ensures(p, update);
        assert forall|i: int, j: int|
            0 <= i < merged.len() && 0 <= j < merged.len() && i != j implies (#[trigger] merged[i]).price
            != (#[trigger] merged[j]).price by {
            let oi = if i < p {
                i
            } else {
                i - 1
            };
            let oj = if j < p {
                j
            } else {
                j - 1
            };
            if i > p {
                assert(merged[(i - 1) + 1] == levels[i - 1]);
            }
            if j > p {
                assert(merged[(j - 1) + 1] == levels[j - 1]);
            }
            if i != p && j != p {
                assert(levels[oi].price != levels[oj].price);
            } else if i != p {
                assert(levels[oi].price != update.price);
            } else {
                assert(levels[oj].price != update.price);
            }
        }
    }
}

/// Merging updates into a side whose prices are distinct keeps them distinct.
pub proof fn lemma_upsert_levels_distinct(
    levels: Seq<LevelView>,
    updates: Seq<LevelView>,
    order: PriceOrder,
)
    requires
        distinct_prices(levels),
    ensures
        distinct_prices(upsert_levels(levels, updates, order)),
    decreases updates.len(),
{
    if updates.len() > 0 {
        lemma_upsert_levels_distinct(levels, updates.drop_last(), order);
        lemma_upsert_distinct(
            upsert_levels(levels, updates.drop_last(), order),
            updates.last(),
            order,
        );
    }
}

proof fn lemma_drop_zero_members(levels: Seq<LevelView>)
    ensures
        drop_zero_levels(levels).len() <= levels.len(),
        forall|i: int|
            0 <= i < drop_zero_levels(levels).len() ==> exists|j: int|
                0 <= j < levels.len() && #[trigger] drop_zero_levels(levels)[i] == levels[j],
        forall|i: int|
            0 <= i < drop_zero_levels(levels).len() ==> !(
            #[trigger] drop_zero_levels(levels)[i]).size_is_zero,
    decreases levels.len(),
{
    if levels.len() > 0 {
        let init = levels.drop_last();
        lemma_drop_zero_members(init);
        let rest = drop_zero_levels(init);
        let out = drop_zero_levels(levels);
        assert forall|i: int| 0 <= i < out.len() implies exists|j: int|
            0 <= j < levels.len() && #[trigger] out[i] == levels[j] by {
            if i < rest.len() {
                assert(out[i] == rest[i]);
                let j = choose|j: int| 0 <= j < init.len() && rest[i] == init[j];
                assert(levels[j] == init[j]);
            } else {
                assert(out[i] == levels[levels.len() - 1]);
            }
        }
        assert forall|i: int| 0 <= i < out.len() implies !(#[trigger] out[i]).size_is_zero by {
            if i < rest.len() {
                assert(out[i] == rest[i]);
            }
        }
    }
}

proof fn lemma_drop_zero_distinct(levels: Seq<LevelView>)
    requires
        distinct_prices(levels),
    ensures
        distinct_prices(drop_zero_levels(levels)),
    decreases levels.len(),
{
    if levels.len() > 0 {
        let init = levels.drop_last();
        assert(distinct_prices(init)) by {
            assert forall|i: int, j: int|
                0 <= i < init.len() && 0 <= j < init.len() && i != j implies (#[trigger] init[i]).price
                != (#[trigger] init[j]).price by {
                assert(init[i] == levels[i] && init[j] == levels[j]);
            }
        }
        lemma_drop_zero_distinct(init);
        lemma_drop_zero_members(init);
        let rest = drop_zero_levels(init);
        let last = levels.last();
        if !last.size_is_zero {
            let out = rest.push(last);
            assert forall|i: int, j: int|
                0 <= i < out.len() && 0 <= j < out.len() && i != j implies (#[trigger] out[i]).price
                != (#[trigger] out[j]).price by {
                if i < rest.len() && j < rest.len() {
                    assert(out[i] == rest[i] && out[j] == rest[j]);
                } else if i < rest.len() {
                    assert(out[i] == rest[i]);
                    let k = choose|k: int| 0 <= k < init.len() && rest[i] == init[k];
                    assert(levels[k] == init[k]);
                    assert(levels[k].price != levels[levels.len() - 1].price);
                } else {
                    assert(out[j] == rest[j]);
                    let k = choose|k: int| 0 <= k < init.len() && rest[j] == init[k];
                    assert(levels[k] == init[k]);
                    assert(levels[k].price != levels[levels.len() - 1].price);
                }
            }
        }
    }
}

proof fn lemma_level_at_price_drop_zero(levels: Seq<LevelView>, price: Seq<char>)
    requires
        distinct_prices(levels),
    ensures
        level_at_price(drop_zero_levels(levels), price) == live_level(
            level_at_price(levels, price),
        ),
    decreases levels.len(),
{
    if levels.len() > 0 {
        let init = levels.drop_last();
        let last = levels.last();
        assert(distinct_prices(init)) by {
            assert forall|i: int, j: int|
                0 <= i < init.len() && 0 <= j < init.len() && i != j implies (#[trigger] init[i]).price
                != (#[trigger] init[j]).price by {
                assert(init[i] == levels[i] && init[j] == levels[j]);
            }
        }
        lemma_level_at_price_drop_zero(init, price);
        let rest = drop_zero_levels(init);
        lemma_first_price_index(init, price);
        lemma_first_price_index(rest, price);
        if last.price == price {
            assert forall|j: int| 0 <= j < init.len() implies (#[trigger] init[j]).price != price by {
                assert(init[j] == levels[j]);
                assert(levels[j].price != levels[levels.len() - 1].price);
            }
            lemma_no_price_index(init, price);
            assert(level_at_price(levels, price) == Some(last));
            if !last.size_is_zero {
                let out = rest.push(last);
                assert(out.drop_last() =~= rest);
            }
        } else {
            if !last.size_is_zero {
                let out = rest.push(last);
                assert(out.drop_last() =~= rest);
                let r = first_price_index(rest, price);
                if r >= 0 {
                    assert(out[r] == rest[r]);
                }
            }
            let r0 = first_price_index(init, price);
            if r0 >= 0 {
                assert(levels[r0] == init[r0]);
            }
        }
    }
}

/// After a batch of updates, a price reads as its last update when the batch
/// names it, else as before; and it reads as nothing when that level's size is zero.
pub proof fn lemma_updated_side_reads(
    levels: Seq<LevelView>,
    updates: Seq<LevelView>,
    order: PriceOrder,
    price: Seq<char>,
)
    requires
        distinct_prices(levels),
    ensures
        level_at_price(updated_side(levels, updates, order), price) == live_level(
            match last_update_at(updates, price) {
                Some(u) => Some(u),
                None => level_at_price(levels, price),
            },
        ),
{
    lemma_upsert_levels_distinct(levels, updates, order);
    lemma_level_at_price_upsert_levels(levels, updates, order, price);
    lemma_level_at_price_drop_zero(upsert_levels(levels, updates, order), price);
}

/// A side whose prices are distinct keeps them distinct through any batch of updates.
pub proof fn lemma_updated_side_distinct(
    levels: Seq<LevelView>,
    updates: Seq<LevelView>,
    order: PriceOrder,
)
    requires
        distinct_prices(levels),
    ensures
        distinct_prices(updated_side(levels, updates, order)),
{
    lemma_upsert_levels_distinct(levels, updates, order);
    lemma_drop_zero_distinct(upsert_levels(levels, updates, order));
}

proof fn lemma_first_ranked_after(levels: Seq<LevelView>, price: Seq<char>, order: PriceOrder)
    ensures
        -1 <= first_ranked_after(levels, price, order) < levels.len(),
        first_ranked_after(levels, price, order) >= 0 ==> ranks_before(
            order,
            price,
            levels[first_ranked_after(levels, price, order)].price,
        ),
        forall|j: int|
            0 <= j < levels.len() && (first_ranked_after(levels, price, order) < 0 || j
                < first_ranked_after(levels, price, order)) ==> !ranks_before(
                order,
                price,
                (#[trigger] levels[j]).price,
            ),
    decreases levels.len(),
{
    if levels.len() > 0 {
        lemma_first_ranked_after(levels.drop_last(), price, order);
        assert forall|j: int|
            0 <= j < levels.len() - 1 implies #[trigger] levels[j] == levels.drop_last()[j] by {}
    }
}

proof fn lemma_insert_position(levels: Seq<LevelView>, price: Seq<char>, order: PriceOrder)
    ensures
        0 <= insert_position(levels, price, order) <= levels.len(),
        forall|j: int|
            0 <= j < insert_position(levels, price, order) ==> !ranks_before(
                order,
                price,
                (#[trigger] levels[j]).price,
            ),
        insert_position(levels, price, order) < levels.len() ==> ranks_before(
            order,
            price,
            levels[insert_position(levels, price, order)].price,
        ),
{
    lemma_first_ranked_after(levels, price, order);
}

proof fn lemma_ranks_before(order: PriceOrder, a: Seq<char>, b: Seq<char>, c: Seq<char>)
    ensures
        ranks_before(order, a, b) ==> !ranks_before(order, b, a),
        ranks_before(order, a, b) && ranks_before(order, b, c) ==> ranks_before(order, a, c),
{
    lemma_price_order(a, b, c);
    lemma_price_order(b, a, c);
    lemma_price_order(c, b, a);
}

proof fn lemma_insert_sorted(levels: Seq<LevelView>, p: int, update: LevelView, order: PriceOrder)
    requires
        sorted_side(levels, order),
        0 <= p <= levels.len(),
        forall|j: int| 0 <= j < p ==> !ranks_before(order, update.price, (#[trigger] levels[j]).price),
        p < levels.len() ==> ranks_before(order, update.price, levels[p].price),
    ensures
        sorted_side(levels.insert(p, update), order),
{
    let merged = levels.insert(p, update);
    levels.insert_ensures(p, update);
    assert forall|i: int, j: int| 0 <= i < j < merged.len() implies !ranks_before(
        order,
        (#[trigger] merged[j]).price,
        (#[trigger] merged[i]).price,
    ) by {
        if i > p {
            assert(merged[(i - 1) + 1] == levels[i - 1]);
        }
        if j > p {
            assert(merged[(j - 1) + 1] == levels[j - 1]);
        }
        if j < p {
            assert(!ranks_before(order, levels[j].price, levels[i].price));
        } else if j == p {
            assert(merged[i] == levels[i]);
        } else if i < p {
            assert(!ranks_before(order, levels[j - 1].price, levels[i].price));
        } else if i == p {
            let l = levels[j - 1].price;
            let q = levels[p].price;
            lemma_ranks_before(order, update.price, q, update.price);
            lemma_ranks_before(order, l, update.price, q);
            if j - 1 > p {
                assert(!ranks_before(order, l, q));
            }
        } else {
            assert(!ranks_before(order, levels[j - 1].price, levels[i - 1].price));
        }
    }
}

proof fn lemma_upsert_sorted(levels: Seq<LevelView>, update: LevelView, order: PriceOrder)
    requires
        sorted_side(levels, order),
    ensures
        sorted_side(upsert_level(levels, update, order), order),
{
    lemma_first_price_index(levels, update.price);
    let k = first_price_index(levels, update.price);
    let merged = upsert_level(levels, update, order);
    if k >= 0 {
        assert forall|i: int, j: int| 0 <= i < j < merged.len() implies !ranks_before(
            order,
            (#[trigger] merged[j]).price,
            (#[trigger] merged[i]).price,
        ) by {
            assert(merged[i].price == levels[i].price);
            assert(merged[j].price == levels[j].price);
        }
    } else {
        lemma_insert_position(levels, update.price, order);
        lemma_insert_sorted(levels, insert_position(levels, update.price, order), update, order);
    }
}

proof fn lemma_upsert_levels_sorted(levels: Seq<LevelView>, updates: Seq<LevelView>, order: PriceOrder)
    requires
        sorted_side(levels, order),
    ensures
        sorted_side(upsert_levels(levels, updates, order), order),
    decreases updates.len(),
{
    if updates.len() > 0 {
        lemma_upsert_levels_sorted(levels, updates.drop_last(), order);
        lemma_upsert_sorted(upsert_levels(levels, updates.drop_last(), order), updates.last(), order);
    }
}

proof fn lemma_drop_zero_sorted(levels: Seq<LevelView>, order: PriceOrder)
    requires
        sorted_side(levels, order),
    ensures
        sorted_side(drop_zero_levels(levels), order),
    decreases levels.len(),
{
    if levels.len() > 0 {
        let init = levels.drop_last();
        assert(sorted_side(init, order)) by {
            assert forall|i: int, j: int| 0 <= i < j < init.len() implies !ranks_before(
                order,
                (#[trigger] init[j]).price,
                (#[trigger] init[i]).price,
            ) by {
                assert(init[i] == levels[i] && init[j] == levels[j]);
            }
        }
        lemma_drop_zero_sorted(init, order);
        lemma_drop_zero_members(init);
        let rest = drop_zero_levels(init);
        let last = levels.last();
        if !last.size_is_zero {
            let out = rest.push(last);
            assert forall|i: int, j: int| 0 <= i < j < out.len() implies !ranks_before(
                order,
                (#[trigger] out[j]).price,
                (#[trigger] out[i]).price,
            ) by {
                assert(out[i] == rest[i]);
                if j < rest.len() {
                    assert(out[j] == rest[j]);
                } else {
                    let m = choose|m: int| 0 <= m < init.len() && rest[i] == init[m];
                    assert(levels[m] == init[m]);
                    assert(!ranks_before(order, levels[levels.len() - 1].price, levels[m].price));
                }
            }
        }
    }
}

/// A side ordered by price stays ordered through any batch of updates.
pub proof fn lemma_updated_side_sorted(
    levels: Seq<LevelView>,
    updates: Seq<LevelView>,
    order: PriceOrder,
)
    requires
        sorted_side(levels, order),
    ensures
        sorted_side(updated_side(levels, updates, order), order),
{
    lemma_upsert_levels_sorted(levels, updates, order);
    lemma_drop_zero_sorted(upsert_levels(levels, updates, order), order);
}

proof fn lemma_upsert_level_members(levels: Seq<LevelView>, update: LevelView, order: PriceOrder)
    ensures
        forall|i: int|
            0 <= i < upsert_level(levels, update, order).len() ==> (#[trigger] upsert_level(
                levels,
                update,
                order,
            )[i]) == update || levels.contains(upsert_level(levels, update, order)[i]),
{
    lemma_first_price_index(levels, update.price);
    let k = first_price_index(levels, update.price);
    let merged = upsert_level(levels, update, order);
    if k >= 0 {
        assert forall|i: int| 0 <= i < merged.len() implies (#[trigger] merged[i]) == update
            || levels.contains(merged[i]) by {
            if i != k {
                assert(merged[i] == levels[i]);
            }
        }
    } else {
        let p = insert_position(levels, update.price, order);
        lemma_insert_position(levels, update.price, order);
        levels.insert_ensures(p, update);
        assert forall|i: int| 0 <= i < merged.len() implies (#[trigger] merged[i]) == update
            || levels.contains(merged[i]) by {
            if i < p {
                assert(merged[i] == levels[i]);
            } else if i > p {
                assert(merged[(i - 1) + 1] == levels[i - 1]);
            }
        }
    }
}

proof fn lemma_upsert_levels_members(levels: Seq<LevelView>, updates: Seq<LevelView>, order: PriceOrder)
    ensures
        forall|i: int|
            0 <= i < upsert_levels(levels, updates, order).len() ==> (levels + updates).contains(
                #[trigger] upsert_levels(levels, updates, order)[i],
            ),
    decreases updates.len(),
{
    if updates.len() > 0 {
        let front = updates.drop_last();
        lemma_upsert_levels_members(levels, front, order);
        let before = upsert_levels(levels, front, order);
        lemma_upsert_level_members(before, updates.last(), order);
        let merged = upsert_levels(levels, updates, order);
        let all = levels + updates;
        assert forall|i: int| 0 <= i < merged.len() implies all.contains(#[trigger] merged[i]) by {
            if merged[i] == updates.last() {
                assert(all[all.len() - 1] == updates.last());
            } else {
                let m = choose|m: int| 0 <= m < before.len() && before[m] == merged[i];
                assert((levels + front).contains(before[m]));
                let n = choose|n: int| 0 <= n < (levels + front).len() && (levels + front)[n] == before[m];
                assert(all[n] == (levels + front)[n]);
            }
        }
    }
}

proof fn lemma_updated_side_members(levels: Seq<LevelView>, updates: Seq<LevelView>, order: PriceOrder)
    ensures
        forall|i: int|
            0 <= i < updated_side(levels, updates, order).len() ==> (levels + updates).contains(
                #[trigger] updated_side(levels, updates, order)[i],
            ),
        forall|i: int|
            0 <= i < updated_side(levels, updates, order).len() ==> !(
            #[trigger] updated_side(levels, updates, order)[i]).size_is_zero,
{
    let merged = upsert_levels(levels, updates, order);
    lemma_upsert_levels_members(levels, updates, order);
    lemma_drop_zero_members(merged);
    let out = drop_zero_levels(merged);
    assert forall|i: int| 0 <= i < out.len() implies (levels + updates).contains(#[trigger] out[i]) by {
        let j = choose|j: int| 0 <= j < merged.len() && out[i] == merged[j];
        assert((levels + updates).contains(merged[j]));
    }
}

proof fn lemma_read_own_level(levels: Seq<LevelView>, i: int)
    requires
        distinct_prices(levels),
        0 <= i < levels.len(),
    ensures
        level_at_price(levels, levels[i].price) == Some(levels[i]),
{
    assert forall|j: int| 0 <= j < i implies (#[trigger] levels[j]).price != levels[i].price by {}
    lemma_first_price_index_unique(levels, levels[i].price, i);
}

/// The levels whose price is not in `dead`, in order.
spec fn without_prices(levels: Seq<LevelView>, dead: Set<Seq<char>>) -> Seq<LevelView>
    decreases levels.len(),
{
    if levels.len() == 0 {
        levels
    } else {
        let rest = without_prices(levels.drop_last(), dead);
        if dead.contains(levels.last().price) {
            rest
        } else {
            rest.push(levels.last())
        }
    }
}

proof fn lemma_without_concat(a: Seq<LevelView>, b: Seq<LevelView>, dead: Set<Seq<char>>)
    ensures
        without_prices(a + b, dead) == without_prices(a, dead) + without_prices(b, dead),
    decreases b.len(),
{
    if b.len() == 0 {
        assert(a + b =~= a);
        assert(without_prices(a, dead) + without_prices(b, dead) =~= without_prices(a, dead));
    } else {
        lemma_without_concat(a, b.drop_last(), dead);
        assert((a + b).drop_last() =~= a + b.drop_last());
        assert((a + b).last() == b.last());
        let wa = without_prices(a, dead);
        let wb = without_prices(b.drop_last(), dead);
        assert((wa + wb).push(b.last()) =~= wa + wb.push(b.last()));
    }
}

proof fn lemma_without_single(x: LevelView, dead: Set<Seq<char>>)
    ensures
        without_prices(seq![x], dead) == (if dead.contains(x.price) {
            Seq::<LevelView>::empty()
        } else {
            seq![x]
        }),
{
    assert(seq![x].drop_last() =~= Seq::<LevelView>::empty());
    assert(without_prices(Seq::<LevelView>::empty(), dead) =~= Seq::<LevelView>::empty());
    assert(seq![x].last() == x);
    assert(Seq::<LevelView>::empty().push(x) =~= seq![x]);
}

proof fn lemma_without_split(levels: Seq<LevelView>, k: int, dead: Set<Seq<char>>)
    requires
        0 <= k < levels.len(),
    ensures
        without_prices(levels, dead) == without_prices(levels.take(k), dead) + without_prices(
            seq![levels[k]],
            dead,
        ) + without_prices(levels.skip(k + 1), dead),
{
    assert(levels =~= levels.take(k) + seq![levels[k]] + levels.skip(k + 1));
    lemma_without_concat(levels.take(k) + seq![levels[k]], levels.skip(k + 1), dead);
    lemma_without_concat(levels.take(k), seq![levels[k]], dead);
}

proof fn lemma_without_keeps_nothing_dead(levels: Seq<LevelView>, dead: Set<Seq<char>>)
    requires
        forall|i: int| 0 <= i < levels.len() ==> !dead.contains(#[trigger] levels[i].price),
    ensures
        without_prices(levels, dead) == levels,
    decreases levels.len(),
{
    if levels.len() > 0 {
        lemma_without_keeps_nothing_dead(levels.drop_last(), dead);
        assert(levels.drop_last().push(levels.last()) =~= levels);
    }
}

proof fn lemma_drop_zero_is_without(levels: Seq<LevelView>, dead: Set<Seq<char>>)
    requires
        forall|i: int|
            0 <= i < levels.len() ==> (#[trigger] levels[i]).size_is_zero == dead.contains(
                levels[i].price,
            ),
    ensures
        drop_zero_levels(levels) == without_prices(levels, dead),
    decreases levels.len(),
{
    if levels.len() > 0 {
        lemma_drop_zero_is_without(levels.drop_last(), dead);
        assert(levels.last() == levels[levels.len() - 1]);
    }
}

/// The prices whose last update in a batch has size zero.
spec fn dead_prices(updates: Seq<LevelView>) -> Set<Seq<char>> {
    Set::new(|p: Seq<char>| last_update_at(updates, p) matches Some(u) && u.size_is_zero)
}

/// Each level replaced by the last update at its price, if any.
spec fn refreshed(levels: Seq<LevelView>, updates: Seq<LevelView>) -> Seq<LevelView> {
    Seq::new(
        levels.len(),
        |i: int|
            match last_update_at(updates, levels[i].price) {
                Some(u) => u,
                None => levels[i],
            },
    )
}

proof fn lemma_last_update_price(updates: Seq<LevelView>, price: Seq<char>)
    ensures
        last_update_at(updates, price) matches Some(u) ==> u.price == price,
    decreases updates.len(),
{
    if updates.len() > 0 {
        lemma_last_update_price(updates.drop_last(), price);
    }
}

proof fn lemma_last_update_step(updates: Seq<LevelView>, t: int, price: Seq<char>)
    requires
        0 <= t < updates.len(),
    ensures
        last_update_at(updates.take(t + 1), price) == (if updates[t].price == price {
            Some(updates[t])
        } else {
            last_update_at(updates.take(t), price)
        }),
{
    assert(updates.take(t + 1).drop_last() =~= updates.take(t));
    assert(updates.take(t + 1).last() == updates[t]);
}

proof fn lemma_last_update_some(updates: Seq<LevelView>, t: int, price: Seq<char>)
    requires
        0 <= t < updates.len(),
        updates[t].price == price,
    ensures
        last_update_at(updates, price) is Some,
    decreases updates.len(),
{
    if updates.last().price != price {
        assert(updates.drop_last()[t] == updates[t]);
        lemma_last_update_some(updates.drop_last(), t, price);
    }
}

proof fn lemma_without_members(levels: Seq<LevelView>, dead: Set<Seq<char>>)
    ensures
        without_prices(levels, dead).len() <= levels.len(),
        forall|i: int|
            0 <= i < without_prices(levels, dead).len() ==> exists|m: int|
                0 <= m < levels.len() && #[trigger] without_prices(levels, dead)[i] == levels[m],
    decreases levels.len(),
{
    if levels.len() > 0 {
        let init = levels.drop_last();
        lemma_without_members(init, dead);
        let rest = without_prices(init, dead);
        let out = without_prices(levels, dead);
        assert forall|i: int| 0 <= i < out.len() implies exists|m: int|
            0 <= m < levels.len() && #[trigger] out[i] == levels[m] by {
            if i < rest.len() {
                assert(out[i] == rest[i]);
                let m = choose|m: int| 0 <= m < init.len() && rest[i] == init[m];
                assert(levels[m] == init[m]);
            } else {
                assert(out[i] == levels[levels.len() - 1]);
            }
        }
    }
}

/// What holds of the side `s` reached after the first `t` updates of the
/// second pass over `side`.
spec fn pass_invariant(
    side: Seq<LevelView>,
    updates: Seq<LevelView>,
    s: Seq<LevelView>,
    t: int,
) -> bool {
    &&& distinct_prices(s)
    &&& without_prices(s, dead_prices(updates)) == refreshed(side, updates.take(t))
    &&& forall|i: int|
        0 <= i < s.len() && dead_prices(updates).contains(#[trigger] s[i].price)
            ==> last_update_at(updates.take(t), s[i].price) == Some(s[i])
}

/// What the second pass needs of the side left by the first.
spec fn pass_start(side: Seq<LevelView>, updates: Seq<LevelView>) -> bool {
    &&& distinct_prices(side)
    &&& forall|i: int|
        0 <= i < side.len() ==> !dead_prices(updates).contains(#[trigger] side[i].price)
    &&& forall|p: Seq<char>|
        !dead_prices(updates).contains(p) && #[trigger] last_update_at(updates, p) is Some
            ==> exists|i: int| 0 <= i < side.len() && side[i].price == p
}

proof fn lemma_step_dead(
    side: Seq<LevelView>,
    updates: Seq<LevelView>,
    order: PriceOrder,
    t0: int,
    s: Seq<LevelView>,
)
    requires
        0 <= t0 < updates.len(),
        pass_start(side, updates),
        pass_invariant(side, updates, s, t0),
        dead_prices(updates).contains(updates[t0].price),
    ensures
        pass_invariant(side, updates, upsert_level(s, updates[t0], order), t0 + 1),
{
    let dead = dead_prices(updates);
    let u = updates[t0];
    let p = u.price;
    let t = t0 + 1;
    let s2 = upsert_level(s, u, order);
    lemma_upsert_distinct(s, u, order);
    lemma_first_price_index(s, p);
    let k = first_price_index(s, p);
    let before = refreshed(side, updates.take(t0));
    let after = refreshed(side, updates.take(t));
    assert forall|q: Seq<char>| q != p implies #[trigger] last_update_at(updates.take(t), q)
        == last_update_at(updates.take(t0), q) by {
        lemma_last_update_step(updates, t0, q);
    }
    lemma_last_update_step(updates, t0, p);
    assert forall|i: int| 0 <= i < side.len() implies side[i].price != p by {
        assert(!dead.contains(side[i].price));
    }
    assert(after =~= before);
    if k >= 0 {
        lemma_without_split(s, k, dead);
        lemma_without_split(s2, k, dead);
        assert(s2.take(k) =~= s.take(k));
        assert(s2.skip(k + 1) =~= s.skip(k + 1));
        lemma_without_single(s[k], dead);
        lemma_without_single(u, dead);
        assert forall|i: int|
            0 <= i < s2.len() && dead.contains(#[trigger] s2[i].price) implies last_update_at(
            updates.take(t),
            s2[i].price,
        ) == Some(s2[i]) by {
            if i != k {
                assert(s[i].price != s[k].price);
            }
        }
    } else {
        let pos = insert_position(s, p, order);
        lemma_insert_position(s, p, order);
        s.insert_ensures(pos, u);
        assert(s2 =~= s.take(pos) + seq![u] + s.skip(pos));
        assert(s =~= s.take(pos) + s.skip(pos));
        lemma_without_concat(s.take(pos) + seq![u], s.skip(pos), dead);
        lemma_without_concat(s.take(pos), seq![u], dead);
        lemma_without_concat(s.take(pos), s.skip(pos), dead);
        lemma_without_single(u, dead);
        assert(without_prices(s.take(pos), dead) + Seq::<LevelView>::empty() =~= without_prices(
            s.take(pos),
            dead,
        ));
        assert forall|i: int|
            0 <= i < s2.len() && dead.contains(#[trigger] s2[i].price) implies last_update_at(
            updates.take(t),
            s2[i].price,
        ) == Some(s2[i]) by {
            if i < pos {
                assert(s2[i] == s[i]);
            } else if i > pos {
                assert(s2[(i - 1) + 1] == s[i - 1]);
            }
        }
    }
}

proof fn lemma_step_live(
    side: Seq<LevelView>,
    updates: Seq<LevelView>,
    order: PriceOrder,
    t0: int,
    s: Seq<LevelView>,
)
    requires
        0 <= t0 < updates.len(),
        pass_start(side, updates),
        pass_invariant(side, updates, s, t0),
        !dead_prices(updates).contains(updates[t0].price),
    ensures
        pass_invariant(side, updates, upsert_level(s, updates[t0], order), t0 + 1),
{
    let dead = dead_prices(updates);
    let u = updates[t0];
    let p = u.price;
    let t = t0 + 1;
    let s2 = upsert_level(s, u, order);
    lemma_upsert_distinct(s, u, order);
    lemma_first_price_index(s, p);
    let k = first_price_index(s, p);
    let before = refreshed(side, updates.take(t0));
    let after = refreshed(side, updates.take(t));
    assert forall|q: Seq<char>| q != p implies #[trigger] last_update_at(updates.take(t), q)
        == last_update_at(updates.take(t0), q) by {
        lemma_last_update_step(updates, t0, q);
    }
    lemma_last_update_step(updates, t0, p);
    lemma_last_update_some(updates, t0, p);
    let j = choose|j: int| 0 <= j < side.len() && side[j].price == p;
    lemma_last_update_price(updates.take(t0), p);
    assert(before[j].price == p);
    if k < 0 {
        lemma_without_members(s, dead);
        assert(without_prices(s, dead)[j] == before[j]);
        let m = choose|m: int| 0 <= m < s.len() && without_prices(s, dead)[j] == s[m];
        assert(s[m].price == p);
        assert(false);
    }
    assert(s2 == s.update(k, u));
    lemma_without_split(s, k, dead);
    lemma_without_split(s2, k, dead);
    assert(s2.take(k) =~= s.take(k));
    assert(s2.skip(k + 1) =~= s.skip(k + 1));
    lemma_without_single(s[k], dead);
    lemma_without_single(u, dead);
    let a = without_prices(s.take(k), dead);
    let b = without_prices(s.skip(k + 1), dead);
    assert(without_prices(s2, dead) =~= (a + seq![s[k]] + b).update(a.len() as int, u));
    assert((a + seq![s[k]] + b)[a.len() as int] == s[k]);
    let ja = a.len() as int;
    assert(before[ja] == s[k]);
    lemma_last_update_price(updates.take(t0), side[ja].price);
    assert(side[ja].price == p);
    if ja != j {
        assert(side[ja].price != side[j].price);
    }
    assert forall|i: int| 0 <= i < side.len() implies after[i] == before.update(j, u)[i] by {
        if i != j {
            assert(side[i].price != side[j].price);
        }
    }
    assert(after =~= before.update(j, u));
    assert forall|i: int|
        0 <= i < s2.len() && dead.contains(#[trigger] s2[i].price) implies last_update_at(
        updates.take(t),
        s2[i].price,
    ) == Some(s2[i]) by {
        if i != k {
            assert(s[i].price != s[k].price);
        }
    }
}

/// The second pass of a batch over the side that the first pass left keeps
/// the invariant at every step.
proof fn lemma_second_pass(side: Seq<LevelView>, updates: Seq<LevelView>, order: PriceOrder, t: int)
    requires
        0 <= t <= updates.len(),
        pass_start(side, updates),
    ensures
        pass_invariant(side, updates, upsert_levels(side, updates.take(t), order), t),
    decreases t,
{
    if t == 0 {
        assert(updates.take(0) =~= Seq::<LevelView>::empty());
        lemma_without_keeps_nothing_dead(side, dead_prices(updates));
        assert(refreshed(side, updates.take(0)) =~= side);
    } else {
        lemma_second_pass(side, updates, order, t - 1);
        assert(updates.take(t).drop_last() =~= updates.take(t - 1));
        assert(updates.take(t).last() == updates[t - 1]);
        let s = upsert_levels(side, updates.take(t - 1), order);
        if dead_prices(updates).contains(updates[t - 1].price) {
            lemma_step_dead(side, updates, order, t - 1, s);
        } else {
            lemma_step_live(side, updates, order, t - 1, s);
        }
    }
}

/// Applying the same batch of updates twice leaves a side with distinct
/// prices as applying it once.
pub proof fn lemma_update_side_idempotent(
    levels: Seq<LevelView>,
    updates: Seq<LevelView>,
    order: PriceOrder,
)
    requires
        distinct_prices(levels),
    ensures
        updated_side(updated_side(levels, updates, order), updates, order) == updated_side(
            levels,
            updates,
            order,
        ),
{
    let once = updated_side(levels, updates, order);
    let dead = dead_prices(updates);
    lemma_updated_side_distinct(levels, updates, order);
    lemma_updated_side_members(levels, updates, order);
    assert forall|i: int| 0 <= i < once.len() implies !dead.contains(#[trigger] once[i].price)
        && (last_update_at(updates, once[i].price) matches Some(u) ==> u == once[i]) by {
        lemma_read_own_level(once, i);
        lemma_updated_side_reads(levels, updates, order, once[i].price);
    }
    assert forall|q: Seq<char>|
        !dead.contains(q) && #[trigger] last_update_at(updates, q) is Some implies exists|i: int|
        0 <= i < once.len() && once[i].price == q by {
        lemma_updated_side_reads(levels, updates, order, q);
        lemma_last_update_price(updates, q);
        lemma_first_price_index(once, q);
        let k = first_price_index(once, q);
        assert(once[k].price == q);
    }
    lemma_second_pass(once, updates, order, updates.len() as int);
    assert(updates.take(updates.len() as int) =~= updates);
    let twice = upsert_levels(once, updates, order);
    assert(refreshed(once, updates) =~= once);
    assert forall|i: int| 0 <= i < twice.len() implies (#[trigger] twice[i]).size_is_zero
        == dead.contains(twice[i].price) by {
        if dead.contains(twice[i].price) {
            assert(last_update_at(updates, twice[i].price) == Some(twice[i]));
        } else {
            lemma_without_split(twice, i, dead);
            lemma_without_single(twice[i], dead);
            let a = without_prices(twice.take(i), dead);
            assert(without_prices(twice, dead)[a.len() as int] == twice[i]);
        }
    }
    lemma_drop_zero_is_without(twice, dead);
}

/// The index of the first level at `price`.
fn find_price(levels: &Vec<OrderBookLevel>, price: &String) -> (r: Option<usize>)
    ensures
        match r {
            Some(k) => first_price_index(levels_view(levels@), price@) == k,
            None => first_price_index(levels_view(levels@), price@) == -1,
        },
{
    let ghost view = levels_view(levels@);
    let mut i: usize = 0;
    while i < levels.len()
        invariant
            i <= levels@.len(),
            view == levels_view(levels@),
            forall|j: int| 0 <= j < i ==> (#[trigger] view[j]).price != price@,
        decreases levels@.len() - i,
    {
        if levels[i].price == *price {
            proof {
                lemma_first_price_index_unique(view, price@, i as int);
            }
            return Some(i);
        }
        i = i + 1;
    }
    proof {
        lemma_no_price_index(view, price@);
    }
    None
}

/// A level at price `a` belongs before a level at price `b`.
pub fn price_ranks_before(order: PriceOrder, a: &str, b: &str) -> (r: bool)
    ensures
        r == ranks_before(order, a@, b@),
{
    match order {
        PriceOrder::LowestFirst => is_lower_price(a, b),
        PriceOrder::HighestFirst => is_lower_price(b, a),
    }
}

/// Where a level at a new price goes in a side.
fn find_insert_position(levels: &Vec<OrderBookLevel>, price: &String, order: PriceOrder) -> (r:
    usize)
    ensures
        r == insert_position(levels_view(levels@), price@, order),
{
    let ghost view = levels_view(levels@);
    let mut i: usize = 0;
    while i < levels.len() && !price_ranks_before(order, price.as_str(), levels[i].price.as_str())
        invariant
            i <= levels@.len(),
            view == levels_view(levels@),
            forall|j: int| 0 <= j < i ==> !ranks_before(order, price@, (#[trigger] view[j]).price),
        decreases levels@.len() - i,
    {
        i = i + 1;
    }
    proof {
        lemma_insert_position(view, price@, order);
        let p = insert_position(view, price@, order);
        if p < i {
            assert(!ranks_before(order, price@, view[p].price));
        } else if p > i {
            assert(ranks_before(order, price@, view[i as int].price));
        }
    }
    i
}

/// Merges a batch of updates into one side of a book: an update replaces
/// the level at its price, or goes in at its place in the side's price order;
/// then every level of size zero is dropped. A side that was ordered stays ordered.
pub fn update_side(levels: &mut Vec<OrderBookLevel>, updates: &[OrderBookLevel], order: PriceOrder)
    ensures
        levels_view(final(levels)@) == updated_side(
            levels_view(old(levels)@),
            levels_view(updates@),
            order,
        ),
        forall|i: int|
            0 <= i < final(levels)@.len() ==> !(#[trigger] final(levels)@[i]).size_is_zero,
        sorted_side(levels_view(old(levels)@), order) ==> sorted_side(
            levels_view(final(levels)@),
            order,
        ),
{
    let ghost start = levels_view(levels@);
    let ghost batch = levels_view(updates@);
    let mut i: usize = 0;
    proof {
        assert(batch.take(0) =~= Seq::<LevelView>::empty());
    }
    while i < updates.len()
        invariant
            i <= updates@.len(),
            start == levels_view(old(levels)@),
            batch == levels_view(updates@),
            levels_view(levels@) == upsert_levels(start, batch.take(i as int), order),
        decreases updates@.len() - i,
    {
        let update = updates[i].clone();
        let ghost before = levels_view(levels@);
        let found = find_price(levels, &updates[i].price);
        proof {
            lemma_first_price_index(before, batch[i as int].price);
            assert(update@ == batch[i as int]);
        }
        match found {
            Some(k) => {
                levels.set(k, update);
                proof {
                    assert(levels_view(levels@) =~= before.update(k as int, batch[i as int]));
                }
            },
            None => {
                let at = find_insert_position(levels, &updates[i].price, order);
                proof {
                    lemma_insert_position(before, batch[i as int].price, order);
                }
                levels.insert(at, update);
                proof {
                    assert(levels_view(levels@) =~= before.insert(at as int, batch[i as int]));
                }
            },
        }
        proof {
            assert(batch.take(i + 1).drop_last() =~= batch.take(i as int));
            assert(batch.take(i + 1).last() == batch[i as int]);
        }
        i = i + 1;
    }
    proof {
        assert(batch.take(updates@.len() as int) =~= batch);
    }
    let ghost merged = levels_view(levels@);
    let mut kept: Vec<OrderBookLevel> = Vec::new();
    let mut j: usize = 0;
    proof {
        assert(merged.take(0) =~= Seq::<LevelView>::empty());
    }
    while j < levels.len()
        invariant
            j <= levels@.len(),
            merged == levels_view(levels@),
            levels_view(kept@) == drop_zero_levels(merged.take(j as int)),
        decreases levels@.len() - j,
    {
        proof {
            assert(merged.take(j + 1).drop_last() =~= merged.take(j as int));
            assert(merged.take(j + 1).last() == merged[j as int]);
        }
        if !levels[j].size_is_zero {
            let ghost before = levels_view(kept@);
            kept.push(levels[j].clone());
            proof {
                assert(levels_view(kept@) =~= before.push(merged[j as int]));
            }
        }
        j = j + 1;
    }
    proof {
        assert(merged.take(levels@.len() as int) =~= merged);
        lemma_drop_zero_members(merged);
        assert forall|i: int| 0 <= i < kept@.len() implies !(#[trigger] kept@[i]).size_is_zero by {
            assert(levels_view(kept@)[i] == kept@[i]@);
        }
        if sorted_side(start, order) {
            lemma_updated_side_sorted(start, batch, order);
        }
    }
    *levels = kept;
}


/// Both sides of a book, as plain values.
pub struct BookView {
    pub asks: Seq<LevelView>,
    pub bids: Seq<LevelView>,
}

/// Both sides of an order book as a message carries them.
#[derive(Debug)]
pub struct OrderBookPayload {
    pub asks: Vec<OrderBookLevel>,
    pub bids: Vec<OrderBookLevel>,
}

/// An order-book message: the channel it came on and the book it carries.
#[derive(Debug)]
pub struct OrderBookEnvelope {
    pub channel: String,
    pub order_book: OrderBookPayload,
}

/// The levels that changed in one order-book update.
#[derive(Debug)]
pub struct OrderBookDelta {
    pub asks: Vec<OrderBookLevel>,
    pub bids: Vec<OrderBookLevel>,
}

/// The current levels of one market's order book.
#[derive(Debug)]
pub struct OrderBookState {
    pub asks: Vec<OrderBookLevel>,
    pub bids: Vec<OrderBookLevel>,
}

impl View for OrderBookPayload {
    type V = BookView;

    open spec fn view(&self) -> BookView {
        BookView { asks: levels_view(self.asks@), bids: levels_view(self.bids@) }
    }
}

impl View for OrderBookDelta {
    type V = BookView;

    open spec fn view(&self) -> BookView {
        BookView { asks: levels_view(self.asks@), bids: levels_view(self.bids@) }
    }
}

impl View for OrderBookState {
    type V = BookView;

    open spec fn view(&self) -> BookView {
        BookView { asks: levels_view(self.asks@), bids: levels_view(self.bids@) }
    }
}

/// A book after a delta: each side is updated with the delta's side, asks
/// lowest price first and bids highest price first.
pub open spec fn book_after_delta(book: BookView, delta: BookView) -> BookView {
    BookView {
        asks: updated_side(book.asks, delta.asks, PriceOrder::LowestFirst),
        bids: updated_side(book.bids, delta.bids, PriceOrder::HighestFirst),
    }
}

/// Asks run from the lowest price up and bids from the highest price down,
/// so the first of each is the best.
pub open spec fn book_ordered(book: BookView) -> bool {
    sorted_side(book.asks, PriceOrder::LowestFirst) && sorted_side(
        book.bids,
        PriceOrder::HighestFirst,
    )
}

impl Clone for OrderBookPayload {
    fn clone(&self) -> (r: Self)
        ensures
            r@ == self@,
    {
        OrderBookPayload { asks: clone_levels(&self.asks), bids: clone_levels(&self.bids) }
    }
}

impl Clone for OrderBookDelta {
    fn clone(&self) -> (r: Self)
        ensures
            r@ == self@,
    {
        OrderBookDelta { asks: clone_levels(&self.asks), bids: clone_levels(&self.bids) }
    }
}

impl Clone for OrderBookState {
    fn clone(&self) -> (r: Self)
        ensures
            r@ == self@,
    {
        OrderBookState { asks: clone_levels(&self.asks), bids: clone_levels(&self.bids) }
    }
}

impl OrderBookDelta {
    /// The delta carried by an update message.
    pub fn from_payload(payload: OrderBookPayload) -> (delta: Self)
        ensures
            delta@ == payload@,
    {
        OrderBookDelta { asks: payload.asks, bids: payload.bids }
    }
}

impl OrderBookState {
    /// The book carried by a snapshot message.
    pub fn from_payload(payload: OrderBookPayload) -> (state: Self)
        ensures
            state@ == payload@,
    {
        OrderBookState { asks: payload.asks, bids: payload.bids }
    }

    /// A book made of the levels of a delta, for a market that had none yet.
    pub fn from_delta(delta: &OrderBookDelta) -> (state: Self)
        ensures
            state@ == delta@,
    {
        OrderBookState { asks: clone_levels(&delta.asks), bids: clone_levels(&delta.bids) }
    }

    /// Merges a delta into both sides of the book; an ordered book stays ordered.
    pub fn apply_delta(&mut self, delta: &OrderBookDelta)
        ensures
            final(self)@ == book_after_delta(old(self)@, delta@),
            book_ordered(old(self)@) ==> book_ordered(final(self)@),
    {
        update_side(&mut self.asks, &delta.asks, PriceOrder::LowestFirst);
        update_side(&mut self.bids, &delta.bids, PriceOrder::HighestFirst);
    }
}

} // verus!
