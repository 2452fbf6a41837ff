//! A minimal open-order register.
//!
//! This book only records and removes resting orders and reports depth; it
//! performs no matching. Each side is a list of price levels in insertion
//! order, one level per distinct price.

use vstd::prelude::*;

use crate::levels::find_price_index;
use crate::levels::lemma_find_price_index_is;

verus! {

/// Side of the register an open order sits on.
#[derive(Copy, Clone, PartialEq, Eq, Structural, Debug)]
pub enum Side {
    Buy,
    Sell,
}

/// A resting order as the register stores it.
#[derive(Clone, Debug)]
pub struct OpenOrder {
    pub price: u64,
    pub quantity: u64,
    pub side: Side,
    pub user_id: String,
    pub order_id: u64,
    pub filled_quantity: u64,
}

/// A request to open an order.
#[derive(Clone, Debug)]
pub struct CreateOrder {
    pub price: u64,
    pub quantity: u64,
    pub user_id: String,
    pub side: Side,
}

/// A request to remove an order by its register-assigned id.
#[derive(Copy, Clone, PartialEq, Eq, Structural, Debug)]
pub struct DeleteOrder {
    pub order_id: u64,
}

/// Aggregate resting quantity at one price.
#[derive(Copy, Clone, PartialEq, Eq, Structural, Debug)]
pub struct Depth {
    pub price: u64,
    pub quantity: u64,
}

/// Depth of both sides of the register.
#[derive(Clone, Debug)]
pub struct DepthResponse {
    pub bids: Vec<Depth>,
    pub asks: Vec<Depth>,
}

/// The register: buy and sell levels plus the id counter for new orders.
pub struct Orderbook {
    pub bids: Vec<(u64, Vec<OpenOrder>)>,
    pub asks: Vec<(u64, Vec<OpenOrder>)>,
    pub order_id_index: u64,
}

/// Total quantity resting in a queue.
pub open spec fn sum_quantity(s: Seq<OpenOrder>) -> int
    decreases s.len(),
{
    if s.len() == 0 {
        0
    } else {
        sum_quantity(s.drop_last()) + s.last().quantity
    }
}

/// A queue total is no smaller than any of its prefix totals, and never
/// negative.
pub proof fn lemma_sum_quantity_prefix(s: Seq<OpenOrder>, i: int)
    requires
        0 <= i <= s.len(),
    ensures
        0 <= sum_quantity(s.take(i)) <= sum_quantity(s),
    decreases s.len(),
{
    if i == s.len() {
        assert(s.take(i) =~= s);
        if s.len() > 0 {
            lemma_sum_quantity_prefix(s.drop_last(), s.len() - 1);
        }
    } else {
        assert(s.len() > 0);
        assert(s.drop_last().take(i) =~= s.take(i));
        lemma_sum_quantity_prefix(s.drop_last(), i);
    }
}

/// The queue with every order of the given id removed, order otherwise kept.
pub open spec fn without_order_id(s: Seq<OpenOrder>, order_id: u64) -> Seq<OpenOrder>
    decreases s.len(),
{
    if s.len() == 0 {
        s
    } else if s[0].order_id == order_id {
        without_order_id(s.skip(1), order_id)
    } else {
        seq![s[0]] + without_order_id(s.skip(1), order_id)
    }
}

/// Whether some order in the queue has the given id.
pub open spec fn queue_has_id(s: Seq<OpenOrder>, order_id: u64) -> bool {
    exists|j: int| 0 <= j < s.len() && s[j].order_id == order_id
}

/// Index of the first level holding an order with the given id, or `-1`.
pub open spec fn find_level_with_id(s: Seq<(u64, Vec<OpenOrder>)>, order_id: u64) -> int
    decreases s.len(),
{
    if s.len() == 0 {
        -1
    } else if queue_has_id(s[0].1@, order_id) {
        0
    } else {
        let r = find_level_with_id(s.skip(1), order_id);
        if r < 0 {
            -1
        } else {
            r + 1
        }
    }
}

/// A scan that saw no hit before `k` and a hit at `k` (or none at all)
/// determines [`find_level_with_id`].
pub proof fn lemma_find_level_with_id_is(s: Seq<(u64, Vec<OpenOrder>)>, order_id: u64, k: int)
    requires
        0 <= k <= s.len(),
        forall|i: int| 0 <= i < k ==> !queue_has_id((#[trigger] s[i]).1@, order_id),
        k < s.len() ==> queue_has_id(s[k].1@, order_id),
    ensures
        find_level_with_id(s, order_id) == if k == s.len() {
            -1int
        } else {
            k
        },
    decreases s.len(),
{
    if s.len() > 0 && k > 0 {
        lemma_find_level_with_id_is(s.skip(1), order_id, k - 1);
    }
}

/// No two levels of one side share a price.
pub open spec fn keys_unique(s: Seq<(u64, Vec<OpenOrder>)>) -> bool {
    forall|i: int, j: int| 0 <= i < j < s.len() ==> (#[trigger] s[i]).0 != (#[trigger] s[j]).0
}

/// How one side looks after appending an open order: pushed onto the tail of
/// its price's queue, with a fresh level at the end of the side if the price
/// is new.
pub open spec fn side_with_appended(
    pre: Seq<(u64, Vec<OpenOrder>)>,
    post: Seq<(u64, Vec<OpenOrder>)>,
    o: OpenOrder,
) -> bool {
    let k = find_price_index(pre, o.price);
    if k == -1 {
        &&& post.len() == pre.len() + 1
        &&& post.take(pre.len() as int) == pre
        &&& post.last().0 == o.price
        &&& post.last().1@ == seq![o]
    } else {
        &&& post.len() == pre.len()
        &&& forall|i: int| 0 <= i < pre.len() && i != k ==> post[i] == pre[i]
        &&& post[k].0 == pre[k].0
        &&& post[k].1@ == pre[k].1@.push(o)
    }
}

/// How one side looks after a deletion request: the first level holding the
/// id loses every order with that id, all else is untouched. An emptied
/// level keeps its key, as the register never drops levels.
pub open spec fn side_with_deleted(
    pre: Seq<(u64, Vec<OpenOrder>)>,
    post: Seq<(u64, Vec<OpenOrder>)>,
    order_id: u64,
) -> bool {
    let k = find_level_with_id(pre, order_id);
    if k == -1 {
        post == pre
    } else {
        &&& post.len() == pre.len()
        &&& forall|i: int| 0 <= i < pre.len() && i != k ==> post[i] == pre[i]
        &&& post[k].0 == pre[k].0
        &&& post[k].1@ == without_order_id(pre[k].1@, order_id)
    }
}

/// The open order that a creation request yields under the given id.
pub open spec fn spec_open_order(order: CreateOrder, order_id: u64) -> OpenOrder {
    OpenOrder {
        price: order.price,
        quantity: order.quantity,
        side: order.side,
        user_id: order.user_id,
        order_id,
        filled_quantity: 0,
    }
}

impl Orderbook {
    /// One level per price on each side.
    pub open spec fn wf(self) -> bool {
        keys_unique(self.bids@) && keys_unique(self.asks@)
    }
}

impl Default for Orderbook {
    /// An empty register.
    fn default() -> (r: Self)
        ensures
            r.bids@.len() == 0,
            r.asks@.len() == 0,
            r.order_id_index == 0,
    {
        Orderbook { bids: Vec::new(), asks: Vec::new(), order_id_index: 0 }
    }
}

/// Appends `order` to the queue of its price level, creating the level at
/// the tail of the side if the price is new.
fn push_level(levels: &mut Vec<(u64, Vec<OpenOrder>)>, order: OpenOrder)
    requires
        keys_unique(old(levels)@),
    ensures
        keys_unique(final(levels)@),
        side_with_appended(old(levels)@, final(levels)@, order),
{
    let ghost pre = levels@;
    let mut i: usize = 0;
    while i < levels.len()
        invariant
            0 <= i <= levels@.len(),
            pre == old(levels)@,
            levels@ == pre,
            keys_unique(pre),
            forall|j: int| 0 <= j < i ==> (#[trigger] pre[j]).0 != order.price,
        decreases levels@.len() - i,
    {
        if levels[i].0 == order.price {
            proof {
                lemma_find_price_index_is(pre, order.price, i as int);
            }
            let (p, mut q) = levels.remove(i);
            q.push(order);
            levels.insert(i, (p, q));
            proof {
                assert forall|j: int| 0 <= j < pre.len() && j != i implies levels@[j] == pre[j] by {
                    assert(levels@[j] == pre.remove(i as int).insert(i as int, levels@[i as int])[j]);
                }
                assert forall|x: int| 0 <= x < levels@.len() implies (#[trigger] levels@[x]).0
                    == pre[x].0 by {}
                assert(side_with_appended(pre, levels@, order));
            }
            return ;
        }
        i += 1;
    }
    proof {
        lemma_find_price_index_is(pre, order.price, pre.len() as int);
    }
    let mut q: Vec<OpenOrder> = Vec::new();
    q.push(order);
    levels.push((q[0].price, q));
    proof {
        assert(levels@.take(pre.len() as int) =~= pre);
    }
}

/// Removes every order with the given id from the first level that holds
/// one; a side without the id is left as it was.
fn delete_from_side(levels: &mut Vec<(u64, Vec<OpenOrder>)>, order_id: u64)
    requires
        keys_unique(old(levels)@),
    ensures
        keys_unique(final(levels)@),
        side_with_deleted(old(levels)@, final(levels)@, order_id),
{
    let ghost pre = levels@;
    let mut i: usize = 0;
    while i < levels.len()
        invariant
            0 <= i <= levels@.len(),
            pre == old(levels)@,
            levels@ == pre,
            keys_unique(pre),
            forall|j: int| 0 <= j < i ==> !queue_has_id((#[trigger] pre[j]).1@, order_id),
        decreases levels@.len() - i,
    {
        if level_has_id(&levels[i].1, order_id) {
            proof {
                lemma_find_level_with_id_is(pre, order_id, i as int);
            }
            let (p, mut q) = levels.remove(i);
            let mut kept: Vec<OpenOrder> = Vec::new();
            let ghost q0 = q@;
            while q.len() > 0
                invariant
                    without_order_id(q0, order_id) == kept@ + without_order_id(q@, order_id),
                decreases q@.len(),
            {
                let ghost qv = q@;
                let o = q.remove(0);
                if o.order_id != order_id {
                    kept.push(o);
                }
                proof {
                    assert(qv.skip(1) =~= q@);
                    if o.order_id != order_id {
                        assert(kept@ + without_order_id(q@, order_id) =~= kept@.drop_last() + (
                        seq![o] + without_order_id(q@, order_id)));
                    }
                }
            }
            proof {
                assert(without_order_id(q0, order_id) =~= kept@);
            }
            levels.insert(i, (p, kept));
            proof {
                assert forall|j: int| 0 <= j < pre.len() && j != i implies levels@[j] == pre[j] by {
                    assert(levels@[j] == pre.remove(i as int).insert(i as int, levels@[i as int])[j]);
                }
                assert forall|x: int| 0 <= x < levels@.len() implies (#[trigger] levels@[x]).0
                    == pre[x].0 by {}
                assert(side_with_deleted(pre, levels@, order_id));
            }
            return ;
        }
        i += 1;
    }
    proof {
        lemma_find_level_with_id_is(pre, order_id, pre.len() as int);
    }
}

/// Whether the queue holds an order with the given id.
fn level_has_id(q: &Vec<OpenOrder>, order_id: u64) -> (r: bool)
    ensures
        r == queue_has_id(q@, order_id),
{
    let mut j: usize = 0;
    while j < q.len()
        invariant
            0 <= j <= q@.len(),
            forall|m: int| 0 <= m < j ==> (#[trigger] q@[m]).order_id != order_id,
        decreases q@.len() - j,
    {
        if q[j].order_id == order_id {
            return true;
        }
        j += 1;
    }
    false
}

/// Total quantity resting in a queue.
fn level_quantity(q: &Vec<OpenOrder>) -> (r: u64)
    requires
        sum_quantity(q@) <= u64::MAX,
    ensures
        r == sum_quantity(q@),
{
    let mut acc: u64 = 0;
    let mut j: usize = 0;
    while j < q.len()
        invariant
            0 <= j <= q@.len(),
            sum_quantity(q@) <= u64::MAX,
            acc == sum_quantity(q@.take(j as int)),
        decreases q@.len() - j,
    {
        proof {
            assert(q@.take(j + 1).drop_last() =~= q@.take(j as int));
            assert(q@.take(j + 1).last() == q@[j as int]);
            lemma_sum_quantity_prefix(q@, j + 1);
        }
        acc = acc + q[j].quantity;
        j += 1;
    }
    proof {
        assert(q@.take(q@.len() as int) =~= q@);
    }
    acc
}

impl Orderbook {
    /// Opens a new order: assigns it the next id and appends it to the tail
    /// of its price level on its side.
    pub fn create_order(&mut self, order: CreateOrder)
        requires
            old(self).wf(),
            old(self).order_id_index < u64::MAX,
        ensures
            final(self).wf(),
            final(self).order_id_index == old(self).order_id_index + 1,
            order.side == Side::Buy ==> final(self).asks@ == old(self).asks@
                && side_with_appended(
                old(self).bids@,
                final(self).bids@,
                spec_open_order(order, old(self).order_id_index),
            ),
            order.side == Side::Sell ==> final(self).bids@ == old(self).bids@
                && side_with_appended(
                old(self).asks@,
                final(self).asks@,
                spec_open_order(order, old(self).order_id_index),
            ),
    {
        let order_id = self.order_id_index;
        self.order_id_index = self.order_id_index + 1;
        let side = order.side;
        let open_order = OpenOrder {
            price: order.price,
            quantity: order.quantity,
            side: order.side,
            user_id: order.user_id,
            order_id,
            filled_quantity: 0,
        };
        match side {
            Side::Buy => push_level(&mut self.bids, open_order),
            Side::Sell => push_level(&mut self.asks, open_order),
        }
    }

    /// Removes the order with the requested id from both sides. A side that
    /// does not hold the id is untouched; an unknown id leaves the register
    /// unchanged.
    pub fn delete_order(&mut self, order: DeleteOrder)
        requires
            old(self).wf(),
        ensures
            final(self).wf(),
            final(self).order_id_index == old(self).order_id_index,
            side_with_deleted(old(self).bids@, final(self).bids@, order.order_id),
            side_with_deleted(old(self).asks@, final(self).asks@, order.order_id),
    {
        delete_from_side(&mut self.bids, order.order_id);
        delete_from_side(&mut self.asks, order.order_id);
    }

    /// Reports, for each level of each side, the price and the total resting
    /// quantity, in the order the levels are stored.
    pub fn get_depth(&mut self) -> (r: DepthResponse)
        requires
            forall|i: int|
                0 <= i < old(self).bids@.len() ==> sum_quantity(
                    (#[trigger] old(self).bids@[i]).1@,
                ) <= u64::MAX,
            forall|i: int|
                0 <= i < old(self).asks@.len() ==> sum_quantity(
                    (#[trigger] old(self).asks@[i]).1@,
                ) <= u64::MAX,
        ensures
            *final(self) == *old(self),
            r.bids@.len() == old(self).bids@.len(),
            forall|i: int|
                0 <= i < old(self).bids@.len() ==> (#[trigger] r.bids@[i]).price == old(
                    self,
                ).bids@[i].0 && r.bids@[i].quantity == sum_quantity(old(self).bids@[i].1@),
            r.asks@.len() == old(self).asks@.len(),
            forall|i: int|
                0 <= i < old(self).asks@.len() ==> (#[trigger] r.asks@[i]).price == old(
                    self,
                ).asks@[i].0 && r.asks@[i].quantity == sum_quantity(old(self).asks@[i].1@),
    {
        let bids = depth_of_side(&self.bids);
        let asks = depth_of_side(&self.asks);
        DepthResponse { bids, asks }
    }
}

/// Depth entries of one side, level by level.
fn depth_of_side(levels: &Vec<(u64, Vec<OpenOrder>)>) -> (r: Vec<Depth>)
    requires
        forall|i: int|
            0 <= i < levels@.len() ==> sum_quantity((#[trigger] levels@[i]).1@) <= u64::MAX,
    ensures
        r@.len() == levels@.len(),
        forall|i: int|
            0 <= i < levels@.len() ==> (#[trigger] r@[i]).price == levels@[i].0
                && r@[i].quantity == sum_quantity(levels@[i].1@),
{
    let mut r: Vec<Depth> = Vec::new();
    let mut i: usize = 0;
    while i < levels.len()
        invariant
            0 <= i <= levels@.len(),
            forall|k: int|
                0 <= k < levels@.len() ==> sum_quantity((#[trigger] levels@[k]).1@) <= u64::MAX,
            r@.len() == i,
            forall|k: int|
                0 <= k < i ==> (#[trigger] r@[k]).price == levels@[k].0 && r@[k].quantity
                    == sum_quantity(levels@[k].1@),
        decreases levels@.len() - i,
    {
        let quantity = level_quantity(&levels[i].1);
        r.push(Depth { price: levels[i].0, quantity });
        i += 1;
    }
    r
}

} // verus!
