use rand::distributions::Distribution;
use vstd::prelude::*;

verus! {

/// Levels per side of the book.
pub const MAX_LEVELS: usize = 10;

/// Smallest price step between neighbouring levels.
pub const MIN_PRICE_STEP: u32 = 1;

/// Price steps are drawn below this bound.
pub const MAX_PRICE_STEP: u32 = 10;

/// Smallest level size.
pub const MIN_SIZE: u32 = 1;

/// Sizes are drawn below this bound.
pub const MAX_SIZE: u32 = 1000;

/// Price and size of one order-book level.
#[derive(Clone, Copy, Debug)]
pub struct PxSz {
    pub price: u32,
    pub size: u32,
}

impl PxSz {
    /// A level of price and size zero.
    pub fn new() -> (r: PxSz)
        ensures
            r.price == 0,
            r.size == 0,
    {
        PxSz { price: 0, size: 0 }
    }
}

/// A two-sided book of fixed capacity, levels sorted away from the spread.
/// Only the first `bid_num` bids and `ask_num` asks are occupied; the book is
/// overwritten in place and never reallocated.
pub struct OrderBook {
    pub asks: Vec<PxSz>,
    pub bids: Vec<PxSz>,
    pub ask_num: usize,
    pub bid_num: usize,
}

/// Sum of the price steps of the first `n` draws.
pub open spec fn steps_sum(d: Seq<(u32, u32)>, n: int) -> int
    decreases n,
{
    if n <= 0 || n > d.len() {
        0
    } else {
        steps_sum(d, n - 1) + d[n - 1].0
    }
}

/// Every draw has a price step in `[MIN_PRICE_STEP, MAX_PRICE_STEP)` and a
/// size in `[MIN_SIZE, MAX_SIZE)`.
pub open spec fn draws_in_range(d: Seq<(u32, u32)>) -> bool {
    forall|i: int|
        0 <= i < d.len() ==> MIN_PRICE_STEP <= (#[trigger] d[i]).0 < MAX_PRICE_STEP && MIN_SIZE <= d[i].1
            < MAX_SIZE
}

/// Sums of steps grow with the number of draws summed.
pub proof fn lemma_steps_sum_mono(d: Seq<(u32, u32)>, i: int, j: int)
    requires
        0 <= i <= j <= d.len(),
    ensures
        steps_sum(d, i) <= steps_sum(d, j),
        draws_in_range(d) ==> steps_sum(d, i) + (j - i) <= steps_sum(d, j),
        draws_in_range(d) ==> steps_sum(d, j) <= steps_sum(d, i) + (j - i) * (MAX_PRICE_STEP - 1),
    decreases j - i,
{
    if i < j {
        lemma_steps_sum_mono(d, i, j - 1);
        if draws_in_range(d) {
            assert(MIN_PRICE_STEP <= d[j - 1].0 < MAX_PRICE_STEP);
        }
    }
}

impl OrderBook {
    /// Both sides hold `MAX_LEVELS` slots and the counts fit.
    pub open spec fn wf(&self) -> bool {
        &&& self.asks@.len() == MAX_LEVELS
        &&& self.bids@.len() == MAX_LEVELS
        &&& self.ask_num <= MAX_LEVELS
        &&& self.bid_num <= MAX_LEVELS
    }

    /// An empty book.
    pub fn new() -> (r: OrderBook)
        ensures
            r.wf(),
            r.ask_num == 0,
            r.bid_num == 0,
            forall|i: int| 0 <= i < MAX_LEVELS ==> #[trigger] r.asks@[i] == (PxSz { price: 0, size: 0 }) && r.bids@[i] == (PxSz { price: 0, size: 0 }),
    {
        let mut asks: Vec<PxSz> = Vec::new();
        let mut bids: Vec<PxSz> = Vec::new();
        let mut i: usize = 0;
        while i < MAX_LEVELS
            invariant
                i <= MAX_LEVELS,
                asks@.len() == i,
                bids@.len() == i,
                forall|k: int| 0 <= k < i ==> #[trigger] asks@[k] == (PxSz { price: 0, size: 0 }) && bids@[k] == (PxSz { price: 0, size: 0 }),
            decreases MAX_LEVELS - i,
        {
            asks.push(PxSz::new());
            bids.push(PxSz::new());
            i += 1;
        }
        OrderBook { asks, bids, ask_num: 0, bid_num: 0 }
    }

    /// Fills the book from given draws, one (price step, size) per level: bid
    /// prices step down from `mid_price`, ask prices step up from it.
    pub fn generate_from(&mut self, mid_price: u32, bid_draws: &[(u32, u32)], ask_draws: &[(u32, u32)])
        requires
            old(self).wf(),
            bid_draws@.len() <= MAX_LEVELS,
            ask_draws@.len() <= MAX_LEVELS,
            steps_sum(bid_draws@, bid_draws@.len() as int) <= mid_price,
            mid_price + steps_sum(ask_draws@, ask_draws@.len() as int) <= u32::MAX,
        ensures
            final(self).wf(),
            final(self).bid_num == bid_draws@.len(),
            final(self).ask_num == ask_draws@.len(),
            forall|i: int|
                0 <= i < bid_draws@.len() ==> (#[trigger] final(self).bids@[i]).price == mid_price - steps_sum(
                    bid_draws@,
                    i + 1,
                ) && final(self).bids@[i].size == bid_draws@[i].1,
            forall|i: int|
                0 <= i < ask_draws@.len() ==> (#[trigger] final(self).asks@[i]).price == mid_price + steps_sum(
                    ask_draws@,
                    i + 1,
                ) && final(self).asks@[i].size == ask_draws@[i].1,
    {
        self.bid_num = bid_draws.len();
        self.ask_num = ask_draws.len();
        let mut price: u32 = mid_price;
        let mut i: usize = 0;
        while i < bid_draws.len()
            invariant
                self.wf(),
                self.bid_num == bid_draws@.len(),
                self.ask_num == ask_draws@.len(),
                i <= bid_draws@.len(),
                price == mid_price - steps_sum(bid_draws@, i as int),
                steps_sum(bid_draws@, bid_draws@.len() as int) <= mid_price,
                forall|k: int|
                    0 <= k < i ==> (#[trigger] self.bids@[k]).price == mid_price - steps_sum(bid_draws@, k + 1)
                        && self.bids@[k].size == bid_draws@[k].1,
            decreases bid_draws@.len() - i,
        {
            proof {
                lemma_steps_sum_mono(bid_draws@, i as int + 1, bid_draws@.len() as int);
            }
            let (step, size) = bid_draws[i];
            price = price - step;
            self.bids[i] = PxSz { price, size };
            i += 1;
        }
        let mut price: u32 = mid_price;
        let mut i: usize = 0;
        while i < ask_draws.len()
            invariant
                self.wf(),
                self.bid_num == bid_draws@.len(),
                self.ask_num == ask_draws@.len(),
                i <= ask_draws@.len(),
                price == mid_price + steps_sum(ask_draws@, i as int),
                mid_price + steps_sum(ask_draws@, ask_draws@.len() as int) <= u32::MAX,
                forall|k: int|
                    0 <= k < bid_draws@.len() ==> (#[trigger] self.bids@[k]).price == mid_price - steps_sum(
                        bid_draws@,
                        k + 1,
                    ) && self.bids@[k].size == bid_draws@[k].1,
                forall|k: int|
                    0 <= k < i ==> (#[trigger] self.asks@[k]).price == mid_price + steps_sum(ask_draws@, k + 1)
                        && self.asks@[k].size == ask_draws@[k].1,
            decreases ask_draws@.len() - i,
        {
            proof {
                lemma_steps_sum_mono(ask_draws@, i as int + 1, ask_draws@.len() as int);
            }
            let (step, size) = ask_draws[i];
            price = price + step;
            self.asks[i] = PxSz { price, size };
            i += 1;
        }
    }

    /// Generates a random book around `mid_price`: each bid lies below the one
    /// before it (the first below `mid_price`) by a step drawn uniformly from
    /// `[MIN_PRICE_STEP, MAX_PRICE_STEP)`, each ask above by such a step, and
    /// every size is drawn uniformly from `[MIN_SIZE, MAX_SIZE)`.
    pub fn generate(&mut self, bid_num: usize, ask_num: usize, mid_price: u32)
        requires
            old(self).wf(),
            bid_num <= MAX_LEVELS,
            ask_num <= MAX_LEVELS,
            bid_num * (MAX_PRICE_STEP - 1) <= mid_price,
            mid_price + ask_num * (MAX_PRICE_STEP - 1) <= u32::MAX,
        ensures
            final(self).wf(),
            final(self).bid_num == bid_num,
            final(self).ask_num == ask_num,
            forall|i: int|
                0 <= i < bid_num ==> MIN_SIZE <= (#[trigger] final(self).bids@[i]).size < MAX_SIZE
                    && final(self).bids@[i].price < mid_price,
            forall|i: int|
                0 <= i < ask_num ==> MIN_SIZE <= (#[trigger] final(self).asks@[i]).size < MAX_SIZE
                    && final(self).asks@[i].price > mid_price,
            bid_num > 0 ==> mid_price - final(self).bids@[0].price < MAX_PRICE_STEP,
            ask_num > 0 ==> final(self).asks@[0].price - mid_price < MAX_PRICE_STEP,
            forall|i: int, j: int|
                0 <= i < j < bid_num ==> final(self).bids@[j].price < final(self).bids@[i].price,
            forall|i: int, j: int|
                0 <= i < j < ask_num ==> final(self).asks@[i].price < final(self).asks@[j].price,
            forall|i: int|
                0 < i < bid_num ==> final(self).bids@[i - 1].price - (#[trigger] final(self).bids@[i]).price
                    < MAX_PRICE_STEP,
            forall|i: int|
                0 < i < ask_num ==> (#[trigger] final(self).asks@[i]).price - final(self).asks@[i - 1].price
                    < MAX_PRICE_STEP,
    {
        let bid_draws = draw_levels(bid_num);
        let ask_draws = draw_levels(ask_num);
        proof {
            lemma_steps_sum_mono(bid_draws@, 0, bid_num as int);
            lemma_steps_sum_mono(ask_draws@, 0, ask_num as int);
        }
        self.generate_from(mid_price, bid_draws.as_slice(), ask_draws.as_slice());
        proof {
            assert forall|i: int, j: int| 0 <= i < j < bid_num implies self.bids@[j].price < self.bids@[i].price by {
                lemma_steps_sum_mono(bid_draws@, i + 1, j + 1);
            }
            assert forall|i: int, j: int| 0 <= i < j < ask_num implies self.asks@[i].price < self.asks@[j].price by {
                lemma_steps_sum_mono(ask_draws@, i + 1, j + 1);
            }
            assert forall|i: int| 0 <= i < bid_num implies MIN_SIZE <= (#[trigger] self.bids@[i]).size
                < MAX_SIZE && self.bids@[i].price < mid_price by {
                lemma_steps_sum_mono(bid_draws@, 0, i + 1);
                assert(draws_in_range(bid_draws@));
                assert(MIN_SIZE <= bid_draws@[i].1 < MAX_SIZE);
            }
            assert forall|i: int| 0 <= i < ask_num implies MIN_SIZE <= (#[trigger] self.asks@[i]).size
                < MAX_SIZE && self.asks@[i].price > mid_price by {
                lemma_steps_sum_mono(ask_draws@, 0, i + 1);
                assert(MIN_SIZE <= ask_draws@[i].1 < MAX_SIZE);
            }
            assert forall|i: int| 0 < i < bid_num implies self.bids@[i - 1].price - (
            #[trigger] self.bids@[i]).price < MAX_PRICE_STEP by {
                lemma_steps_sum_mono(bid_draws@, i, i + 1);
            }
            assert forall|i: int| 0 < i < ask_num implies (#[trigger] self.asks@[i]).price - self.asks@[i - 1].price < MAX_PRICE_STEP by {
                lemma_steps_sum_mono(ask_draws@, i, i + 1);
            }
            if bid_num > 0 {
                lemma_steps_sum_mono(bid_draws@, 0, 1);
            }
            if ask_num > 0 {
                lemma_steps_sum_mono(ask_draws@, 0, 1);
            }
        }
    }
}

/// Relies on rand 0.8's `Uniform::from(low..high)`, sampled with
/// `thread_rng()`: a value drawn from `[low, high)`. `Uniform::new` panics
/// unless `low < high`.
#[verifier::external_body]
fn sample_uniform(low: u32, high: u32) -> (r: u32)
    requires
        low < high,
    ensures
        low <= r < high,
{
    rand::distributions::Uniform::from(low..high).sample(&mut rand::thread_rng())
}

/// `n` random draws of (price step, size).
fn draw_levels(n: usize) -> (r: Vec<(u32, u32)>)
    ensures
        r@.len() == n,
        draws_in_range(r@),
{
    let mut draws: Vec<(u32, u32)> = Vec::new();
    let mut i: usize = 0;
    while i < n
        invariant
            i <= n,
            draws@.len() == i,
            draws_in_range(draws@),
        decreases n - i,
    {
        let step = sample_uniform(MIN_PRICE_STEP, MAX_PRICE_STEP);
        let size = sample_uniform(MIN_SIZE, MAX_SIZE);
        draws.push((step, size));
        i += 1;
    }
    draws
}

} // verus!
