//! Resource stocks and what they can pay for.

use crate::game::board::{Player, TileKind};
use std::ops::Add;
use std::ops::Index;
use std::ops::Sub;
use vstd::prelude::*;
use vstd::std_specs::ops::{AddSpecImpl, SubSpecImpl};

verus! {

/// A stock of the five resources. The counts are signed, so that a stock
/// minus a cost shows by its sign whether the cost could be paid.
#[derive(Debug, Copy, Clone, PartialEq, Eq, Structural)]
pub struct ResourceCount {
    pub grain: i8,
    pub wool: i8,
    pub brick: i8,
    pub lumber: i8,
    pub ore: i8,
}

/// What a player can buy.
#[derive(Debug, Copy, Clone, PartialEq, Eq, Hash, Structural)]
pub enum Buys {
    Road,
    Settlement,
    City,
}

/// The stock of each player.
#[derive(Debug, Copy, Clone, PartialEq, Eq, Structural)]
pub struct PlayerResourceCount {
    pub red: ResourceCount,
    pub blue: ResourceCount,
    pub white: ResourceCount,
}

/// What a road costs: one brick and one lumber.
pub open spec fn road_price() -> ResourceCount {
    ResourceCount { grain: 0, wool: 0, brick: 1, lumber: 1, ore: 0 }
}

/// What a settlement costs: one each of grain, wool, brick and lumber.
pub open spec fn settlement_price() -> ResourceCount {
    ResourceCount { grain: 1, wool: 1, brick: 1, lumber: 1, ore: 0 }
}

/// What a city costs: three grain and two ore.
pub open spec fn city_price() -> ResourceCount {
    ResourceCount { grain: 3, wool: 0, brick: 0, lumber: 0, ore: 2 }
}

/// What a road costs.
pub fn road_cost() -> (c: ResourceCount)
    ensures
        c == road_price(),
{
    ResourceCount { grain: 0, wool: 0, brick: 1, lumber: 1, ore: 0 }
}

/// What a settlement costs.
pub fn settlement_cost() -> (c: ResourceCount)
    ensures
        c == settlement_price(),
{
    ResourceCount { grain: 1, wool: 1, brick: 1, lumber: 1, ore: 0 }
}

/// What a city costs.
pub fn city_cost() -> (c: ResourceCount)
    ensures
        c == city_price(),
{
    ResourceCount { grain: 3, wool: 0, brick: 0, lumber: 0, ore: 2 }
}

impl Buys {
    /// The price of this purchase.
    pub open spec fn price(self) -> ResourceCount {
        match self {
            Buys::Road => road_price(),
            Buys::Settlement => settlement_price(),
            Buys::City => city_price(),
        }
    }

    /// The price of this purchase.
    pub fn cost(self) -> (c: ResourceCount)
        ensures
            c == self.price(),
    {
        match self {
            Buys::Road => road_cost(),
            Buys::Settlement => settlement_cost(),
            Buys::City => city_cost(),
        }
    }
}

impl ResourceCount {
    /// The count held of what a tile of the given kind produces; the desert
    /// produces nothing, so its count is zero.
    pub open spec fn count_of(self, tile: TileKind) -> i8 {
        match tile {
            TileKind::Grain => self.grain,
            TileKind::Wool => self.wool,
            TileKind::Brick => self.brick,
            TileKind::Lumber => self.lumber,
            TileKind::Ore => self.ore,
            TileKind::Nothing => 0,
        }
    }

    /// No count is negative.
    pub open spec fn non_negative(self) -> bool {
        self.grain >= 0 && self.wool >= 0 && self.brick >= 0 && self.lumber >= 0 && self.ore >= 0
    }

    /// The sum of the five counts.
    pub open spec fn total(self) -> int {
        self.grain + self.wool + self.brick + self.lumber + self.ore
    }

    /// The stock can pay the price: after the deduction no count is negative.
    pub open spec fn covers(self, price: ResourceCount) -> bool {
        &&& self.grain - price.grain >= 0
        &&& self.wool - price.wool >= 0
        &&& self.brick - price.brick >= 0
        &&& self.lumber - price.lumber >= 0
        &&& self.ore - price.ore >= 0
    }

    /// Each count of `self` less that of `rhs` is a value of the counts' type.
    pub open spec fn in_range_less(self, rhs: ResourceCount) -> bool {
        &&& i8::MIN <= self.grain - rhs.grain <= i8::MAX
        &&& i8::MIN <= self.wool - rhs.wool <= i8::MAX
        &&& i8::MIN <= self.brick - rhs.brick <= i8::MAX
        &&& i8::MIN <= self.lumber - rhs.lumber <= i8::MAX
        &&& i8::MIN <= self.ore - rhs.ore <= i8::MAX
    }

    /// The stock less `rhs`, count by count.
    pub open spec fn less(self, rhs: ResourceCount) -> ResourceCount {
        ResourceCount {
            grain: (self.grain - rhs.grain) as i8,
            wool: (self.wool - rhs.wool) as i8,
            brick: (self.brick - rhs.brick) as i8,
            lumber: (self.lumber - rhs.lumber) as i8,
            ore: (self.ore - rhs.ore) as i8,
        }
    }

    /// Each count of `self` plus that of `rhs` is a value of the counts' type.
    pub open spec fn in_range_plus(self, rhs: ResourceCount) -> bool {
        &&& i8::MIN <= self.grain + rhs.grain <= i8::MAX
        &&& i8::MIN <= self.wool + rhs.wool <= i8::MAX
        &&& i8::MIN <= self.brick + rhs.brick <= i8::MAX
        &&& i8::MIN <= self.lumber + rhs.lumber <= i8::MAX
        &&& i8::MIN <= self.ore + rhs.ore <= i8::MAX
    }

    /// The stock plus `rhs`, count by count.
    pub open spec fn plus(self, rhs: ResourceCount) -> ResourceCount {
        ResourceCount {
            grain: (self.grain + rhs.grain) as i8,
            wool: (self.wool + rhs.wool) as i8,
            brick: (self.brick + rhs.brick) as i8,
            lumber: (self.lumber + rhs.lumber) as i8,
            ore: (self.ore + rhs.ore) as i8,
        }
    }

    /// True if no count is negative; zero counts are allowed.
    pub fn is_positive(&self) -> (b: bool)
        ensures
            b == self.non_negative(),
    {
        self.grain >= 0 && self.wool >= 0 && self.brick >= 0 && self.lumber >= 0 && self.ore >= 0
    }
}

impl SubSpecImpl for ResourceCount {
    open spec fn obeys_sub_spec() -> bool {
        true
    }

    open spec fn sub_req(self, rhs: Self) -> bool {
        self.in_range_less(rhs)
    }

    open spec fn sub_spec(self, rhs: Self) -> Self {
        self.less(rhs)
    }
}

impl Sub for ResourceCount {
    type Output = Self;

    /// The stock less `rhs`, count by count.
    fn sub(self, rhs: Self) -> (r: Self) {
        Self {
            grain: self.grain - rhs.grain,
            wool: self.wool - rhs.wool,
            brick: self.brick - rhs.brick,
            lumber: self.lumber - rhs.lumber,
            ore: self.ore - rhs.ore,
        }
    }
}

impl AddSpecImpl for ResourceCount {
    open spec fn obeys_add_spec() -> bool {
        true
    }

    open spec fn add_req(self, rhs: Self) -> bool {
        self.in_range_plus(rhs)
    }

    open spec fn add_spec(self, rhs: Self) -> Self {
        self.plus(rhs)
    }
}

impl Add for ResourceCount {
    type Output = Self;

    /// The stock plus `rhs`, count by count.
    fn add(self, rhs: Self) -> (r: Self) {
        Self {
            grain: self.grain + rhs.grain,
            wool: self.wool + rhs.wool,
            brick: self.brick + rhs.brick,
            lumber: self.lumber + rhs.lumber,
            ore: self.ore + rhs.ore,
        }
    }
}

impl vstd::std_specs::core::IndexSpecImpl<TileKind> for ResourceCount {
    open spec fn index_req(&self, index: &TileKind) -> bool {
        true
    }
}

impl Index<TileKind> for ResourceCount {
    type Output = i8;

    /// The count held of what a tile of the given kind produces.
    fn index(&self, tile: TileKind) -> (count: &i8)
        ensures
            *count == self.count_of(tile),
    {
        match tile {
            TileKind::Grain => &self.grain,
            TileKind::Wool => &self.wool,
            TileKind::Brick => &self.brick,
            TileKind::Lumber => &self.lumber,
            TileKind::Ore => &self.ore,
            TileKind::Nothing => &0,
        }
    }
}

impl PlayerResourceCount {
    /// The stock of the given player.
    pub open spec fn stock_of(self, player: Player) -> ResourceCount {
        match player {
            Player::Red => self.red,
            Player::Blue => self.blue,
            Player::White => self.white,
        }
    }
}

impl vstd::std_specs::core::IndexSpecImpl<Player> for PlayerResourceCount {
    open spec fn index_req(&self, index: &Player) -> bool {
        true
    }
}

impl Index<Player> for PlayerResourceCount {
    type Output = ResourceCount;

    /// The stock of the given player.
    fn index(&self, index: Player) -> (stock: &ResourceCount)
        ensures
            *stock == self.stock_of(index),
    {
        match index {
            Player::Red => &self.red,
            Player::Blue => &self.blue,
            Player::White => &self.white,
        }
    }
}

/// Adds `buy` to the set `buys` unless it is there already; true if it was
/// added.
fn insert_buy(buys: &mut Vec<Buys>, buy: Buys) -> (added: bool)
    requires
        old(buys)@.no_duplicates(),
    ensures
        final(buys)@.no_duplicates(),
        added == !old(buys)@.contains(buy),
        added ==> final(buys)@ == old(buys)@.push(buy),
        !added ==> final(buys)@ == old(buys)@,
{
    let mut i: usize = 0;
    while i < buys.len()
        invariant
            i <= buys.len(),
            buys@ == old(buys)@,
            buys@.no_duplicates(),
            forall|j: int| 0 <= j < i ==> buys@[j] != buy,
        decreases buys.len() - i,
    {
        if buys[i] == buy {
            return false;
        }
        i += 1;
    }
    buys.push(buy);
    true
}

impl ResourceCount {
    /// Any of the three prices can be deducted without leaving the range of
    /// the counts.
    pub open spec fn deductible(self) -> bool {
        forall|buy: Buys| #[trigger] self.in_range_less(buy.price())
    }

    /// Adds to `buys` every purchase that `resource_count` can pay for, and
    /// searches on, depth first, from what is left after each purchase that
    /// was not in `buys` before.
    ///
    /// Since a price is never negative, what is left after a purchase pays for
    /// nothing that the stock before it could not pay for: the purchases
    /// within reach of any sequence of purchases are those that
    /// `resource_count` itself covers.
    pub fn possible_buys_dfs(&self, resource_count: ResourceCount, buys: &mut Vec<Buys>)
        requires
            resource_count.deductible(),
            old(buys)@.no_duplicates(),
        ensures
            final(buys)@.no_duplicates(),
            forall|buy: Buys|
                final(buys)@.contains(buy) <==> old(buys)@.contains(buy) || resource_count.covers(
                    buy.price(),
                ),
        decreases resource_count.total() + 640,
    {
        let kinds = [Buys::Road, Buys::Settlement, Buys::City];
        let mut i: usize = 0;
        while i < 3
            invariant
                i <= 3,
                kinds[0] == Buys::Road,
                kinds[1] == Buys::Settlement,
                kinds[2] == Buys::City,
                resource_count.deductible(),
                buys@.no_duplicates(),
                forall|buy: Buys| old(buys)@.contains(buy) ==> buys@.contains(buy),
                forall|buy: Buys|
                    buys@.contains(buy) ==> old(buys)@.contains(buy) || resource_count.covers(
                        buy.price(),
                    ),
                forall|j: int|
                    0 <= j < i && resource_count.covers(kinds[j].price()) ==> buys@.contains(
                        kinds[j],
                    ),
            decreases 3 - i,
        {
            let buy = kinds[i];
            assert(resource_count.in_range_less(buy.price()));
            let sub_count = resource_count - buy.cost();
            if sub_count.is_positive() {
                let ghost before = buys@;
                let added = insert_buy(buys, buy);
                assert(buys@.contains(buy)) by {
                    if added {
                        assert(buys@[before.len() as int] == buy);
                    }
                }
                assert(forall|b: Buys| before.contains(b) ==> buys@.contains(b)) by {
                    assert forall|b: Buys| before.contains(b) implies buys@.contains(b) by {
                        let j = choose|j: int| 0 <= j < before.len() && before[j] == b;
                        assert(buys@[j] == b);
                    }
                }
                if added {
                    assert(sub_count.deductible()) by {
                        assert forall|b: Buys| #[trigger] sub_count.in_range_less(b.price()) by {}
                    }
                    self.possible_buys_dfs(sub_count, buys);
                }
            }
            i += 1;
        }
        assert forall|buy: Buys|
            resource_count.covers(buy.price()) implies buys@.contains(buy) by {
            match buy {
                Buys::Road => assert(kinds[0] == buy),
                Buys::Settlement => assert(kinds[1] == buy),
                Buys::City => assert(kinds[2] == buy),
            }
        }
    }

    /// The purchases that this stock can pay for: each of road, settlement
    /// and city whose price the stock covers, once. These are all the
    /// purchases that any sequence of purchases leads to.
    pub fn possible_buys(&self) -> (buys: Vec<Buys>)
        ensures
            buys@.no_duplicates(),
            forall|buy: Buys| buys@.contains(buy) <==> self.covers(buy.price()),
            forall|purchases: Seq<Buys>, buy: Buys|
                (#[trigger] left_after(*self, purchases) matches Some(left) && left.covers(
                    #[trigger] buy.price(),
                )) ==> buys@.contains(buy),
    {
        proof {
            assert forall|purchases: Seq<Buys>, buy: Buys|
                (#[trigger] left_after(*self, purchases) matches Some(left) && left.covers(
                    #[trigger] buy.price(),
                )) implies self.covers(buy.price()) by {
                law_reach_is_cover(*self, purchases, buy);
            }
        }
        let mut buys: Vec<Buys> = Vec::new();
        if self.is_positive() {
            assert(self.deductible()) by {
                assert forall|b: Buys| #[trigger] self.in_range_less(b.price()) by {}
            }
            self.possible_buys_dfs(*self, &mut buys);
        }
        buys
    }
}

/// What is left of a stock after the purchases were made one after the
/// other, if the stock could pay for each in its turn.
pub open spec fn left_after(stock: ResourceCount, purchases: Seq<Buys>) -> Option<ResourceCount>
    decreases purchases.len(),
{
    if purchases.len() == 0 {
        Some(stock)
    } else {
        match left_after(stock, purchases.drop_last()) {
            Some(left) => if left.covers(purchases.last().price()) {
                Some(left.less(purchases.last().price()))
            } else {
                None
            },
            None => None,
        }
    }
}

/// Purchases use resources up: what is left after them has no more of any
/// resource than the stock had.
pub proof fn lemma_purchases_use_up(stock: ResourceCount, purchases: Seq<Buys>)
    ensures
        left_after(stock, purchases) matches Some(left) ==> {
            &&& left.grain <= stock.grain
            &&& left.wool <= stock.wool
            &&& left.brick <= stock.brick
            &&& left.lumber <= stock.lumber
            &&& left.ore <= stock.ore
        },
    decreases purchases.len(),
{
    if purchases.len() > 0 {
        lemma_purchases_use_up(stock, purchases.drop_last());
    }
}

/// A purchase within reach after any sequence of purchases is within reach
/// at once: what a stock can pay for after it has paid for others, it can
/// pay for before. So the purchases that any sequence of purchases leads to
/// are those that the stock itself covers, which `possible_buys` returns.
pub proof fn law_reach_is_cover(stock: ResourceCount, purchases: Seq<Buys>, buy: Buys)
    requires
        left_after(stock, purchases) matches Some(left) && left.covers(buy.price()),
    ensures
        stock.covers(buy.price()),
{
    lemma_purchases_use_up(stock, purchases);
}

/// Two lists that hold the same elements, each once, are the same set and
/// equally long.
pub proof fn lemma_same_set<T>(first: Seq<T>, second: Seq<T>)
    requires
        first.no_duplicates(),
        second.no_duplicates(),
        forall|x: T| first.contains(x) <==> second.contains(x),
    ensures
        first.to_set() == second.to_set(),
        first.len() == second.len(),
{
    assert(first.to_set() =~= second.to_set());
    first.unique_seq_to_set();
    second.unique_seq_to_set();
}

/// The purchases that a stock can pay for depend on the stock alone: two
/// results of `possible_buys` on one stock hold the same purchases.
pub proof fn law_possible_buys_repeat(stock: ResourceCount, first: Seq<Buys>, second: Seq<Buys>)
    requires
        first.no_duplicates(),
        forall|buy: Buys| first.contains(buy) <==> stock.covers(buy.price()),
        second.no_duplicates(),
        forall|buy: Buys| second.contains(buy) <==> stock.covers(buy.price()),
    ensures
        first.to_set() == second.to_set(),
        first.len() == second.len(),
{
    lemma_same_set(first, second);
}

} // verus!
