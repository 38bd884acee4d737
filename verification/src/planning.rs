//! The planner core: a best-first search over partial procurement plans.
//!
//! Search nodes live in an arena (a growing vector); a node's `parent`
//! holds the arena id it was expanded from together with the choice taken
//! on that edge.  The frontier orders unexplored node ids by total cost,
//! so the first complete node popped carries the least cost the search
//! has reached.

#![verifier::loop_isolation(false)]

use vstd::prelude::*;
use vstd::multiset::Multiset;
use std::collections::VecDeque;
use crate::descriptions::{Catalog, MaterialDescription, Recipe, catalog_lookup};
use crate::errors::PlanError;
use crate::frontier::{frontier_entries, frontier_new, frontier_pop, frontier_push, SearchQueue};
use crate::tp_rest::{Item, Price};

verus! {

/// A craft edge: the recipe whose inputs were appended as obligations.
pub struct Craft {
    pub recipe: Recipe,
}

/// A marketplace purchase edge: `quantity` units of `name` for `cost` in
/// total, taken from the cheapest tier remaining on that branch.
pub struct Buy {
    pub name: String,
    pub quantity: u32,
    pub cost: u32,
}

impl Buy {
    /// The sum of two purchases of the same item.
    pub fn add(&self, other: &Buy) -> (r: Buy)
        requires
            self.name@ == other.name@,
            self.quantity + other.quantity <= u32::MAX,
            self.cost + other.cost <= u32::MAX,
        ensures
            r.name@ == self.name@,
            r.quantity == self.quantity + other.quantity,
            r.cost == self.cost + other.cost,
    {
        Buy {
            name: self.name.clone(),
            quantity: self.quantity + other.quantity,
            cost: self.cost + other.cost,
        }
    }
}

/// A vendor purchase edge: `quantity` units of `name` at the vendor's
/// fixed unit price, `cost` in total.
pub struct Vendor {
    pub name: String,
    pub quantity: u32,
    pub cost: u32,
}

impl Vendor {
    /// The sum of two vendor purchases of the same item.
    pub fn add(&self, other: &Vendor) -> (r: Vendor)
        requires
            self.name@ == other.name@,
            self.quantity + other.quantity <= u32::MAX,
            self.cost + other.cost <= u32::MAX,
        ensures
            r.name@ == self.name@,
            r.quantity == self.quantity + other.quantity,
            r.cost == self.cost + other.cost,
    {
        Vendor {
            name: self.name.clone(),
            quantity: self.quantity + other.quantity,
            cost: self.cost + other.cost,
        }
    }
}

/// The choice recorded on the edge from a parent node to a child.
pub enum Choice {
    Craft(Craft),
    Buy(Buy),
    Vendor(Vendor),
}

/// A back-link: the arena id of the node this one was expanded from, and
/// the choice taken on that edge.
pub struct Parent {
    pub node: usize,
    pub choice: Choice,
}

/// A pending obligation: `quantity` more units of `name` must be sourced.
pub struct Remainder {
    pub name: String,
    pub quantity: u32,
}

/// The sell tiers still available for one item on one branch.
pub struct ItemListing {
    pub name: String,
    pub tiers: VecDeque<Price>,
}

/// A snapshot of the planner's state.  `remaining` is used as a LIFO: its
/// last entry is the next obligation to resolve.
pub struct SearchNode {
    pub parent: Option<Parent>,
    pub remaining: Vec<Remainder>,
    pub listings: Vec<ItemListing>,
    pub total_cost: u32,
}

/// Obligation equality up to string views.
pub open spec fn rem_eq(a: Remainder, b: Remainder) -> bool {
    a.name@ == b.name@ && a.quantity == b.quantity
}

/// Per-item listing equality up to string views.
pub open spec fn listing_eq(a: ItemListing, b: ItemListing) -> bool {
    a.name@ == b.name@ && a.tiers@ == b.tiers@
}

/// Pointwise listing-state equality.
pub open spec fn listings_eq(a: Seq<ItemListing>, b: Seq<ItemListing>) -> bool {
    a.len() == b.len() && forall|j: int| 0 <= j < a.len() ==> listing_eq(#[trigger] a[j], b[j])
}

/// No listing entry carries `name`.
pub open spec fn no_listing_for(l: Seq<ItemListing>, name: Seq<char>) -> bool {
    forall|j: int| 0 <= j < l.len() ==> (#[trigger] l[j]).name@ != name
}

/// `k` is the first listing entry carrying `name`.
pub open spec fn is_first_listing(l: Seq<ItemListing>, name: Seq<char>, k: int) -> bool {
    0 <= k < l.len() && l[k].name@ == name && forall|j: int|
        0 <= j < k ==> (#[trigger] l[j]).name@ != name
}

/// The obligation a node resolves next: the last entry of `remaining`.
pub open spec fn next_rem(n: SearchNode) -> Remainder {
    n.remaining@.last()
}

/// How many units a buy takes from tier `t`: the whole obligation if the
/// tier has that many units, otherwise everything the tier has.
pub open spec fn buy_take(want: u32, t: Price) -> u32 {
    if want < t.quantity {
        want
    } else {
        t.quantity
    }
}

/// The exact cost a buy from tier `t` adds, as an unbounded integer.
pub open spec fn buy_added(want: u32, t: Price) -> int {
    buy_take(want, t) * t.unit_price
}

/// Tier `t` reduced by the units taken when `want` are wanted, as the
/// child's new front tier (only used when `want < t.quantity`).
pub open spec fn reduced_tier(want: u32, t: Price) -> Price {
    Price { listings: t.listings, unit_price: t.unit_price, quantity: (t.quantity - want) as u32 }
}

/// Whether recording a buy from tier `t` would overflow 32-bit costs.
pub open spec fn buy_overflows(n: SearchNode, t: Price) -> bool {
    buy_added(next_rem(n).quantity, t) > u32::MAX || n.total_cost + buy_added(
        next_rem(n).quantity,
        t,
    ) > u32::MAX
}

/// Whether `p` is an edge from node `me` buying `qty` units of `name`
/// for `cost`.
pub open spec fn is_buy_edge(p: Option<Parent>, me: int, name: Seq<char>, qty: u32, cost: int) -> bool {
    match p {
        Some(pp) => pp.node == me && match pp.choice {
            Choice::Buy(b) => b.name@ == name && b.quantity == qty && b.cost == cost,
            _ => false,
        },
        None => false,
    }
}

/// Exactly how a buy child relates to its parent: the edge records the
/// units taken and their cost; the obligation shrinks by the units taken
/// (or leaves a rest); the first listing entry for the item loses its
/// front tier, or has it reduced; everything else is unchanged.
pub open spec fn buy_child_props(parent: SearchNode, me: int, child: SearchNode, k: int) -> bool {
    let next = next_rem(parent);
    let t = parent.listings@[k].tiers@[0];
    let take = buy_take(next.quantity, t);
    let added = buy_added(next.quantity, t);
    &&& child.total_cost == parent.total_cost + added
    &&& is_buy_edge(child.parent, me, next.name@, take, added)
    &&& (if take < next.quantity {
        child.remaining@.len() == parent.remaining@.len() && (forall|i: int|
            0 <= i < parent.remaining@.len() - 1 ==> rem_eq(
                #[trigger] child.remaining@[i],
                parent.remaining@[i],
            )) && child.remaining@.last().name@ == next.name@ && child.remaining@.last().quantity
            == next.quantity - take
    } else {
        child.remaining@.len() == parent.remaining@.len() - 1 && forall|i: int|
            0 <= i < child.remaining@.len() ==> rem_eq(
                #[trigger] child.remaining@[i],
                parent.remaining@[i],
            )
    })
    &&& child.listings@.len() == parent.listings@.len()
    &&& (forall|j: int|
        0 <= j < parent.listings@.len() && j != k ==> listing_eq(
            #[trigger] child.listings@[j],
            parent.listings@[j],
        ))
    &&& child.listings@[k].name@ == next.name@
    &&& (if next.quantity < t.quantity {
        child.listings@[k].tiers@ == parent.listings@[k].tiers@.update(
            0,
            reduced_tier(next.quantity, t),
        )
    } else {
        child.listings@[k].tiers@ == parent.listings@[k].tiers@.drop_first()
    })
}

/// Copies a vector of obligations.
fn clone_remaining(v: &Vec<Remainder>) -> (r: Vec<Remainder>)
    ensures
        r@.len() == v@.len(),
        forall|i: int| 0 <= i < v@.len() ==> rem_eq(#[trigger] r@[i], v@[i]),
{
    let mut out: Vec<Remainder> = Vec::new();
    let mut i: usize = 0;
    while i < v.len()
        invariant
            0 <= i <= v@.len(),
            out@.len() == i,
            forall|j: int| 0 <= j < i ==> rem_eq(#[trigger] out@[j], v@[j]),
        decreases v@.len() - i,
    {
        out.push(Remainder { name: v[i].name.clone(), quantity: v[i].quantity });
        i = i + 1;
    }
    out
}

/// Copies one item's tier queue.
fn clone_tiers(d: &VecDeque<Price>) -> (r: VecDeque<Price>)
    ensures
        r@ == d@,
{
    let mut out: VecDeque<Price> = VecDeque::new();
    let mut i: usize = 0;
    while i < d.len()
        invariant
            0 <= i <= d@.len(),
            out@ == d@.take(i as int),
        decreases d@.len() - i,
    {
        out.push_back(d[i]);
        proof {
            assert(d@.take(i as int).push(d@[i as int]) =~= d@.take(i as int + 1));
        }
        i = i + 1;
    }
    proof {
        assert(d@.take(d@.len() as int) =~= d@);
    }
    out
}

/// Finds the first listing entry for `name`, if any.
fn find_listing(l: &Vec<ItemListing>, name: &String) -> (r: Option<usize>)
    ensures
        match r {
            Some(k) => is_first_listing(l@, name@, k as int),
            None => no_listing_for(l@, name@),
        },
{
    let mut i: usize = 0;
    while i < l.len()
        invariant
            0 <= i <= l@.len(),
            forall|j: int| 0 <= j < i ==> (#[trigger] l@[j]).name@ != name@,
        decreases l@.len() - i,
    {
        if l[i].name == *name {
            return Some(i);
        }
        i = i + 1;
    }
    None
}

/// Builds the child's listing state for a buy of `want` units against the
/// entry at `k`: every other entry is copied unchanged; the front tier at
/// `k` is reduced if it can cover the whole want, and removed otherwise.
fn buy_updated_listings(l: &Vec<ItemListing>, k: usize, want: u32) -> (r: Vec<ItemListing>)
    requires
        k < l@.len(),
        l@[k as int].tiers@.len() > 0,
    ensures
        r@.len() == l@.len(),
        forall|j: int|
            0 <= j < l@.len() && j != k ==> listing_eq(#[trigger] r@[j], l@[j]),
        r@[k as int].name@ == l@[k as int].name@,
        ({
            let t = l@[k as int].tiers@[0];
            if want < t.quantity {
                r@[k as int].tiers@ == l@[k as int].tiers@.update(0, reduced_tier(want, t))
            } else {
                r@[k as int].tiers@ == l@[k as int].tiers@.drop_first()
            }
        }),
{
    let mut out: Vec<ItemListing> = Vec::new();
    let mut i: usize = 0;
    while i < l.len()
        invariant
            0 <= i <= l@.len(),
            out@.len() == i,
            k < l@.len(),
            l@[k as int].tiers@.len() > 0,
            forall|j: int| 0 <= j < i && j != k ==> listing_eq(#[trigger] out@[j], l@[j]),
            i > k ==> out@[k as int].name@ == l@[k as int].name@,
            i > k ==> ({
                let t = l@[k as int].tiers@[0];
                if want < t.quantity {
                    out@[k as int].tiers@ == l@[k as int].tiers@.update(0, reduced_tier(want, t))
                } else {
                    out@[k as int].tiers@ == l@[k as int].tiers@.drop_first()
                }
            }),
        decreases l@.len() - i,
    {
        if i == k {
            let mut tiers = clone_tiers(&l[i].tiers);
            let front = match tiers.pop_front() {
                Some(t) => t,
                None => {
                    proof {
                        assert(false);
                    }
                    Price::from_parts(0, 0, 0)
                },
            };
            if want < front.quantity {
                tiers.push_front(front.copy_reduced_by(want));
                proof {
                    assert(l@[k as int].tiers@.drop_first().insert(
                        0,
                        reduced_tier(want, l@[k as int].tiers@[0]),
                    ) =~= l@[k as int].tiers@.update(0, reduced_tier(want, l@[k as int].tiers@[0])));
                }
            }
            out.push(ItemListing { name: l[i].name.clone(), tiers });
        } else {
            out.push(ItemListing { name: l[i].name.clone(), tiers: clone_tiers(&l[i].tiers) });
        }
        i = i + 1;
    }
    out
}

/// Attempts the buy expansion of `parent` (arena id `me`): applicable
/// when the next obligation's item still has a tier listed on this
/// branch.  On success the child is exactly as [`buy_child_props`] says.
pub fn expand_buy(parent: &SearchNode, me: usize) -> (r: Result<Option<SearchNode>, PlanError>)
    requires
        parent.remaining@.len() > 0,
    ensures
        no_listing_for(parent.listings@, next_rem(*parent).name@) ==> (r matches Ok(c) && c
            is None),
        forall|k: int|
            is_first_listing(parent.listings@, next_rem(*parent).name@, k)
                && parent.listings@[k].tiers@.len() == 0 ==> (r matches Ok(c) && c is None),
        forall|k: int|
            #![trigger is_first_listing(parent.listings@, next_rem(*parent).name@, k)]
            is_first_listing(parent.listings@, next_rem(*parent).name@, k)
                && parent.listings@[k].tiers@.len() > 0 ==> ({
                let t = parent.listings@[k].tiers@[0];
                if buy_overflows(*parent, t) {
                    r == Err::<Option<SearchNode>, PlanError>(PlanError::Overflow)
                } else {
                    r matches Ok(c) && c matches Some(child) && buy_child_props(
                        *parent,
                        me as int,
                        child,
                        k,
                    )
                }
            }),
{
    let mut remaining = clone_remaining(&parent.remaining);
    let next = match remaining.pop() {
        Some(n) => n,
        None => {
            proof {
                assert(false);
            }
            return Ok(None);
        },
    };
    match find_listing(&parent.listings, &next.name) {
        None => Ok(None),
        Some(k) => {
            if parent.listings[k].tiers.len() == 0 {
                return Ok(None);
            }
            let t: Price = parent.listings[k].tiers[0];
            let take = if next.quantity < t.quantity {
                next.quantity
            } else {
                t.quantity
            };
            let added = match take.checked_mul(t.unit_price) {
                Some(a) => a,
                None => { return Err(PlanError::Overflow); },
            };
            let new_cost = match parent.total_cost.checked_add(added) {
                Some(c) => c,
                None => { return Err(PlanError::Overflow); },
            };
            let new_listings = buy_updated_listings(&parent.listings, k, next.quantity);
            if take < next.quantity {
                remaining.push(
                    Remainder { name: next.name.clone(), quantity: (next.quantity - take) },
                );
            }
            Ok(
                Some(
                    SearchNode {
                        parent: Some(
                            Parent {
                                node: me,
                                choice: Choice::Buy(
                                    Buy { name: next.name, quantity: take, cost: added },
                                ),
                            },
                        ),
                        remaining,
                        listings: new_listings,
                        total_cost: new_cost,
                    },
                ),
            )
        },
    }
}


/// Whether `p` is an edge from node `me` buying `qty` units of `name`
/// from the vendor for `cost`.
pub open spec fn is_vendor_edge(p: Option<Parent>, me: int, name: Seq<char>, qty: u32, cost: int) -> bool {
    match p {
        Some(pp) => pp.node == me && match pp.choice {
            Choice::Vendor(v) => v.name@ == name && v.quantity == qty && v.cost == cost,
            _ => false,
        },
        None => false,
    }
}

/// Whether a vendor purchase at unit price `vp` would overflow 32-bit
/// costs.
pub open spec fn vendor_overflows(n: SearchNode, vp: u32) -> bool {
    next_rem(n).quantity * vp > u32::MAX || n.total_cost + next_rem(n).quantity * vp > u32::MAX
}

/// Exactly how a vendor child relates to its parent: the edge records the
/// whole obligation at the vendor's unit price; the obligation is
/// resolved; the listing state is unchanged.
pub open spec fn vendor_child_props(parent: SearchNode, me: int, child: SearchNode, vp: u32) -> bool {
    let next = next_rem(parent);
    let added = next.quantity * vp;
    &&& child.total_cost == parent.total_cost + added
    &&& is_vendor_edge(child.parent, me, next.name@, next.quantity, added)
    &&& child.remaining@.len() == parent.remaining@.len() - 1
    &&& (forall|i: int|
        0 <= i < child.remaining@.len() ==> rem_eq(
            #[trigger] child.remaining@[i],
            parent.remaining@[i],
        ))
    &&& listings_eq(child.listings@, parent.listings@)
}

/// Attempts the vendor expansion of `parent` (arena id `me`): applicable
/// when the catalog lists a vendor price for the next obligation's item.
/// A missing catalog entry is a missing-description error.
pub fn expand_vendor(catalog: &Catalog, parent: &SearchNode, me: usize) -> (r: Result<
    Option<SearchNode>,
    PlanError,
>)
    requires
        parent.remaining@.len() > 0,
    ensures
        match catalog_lookup(catalog.entries@, next_rem(*parent).name@) {
            None => r matches Err(e) && (e matches PlanError::MissingDescription(n) && n@
                == next_rem(*parent).name@),
            Some(d) => match d.vendor {
                None => r matches Ok(c) && c is None,
                Some(vp) => if vendor_overflows(*parent, vp) {
                    r == Err::<Option<SearchNode>, PlanError>(PlanError::Overflow)
                } else {
                    r matches Ok(c) && (c matches Some(child) && vendor_child_props(
                        *parent,
                        me as int,
                        child,
                        vp,
                    ))
                },
            },
        },
{
    let mut remaining = clone_remaining(&parent.remaining);
    let next = match remaining.pop() {
        Some(n) => n,
        None => {
            proof {
                assert(false);
            }
            return Ok(None);
        },
    };
    match catalog.get(&next.name) {
        None => Err(PlanError::MissingDescription(next.name)),
        Some(description) => {
            match *description.vendor() {
                None => Ok(None),
                Some(vendor_price) => {
                    let added = match next.quantity.checked_mul(vendor_price) {
                        Some(a) => a,
                        None => { return Err(PlanError::Overflow); },
                    };
                    let new_cost = match parent.total_cost.checked_add(added) {
                        Some(c) => c,
                        None => { return Err(PlanError::Overflow); },
                    };
                    Ok(
                        Some(
                            SearchNode {
                                parent: Some(
                                    Parent {
                                        node: me,
                                        choice: Choice::Vendor(
                                            Vendor {
                                                name: next.name,
                                                quantity: next.quantity,
                                                cost: added,
                                            },
                                        ),
                                    },
                                ),
                                remaining,
                                listings: clone_listings(&parent.listings),
                                total_cost: new_cost,
                            },
                        ),
                    )
                },
            }
        },
    }
}

/// Recipe equality up to string views.
pub open spec fn recipe_view_eq(a: Recipe, b: Recipe) -> bool {
    a@.len() == b@.len() && forall|i: int|
        0 <= i < a@.len() ==> ((#[trigger] a@[i]).0@ == b@[i].0@ && a@[i].1 == b@[i].1)
}

/// Whether `p` is an edge from node `me` crafting via `recipe`.
pub open spec fn is_craft_edge(p: Option<Parent>, me: int, recipe: Recipe) -> bool {
    match p {
        Some(pp) => pp.node == me && match pp.choice {
            Choice::Craft(c) => recipe_view_eq(c.recipe, recipe),
            _ => false,
        },
        None => false,
    }
}

/// Whether scaling `recipe` by the next obligation would overflow 32-bit
/// quantities.
pub open spec fn craft_overflows(n: SearchNode, recipe: Recipe) -> bool {
    exists|j: int|
        0 <= j < recipe@.len() && (#[trigger] recipe@[j]).1 * next_rem(n).quantity > u32::MAX
}

/// Exactly how a craft child relates to its parent: the cost is
/// unchanged, the resolved obligation is replaced by one obligation per
/// recipe input scaled by the parent quantity (appended in recipe order),
/// and the listing state is unchanged.
pub open spec fn craft_child_props(parent: SearchNode, me: int, child: SearchNode, recipe: Recipe) -> bool {
    let next = next_rem(parent);
    let base = parent.remaining@.len() - 1;
    &&& child.total_cost == parent.total_cost
    &&& is_craft_edge(child.parent, me, recipe)
    &&& child.remaining@.len() == base + recipe@.len()
    &&& (forall|i: int|
        0 <= i < base ==> rem_eq(#[trigger] child.remaining@[i], parent.remaining@[i]))
    &&& (forall|j: int|
        0 <= j < recipe@.len() ==> ((#[trigger] child.remaining@[base + j]).name@
            == recipe@[j].0@ && child.remaining@[base + j].quantity == recipe@[j].1 * next.quantity))
    &&& listings_eq(child.listings@, parent.listings@)
}

/// Attempts the craft expansions of `parent` (arena id `me`): one child
/// per recipe of the next obligation's item.  A missing catalog entry is
/// a missing-description error.
pub fn expand_recipes(catalog: &Catalog, parent: &SearchNode, me: usize) -> (r: Result<
    Vec<SearchNode>,
    PlanError,
>)
    requires
        parent.remaining@.len() > 0,
    ensures
        match catalog_lookup(catalog.entries@, next_rem(*parent).name@) {
            None => r matches Err(e) && (e matches PlanError::MissingDescription(n) && n@
                == next_rem(*parent).name@),
            Some(d) => if exists|i: int|
                0 <= i < d.recipes@.len() && craft_overflows(*parent, #[trigger] d.recipes@[i]) {
                r == Err::<Vec<SearchNode>, PlanError>(PlanError::Overflow)
            } else {
                r matches Ok(cs) && cs@.len() == d.recipes@.len() && forall|i: int|
                    0 <= i < d.recipes@.len() ==> craft_child_props(
                        *parent,
                        me as int,
                        #[trigger] cs@[i],
                        d.recipes@[i],
                    )
            },
        },
{
    let rest = {
        let mut r = clone_remaining(&parent.remaining);
        let _ = r.pop();
        r
    };
    let ghost next = next_rem(*parent);
    match catalog.get(&parent.remaining[parent.remaining.len() - 1].name) {
        None => {
            let popped = &parent.remaining[parent.remaining.len() - 1];
            Err(PlanError::MissingDescription(popped.name.clone()))
        },
        Some(description) => {
            let recipes = description.recipes();
            let mut children: Vec<SearchNode> = Vec::new();
            let mut i: usize = 0;
            while i < recipes.len()
                invariant
                    0 <= i <= recipes@.len(),
                    children@.len() == i,
                    forall|j: int| 0 <= j < i ==> !craft_overflows(*parent, #[trigger] recipes@[j]),
                    forall|j: int|
                        0 <= j < i ==> craft_child_props(
                            *parent,
                            me as int,
                            #[trigger] children@[j],
                            recipes@[j],
                        ),
                decreases recipes@.len() - i,
            {
                let recipe = &recipes[i];
                let mut new_remaining = clone_remaining(&rest);
                let mut j: usize = 0;
                while j < recipe.len()
                    invariant
                        0 <= j <= recipe@.len(),
                        new_remaining@.len() == rest@.len() + j,
                        forall|m: int|
                            0 <= m < rest@.len() ==> rem_eq(
                                #[trigger] new_remaining@[m],
                                rest@[m],
                            ),
                        forall|m: int|
                            0 <= m < j ==> ((#[trigger] new_remaining@[rest@.len() + m]).name@
                                == recipe@[m].0@ && new_remaining@[rest@.len() + m].quantity
                                == recipe@[m].1 * next_rem(*parent).quantity),
                    decreases recipe@.len() - j,
                {
                    let quantity = match recipe[j].1.checked_mul(
                        parent.remaining[parent.remaining.len() - 1].quantity,
                    ) {
                        Some(q) => q,
                        None => { return Err(PlanError::Overflow); },
                    };
                    new_remaining.push(Remainder { name: recipe[j].0.clone(), quantity });
                    j = j + 1;
                }
                proof {
                    assert forall|m: int| 0 <= m < recipe@.len() implies (#[trigger] recipe@[m]).1
                        * next_rem(*parent).quantity <= u32::MAX by {
                        assert(new_remaining@[rest@.len() + m].quantity == recipe@[m].1 * next_rem(
                            *parent,
                        ).quantity);
                    };
                    assert(!craft_overflows(*parent, recipes@[i as int]));
                }
                children.push(
                    SearchNode {
                        parent: Some(
                            Parent { node: me, choice: Choice::Craft(Craft { recipe: clone_recipe(recipe) }) },
                        ),
                        remaining: new_remaining,
                        listings: clone_listings(&parent.listings),
                        total_cost: parent.total_cost,
                    },
                );
                i = i + 1;
            }
            Ok(children)
        },
    }
}

/// Copies a recipe.
fn clone_recipe(r: &Recipe) -> (out: Recipe)
    ensures
        recipe_view_eq(out, *r),
{
    let mut out: Recipe = Vec::new();
    let mut i: usize = 0;
    while i < r.len()
        invariant
            0 <= i <= r@.len(),
            out@.len() == i,
            forall|j: int|
                0 <= j < i ==> ((#[trigger] out@[j]).0@ == r@[j].0@ && out@[j].1 == r@[j].1),
        decreases r@.len() - i,
    {
        out.push((r[i].0.clone(), r[i].1));
        i = i + 1;
    }
    out
}

/// Copies the whole per-branch listing state.
fn clone_listings(l: &Vec<ItemListing>) -> (r: Vec<ItemListing>)
    ensures
        listings_eq(r@, l@),
{
    let mut out: Vec<ItemListing> = Vec::new();
    let mut i: usize = 0;
    while i < l.len()
        invariant
            0 <= i <= l@.len(),
            out@.len() == i,
            forall|j: int| 0 <= j < i ==> listing_eq(#[trigger] out@[j], l@[j]),
        decreases l@.len() - i,
    {
        out.push(ItemListing { name: l[i].name.clone(), tiers: clone_tiers(&l[i].tiers) });
        i = i + 1;
    }
    out
}


/// A non-absent name has a first listing entry.
pub proof fn lemma_first_listing_exists(l: Seq<ItemListing>, name: Seq<char>)
    requires
        !no_listing_for(l, name),
    ensures
        exists|k: int| is_first_listing(l, name, k),
    decreases l.len(),
{
    if l.len() == 0 {
        assert(false);
    } else if l[0].name@ == name {
        assert(is_first_listing(l, name, 0));
    } else {
        assert(!no_listing_for(l.drop_first(), name)) by {
            let j = choose|j: int| 0 <= j < l.len() && (#[trigger] l[j]).name@ == name;
            assert(l.drop_first()[j - 1].name@ == name);
        }
        lemma_first_listing_exists(l.drop_first(), name);
        let k = choose|k: int| is_first_listing(l.drop_first(), name, k);
        assert(l[k + 1] == l.drop_first()[k]);
        assert forall|j: int| 0 <= j < k + 1 implies (#[trigger] l[j]).name@ != name by {
            if j > 0 {
                assert(l.drop_first()[j - 1] == l[j]);
            }
        }
        assert(is_first_listing(l, name, k + 1));
    }
}

/// Whether the buy expansion applies to a node: its next obligation's
/// item still has a tier listed on this branch.
pub open spec fn buy_applicable(n: SearchNode) -> bool {
    exists|k: int|
        is_first_listing(n.listings@, next_rem(n).name@, k) && n.listings@[k].tiers@.len() > 0
}

/// Whether the buy expansion applies but would overflow 32-bit costs.
pub open spec fn buy_overflow_case(n: SearchNode) -> bool {
    exists|k: int|
        is_first_listing(n.listings@, next_rem(n).name@, k) && n.listings@[k].tiers@.len() > 0
            && buy_overflows(n, n.listings@[k].tiers@[0])
}

/// Exactly what a successful expansion returns: the buy child if one
/// applies, then the vendor child if one applies, then one craft child
/// per recipe, in that order.
pub open spec fn expansion_props(
    parent: SearchNode,
    me: int,
    d: MaterialDescription,
    children: Seq<SearchNode>,
) -> bool {
    let nb: int = if buy_applicable(parent) {
        1
    } else {
        0
    };
    let nv: int = if d.vendor is Some {
        1
    } else {
        0
    };
    &&& children.len() == nb + nv + d.recipes@.len()
    &&& (forall|k: int|
        is_first_listing(parent.listings@, next_rem(parent).name@, k)
            && parent.listings@[k].tiers@.len() > 0 ==> buy_child_props(
            parent,
            me,
            children[0],
            k,
        ))
    &&& (match d.vendor {
        Some(vp) => vendor_child_props(parent, me, children[nb], vp),
        None => true,
    })
    &&& (forall|i: int|
        0 <= i < d.recipes@.len() ==> craft_child_props(
            parent,
            me,
            children[nb + nv + i],
            #[trigger] d.recipes@[i],
        ))
}

/// Expands a node into all of its children, in buy / vendor / craft
/// order.  Overflow while costing the buy is reported first (the buy
/// expansion runs first); then a missing catalog entry; then overflow in
/// the vendor or craft arithmetic.
pub fn expand(catalog: &Catalog, parent: &SearchNode, me: usize) -> (r: Result<
    Vec<SearchNode>,
    PlanError,
>)
    requires
        parent.remaining@.len() > 0,
    ensures
        buy_overflow_case(*parent) ==> r == Err::<Vec<SearchNode>, PlanError>(PlanError::Overflow),
        !buy_overflow_case(*parent) ==> match catalog_lookup(
            catalog.entries@,
            next_rem(*parent).name@,
        ) {
            None => r matches Err(e) && (e matches PlanError::MissingDescription(n) && n@
                == next_rem(*parent).name@),
            Some(d) => if (d.vendor matches Some(vp) && vendor_overflows(*parent, vp)) || (
            exists|i: int|
                0 <= i < d.recipes@.len() && craft_overflows(*parent, #[trigger] d.recipes@[i])) {
                r == Err::<Vec<SearchNode>, PlanError>(PlanError::Overflow)
            } else {
                r matches Ok(children) && expansion_props(*parent, me as int, d, children@)
            },
        },
{
    let mut children: Vec<SearchNode> = Vec::new();
    match expand_buy(parent, me) {
        Ok(Some(child)) => {
            proof {
                if no_listing_for(parent.listings@, next_rem(*parent).name@) {
                    assert(false);
                } else {
                    lemma_first_listing_exists(parent.listings@, next_rem(*parent).name@);
                }
            }
            children.push(child);
        },
        Ok(None) => {
            proof {
                if !no_listing_for(parent.listings@, next_rem(*parent).name@) {
                    lemma_first_listing_exists(parent.listings@, next_rem(*parent).name@);
                }
                assert(!buy_applicable(*parent));
            }
        },
        Err(e) => {
            proof {
                if no_listing_for(parent.listings@, next_rem(*parent).name@) {
                    assert(false);
                } else {
                    lemma_first_listing_exists(parent.listings@, next_rem(*parent).name@);
                }
            }
            return Err(e);
        },
    }
    match expand_vendor(catalog, parent, me) {
        Ok(Some(child)) => { children.push(child); },
        Ok(None) => {},
        Err(e) => { return Err(e); },
    }
    match expand_recipes(catalog, parent, me) {
        Ok(mut crafts) => { children.append(&mut crafts); },
        Err(e) => { return Err(e); },
    }
    Ok(children)
}


/// The cost recorded on one edge: what a buy or vendor edge paid, zero
/// for a craft.
pub open spec fn choice_cost(c: Choice) -> int {
    match c {
        Choice::Buy(b) => b.cost as int,
        Choice::Vendor(v) => v.cost as int,
        Choice::Craft(_) => 0,
    }
}

/// The units of `name` a single edge buys from the marketplace.
pub open spec fn edge_buy_qty(c: Choice, name: Seq<char>) -> int {
    match c {
        Choice::Buy(b) => if b.name@ == name {
            b.quantity as int
        } else {
            0
        },
        _ => 0,
    }
}

/// The cost a single edge spends buying `name` from the marketplace.
pub open spec fn edge_buy_cost(c: Choice, name: Seq<char>) -> int {
    match c {
        Choice::Buy(b) => if b.name@ == name {
            b.cost as int
        } else {
            0
        },
        _ => 0,
    }
}

/// The units of `name` a single edge buys from the vendor.
pub open spec fn edge_vendor_qty(c: Choice, name: Seq<char>) -> int {
    match c {
        Choice::Vendor(v) => if v.name@ == name {
            v.quantity as int
        } else {
            0
        },
        _ => 0,
    }
}

/// The cost a single edge spends buying `name` from the vendor.
pub open spec fn edge_vendor_cost(c: Choice, name: Seq<char>) -> int {
    match c {
        Choice::Vendor(v) => if v.name@ == name {
            v.cost as int
        } else {
            0
        },
        _ => 0,
    }
}

/// Well-formedness of one arena node: pending quantities are strictly
/// positive; a parent link points strictly backwards and the node's total
/// cost is the parent's plus the edge's; a parentless node is a root with
/// total cost zero.
pub open spec fn node_wf(arena: Seq<SearchNode>, i: int) -> bool {
    let n = arena[i];
    &&& (forall|j: int| 0 <= j < n.remaining@.len() ==> (#[trigger] n.remaining@[j]).quantity > 0)
    &&& match n.parent {
        None => n.total_cost == 0,
        Some(pp) => 0 <= pp.node < i && n.total_cost == arena[pp.node as int].total_cost
            + choice_cost(pp.choice),
    }
}

/// Well-formedness of the whole arena.
pub open spec fn arena_ok(arena: Seq<SearchNode>) -> bool {
    forall|i: int| 0 <= i < arena.len() ==> node_wf(arena, i)
}

/// The sum of edge costs along the ancestor path of node `i`.
pub open spec fn path_cost(arena: Seq<SearchNode>, i: int) -> int
    decreases i,
{
    match arena[i].parent {
        None => 0,
        Some(pp) => if 0 <= pp.node < i {
            path_cost(arena, pp.node as int) + choice_cost(pp.choice)
        } else {
            0
        },
    }
}

/// The units of `name` bought from the marketplace along the ancestor
/// path of node `i` (the node's own edge included).
pub open spec fn path_bought_qty(arena: Seq<SearchNode>, i: int, name: Seq<char>) -> int
    decreases i,
{
    match arena[i].parent {
        None => 0,
        Some(pp) => (if 0 <= pp.node < i {
            path_bought_qty(arena, pp.node as int, name)
        } else {
            0
        }) + edge_buy_qty(pp.choice, name),
    }
}

/// The cost spent on marketplace buys of `name` along the ancestor path.
pub open spec fn path_bought_cost(arena: Seq<SearchNode>, i: int, name: Seq<char>) -> int
    decreases i,
{
    match arena[i].parent {
        None => 0,
        Some(pp) => (if 0 <= pp.node < i {
            path_bought_cost(arena, pp.node as int, name)
        } else {
            0
        }) + edge_buy_cost(pp.choice, name),
    }
}

/// Whether some ancestor edge buys `name` from the marketplace.
pub open spec fn path_has_buy(arena: Seq<SearchNode>, i: int, name: Seq<char>) -> bool
    decreases i,
{
    match arena[i].parent {
        None => false,
        Some(pp) => (if 0 <= pp.node < i {
            path_has_buy(arena, pp.node as int, name)
        } else {
            false
        }) || (pp.choice matches Choice::Buy(b) && b.name@ == name),
    }
}

/// The units of `name` bought from the vendor along the ancestor path.
pub open spec fn path_vendor_qty(arena: Seq<SearchNode>, i: int, name: Seq<char>) -> int
    decreases i,
{
    match arena[i].parent {
        None => 0,
        Some(pp) => (if 0 <= pp.node < i {
            path_vendor_qty(arena, pp.node as int, name)
        } else {
            0
        }) + edge_vendor_qty(pp.choice, name),
    }
}

/// The cost spent on vendor buys of `name` along the ancestor path.
pub open spec fn path_vendor_cost(arena: Seq<SearchNode>, i: int, name: Seq<char>) -> int
    decreases i,
{
    match arena[i].parent {
        None => 0,
        Some(pp) => (if 0 <= pp.node < i {
            path_vendor_cost(arena, pp.node as int, name)
        } else {
            0
        }) + edge_vendor_cost(pp.choice, name),
    }
}

/// Whether some ancestor edge buys `name` from the vendor.
pub open spec fn path_has_vendor(arena: Seq<SearchNode>, i: int, name: Seq<char>) -> bool
    decreases i,
{
    match arena[i].parent {
        None => false,
        Some(pp) => (if 0 <= pp.node < i {
            path_has_vendor(arena, pp.node as int, name)
        } else {
            false
        }) || (pp.choice matches Choice::Vendor(v) && v.name@ == name),
    }
}

/// A node's recorded total cost is the sum of its ancestor edge costs.
pub proof fn lemma_total_cost_is_path_cost(arena: Seq<SearchNode>, i: int)
    requires
        arena_ok(arena),
        0 <= i < arena.len(),
    ensures
        arena[i].total_cost == path_cost(arena, i),
    decreases i,
{
    assert(node_wf(arena, i));
    match arena[i].parent {
        None => {},
        Some(pp) => {
            lemma_total_cost_is_path_cost(arena, pp.node as int);
        },
    }
}

/// Path sums are non-negative.
pub proof fn lemma_path_sums_nonneg(arena: Seq<SearchNode>, i: int, name: Seq<char>)
    ensures
        path_bought_qty(arena, i, name) >= 0,
        path_bought_cost(arena, i, name) >= 0,
        path_vendor_qty(arena, i, name) >= 0,
        path_vendor_cost(arena, i, name) >= 0,
    decreases i,
{
    match arena[i].parent {
        None => {},
        Some(pp) => {
            if 0 <= pp.node < i {
                lemma_path_sums_nonneg(arena, pp.node as int, name);
            }
        },
    }
}

/// `i` lies on the ancestor path of `leaf`.
pub open spec fn on_path(arena: Seq<SearchNode>, leaf: int, i: int) -> bool
    decreases leaf,
{
    if leaf == i {
        true
    } else {
        match arena[leaf].parent {
            None => false,
            Some(pp) => 0 <= pp.node < leaf && on_path(arena, pp.node as int, i),
        }
    }
}

/// An edge seen at an ancestor is seen from the leaf.
pub proof fn lemma_path_has_monotone(arena: Seq<SearchNode>, leaf: int, i: int, name: Seq<char>)
    requires
        on_path(arena, leaf, i),
    ensures
        path_has_buy(arena, i, name) ==> path_has_buy(arena, leaf, name),
        path_has_vendor(arena, i, name) ==> path_has_vendor(arena, leaf, name),
    decreases leaf,
{
    if leaf == i {
    } else {
        match arena[leaf].parent {
            None => {},
            Some(pp) => {
                lemma_path_has_monotone(arena, pp.node as int, i, name);
            },
        }
    }
}

/// Following one parent link stays on the leaf's ancestor path.
pub proof fn lemma_on_path_step(arena: Seq<SearchNode>, leaf: int, i: int)
    requires
        on_path(arena, leaf, i),
        arena[i].parent is Some,
        0 <= arena[i].parent.unwrap().node < i,
    ensures
        on_path(arena, leaf, arena[i].parent.unwrap().node as int),
    decreases leaf,
{
    if leaf == i {
        assert(on_path(arena, arena[i].parent.unwrap().node as int, arena[i].parent.unwrap().node as int));
    } else {
        match arena[leaf].parent {
            None => {},
            Some(pp) => {
                lemma_on_path_step(arena, pp.node as int, i);
            },
        }
    }
}

/// The marketplace purchases aggregated so far for one item.
pub open spec fn buys_qty_of(s: Seq<Buy>, name: Seq<char>) -> int
    decreases s.len(),
{
    if s.len() == 0 {
        0
    } else {
        buys_qty_of(s.drop_last(), name) + (if s.last().name@ == name {
            s.last().quantity as int
        } else {
            0
        })
    }
}

/// The marketplace spending aggregated so far for one item.
pub open spec fn buys_cost_of(s: Seq<Buy>, name: Seq<char>) -> int
    decreases s.len(),
{
    if s.len() == 0 {
        0
    } else {
        buys_cost_of(s.drop_last(), name) + (if s.last().name@ == name {
            s.last().cost as int
        } else {
            0
        })
    }
}

/// The vendor purchases aggregated so far for one item.
pub open spec fn vendors_qty_of(s: Seq<Vendor>, name: Seq<char>) -> int
    decreases s.len(),
{
    if s.len() == 0 {
        0
    } else {
        vendors_qty_of(s.drop_last(), name) + (if s.last().name@ == name {
            s.last().quantity as int
        } else {
            0
        })
    }
}

/// The vendor spending aggregated so far for one item.
pub open spec fn vendors_cost_of(s: Seq<Vendor>, name: Seq<char>) -> int
    decreases s.len(),
{
    if s.len() == 0 {
        0
    } else {
        vendors_cost_of(s.drop_last(), name) + (if s.last().name@ == name {
            s.last().cost as int
        } else {
            0
        })
    }
}

/// Whether some aggregated marketplace purchase is for `name`.
pub open spec fn buys_has(s: Seq<Buy>, name: Seq<char>) -> bool
    decreases s.len(),
{
    if s.len() == 0 {
        false
    } else {
        buys_has(s.drop_last(), name) || s.last().name@ == name
    }
}

/// Whether some aggregated vendor purchase is for `name`.
pub open spec fn vendors_has(s: Seq<Vendor>, name: Seq<char>) -> bool
    decreases s.len(),
{
    if s.len() == 0 {
        false
    } else {
        vendors_has(s.drop_last(), name) || s.last().name@ == name
    }
}

/// Aggregates with pointwise equal names hold the same names.
pub proof fn lemma_buys_has_names(a: Seq<Buy>, b: Seq<Buy>)
    requires
        a.len() == b.len(),
        forall|m: int| 0 <= m < a.len() ==> (#[trigger] a[m]).name@ == b[m].name@,
    ensures
        forall|name: Seq<char>| #[trigger] buys_has(a, name) == buys_has(b, name),
    decreases a.len(),
{
    if a.len() > 0 {
        assert forall|m: int| 0 <= m < a.drop_last().len() implies (
        #[trigger] a.drop_last()[m]).name@ == b.drop_last()[m].name@ by {
            assert(a.drop_last()[m] == a[m]);
            assert(b.drop_last()[m] == b[m]);
        }
        lemma_buys_has_names(a.drop_last(), b.drop_last());
        assert(a.last() == a[a.len() - 1]);
        assert(b.last() == b[b.len() - 1]);
        assert(a.last().name@ == b.last().name@);
        assert forall|name: Seq<char>| #[trigger] buys_has(a, name) == buys_has(b, name) by {
            assert(buys_has(a, name) == (buys_has(a.drop_last(), name) || a.last().name@ == name));
            assert(buys_has(b, name) == (buys_has(b.drop_last(), name) || b.last().name@ == name));
            assert(buys_has(a.drop_last(), name) == buys_has(b.drop_last(), name));
        }
    }
}

/// Vendor aggregates with pointwise equal names hold the same names.
pub proof fn lemma_vendors_has_names(a: Seq<Vendor>, b: Seq<Vendor>)
    requires
        a.len() == b.len(),
        forall|m: int| 0 <= m < a.len() ==> (#[trigger] a[m]).name@ == b[m].name@,
    ensures
        forall|name: Seq<char>| #[trigger] vendors_has(a, name) == vendors_has(b, name),
    decreases a.len(),
{
    if a.len() > 0 {
        assert forall|m: int| 0 <= m < a.drop_last().len() implies (
        #[trigger] a.drop_last()[m]).name@ == b.drop_last()[m].name@ by {
            assert(a.drop_last()[m] == a[m]);
            assert(b.drop_last()[m] == b[m]);
        }
        lemma_vendors_has_names(a.drop_last(), b.drop_last());
        assert(a.last() == a[a.len() - 1]);
        assert(b.last() == b[b.len() - 1]);
        assert(a.last().name@ == b.last().name@);
        assert forall|name: Seq<char>| #[trigger] vendors_has(a, name) == vendors_has(b, name) by {
            assert(vendors_has(a, name) == (vendors_has(a.drop_last(), name) || a.last().name@
                == name));
            assert(vendors_has(b, name) == (vendors_has(b.drop_last(), name) || b.last().name@
                == name));
            assert(vendors_has(a.drop_last(), name) == vendors_has(b.drop_last(), name));
        }
    }
}

/// An aggregate holds every name standing at some index.
pub proof fn lemma_buys_has_at(s: Seq<Buy>, j: int)
    requires
        0 <= j < s.len(),
    ensures
        buys_has(s, s[j].name@),
    decreases s.len(),
{
    if j < s.len() - 1 {
        assert(s.drop_last()[j] == s[j]);
        lemma_buys_has_at(s.drop_last(), j);
    }
}

/// A vendor aggregate holds every name standing at some index.
pub proof fn lemma_vendors_has_at(s: Seq<Vendor>, j: int)
    requires
        0 <= j < s.len(),
    ensures
        vendors_has(s, s[j].name@),
    decreases s.len(),
{
    if j < s.len() - 1 {
        assert(s.drop_last()[j] == s[j]);
        lemma_vendors_has_at(s.drop_last(), j);
    }
}

/// The total cost of all aggregated marketplace purchases.
pub open spec fn sum_buy_costs(s: Seq<Buy>) -> int
    decreases s.len(),
{
    if s.len() == 0 {
        0
    } else {
        sum_buy_costs(s.drop_last()) + s.last().cost
    }
}

/// The total cost of all aggregated vendor purchases.
pub open spec fn sum_vendor_costs(s: Seq<Vendor>) -> int
    decreases s.len(),
{
    if s.len() == 0 {
        0
    } else {
        sum_vendor_costs(s.drop_last()) + s.last().cost
    }
}

/// Replacing one aggregated purchase shifts the per-name and overall sums
/// by the difference of the two entries.
pub proof fn lemma_buys_update(s: Seq<Buy>, j: int, b: Buy, name: Seq<char>)
    requires
        0 <= j < s.len(),
    ensures
        buys_qty_of(s.update(j, b), name) == buys_qty_of(s, name) - (if s[j].name@ == name {
            s[j].quantity as int
        } else {
            0
        }) + (if b.name@ == name {
            b.quantity as int
        } else {
            0
        }),
        buys_cost_of(s.update(j, b), name) == buys_cost_of(s, name) - (if s[j].name@ == name {
            s[j].cost as int
        } else {
            0
        }) + (if b.name@ == name {
            b.cost as int
        } else {
            0
        }),
        sum_buy_costs(s.update(j, b)) == sum_buy_costs(s) - s[j].cost + b.cost,
    decreases s.len(),
{
    if j == s.len() - 1 {
        assert(s.update(j, b).drop_last() =~= s.drop_last());
        assert(s.update(j, b).last() == b);
    } else {
        assert(s.update(j, b).drop_last() =~= s.drop_last().update(j, b));
        assert(s.update(j, b).last() == s.last());
        lemma_buys_update(s.drop_last(), j, b, name);
    }
}

/// Replacing one aggregated vendor purchase, likewise.
pub proof fn lemma_vendors_update(s: Seq<Vendor>, j: int, v: Vendor, name: Seq<char>)
    requires
        0 <= j < s.len(),
    ensures
        vendors_qty_of(s.update(j, v), name) == vendors_qty_of(s, name) - (if s[j].name@ == name {
            s[j].quantity as int
        } else {
            0
        }) + (if v.name@ == name {
            v.quantity as int
        } else {
            0
        }),
        vendors_cost_of(s.update(j, v), name) == vendors_cost_of(s, name) - (if s[j].name@
            == name {
            s[j].cost as int
        } else {
            0
        }) + (if v.name@ == name {
            v.cost as int
        } else {
            0
        }),
        sum_vendor_costs(s.update(j, v)) == sum_vendor_costs(s) - s[j].cost + v.cost,
    decreases s.len(),
{
    if j == s.len() - 1 {
        assert(s.update(j, v).drop_last() =~= s.drop_last());
        assert(s.update(j, v).last() == v);
    } else {
        assert(s.update(j, v).drop_last() =~= s.drop_last().update(j, v));
        assert(s.update(j, v).last() == s.last());
        lemma_vendors_update(s.drop_last(), j, v, name);
    }
}

/// With unique names, the aggregate for an entry's name is that entry.
pub proof fn lemma_buys_at(s: Seq<Buy>, j: int)
    requires
        0 <= j < s.len(),
        forall|a: int, b: int|
            0 <= a < s.len() && 0 <= b < s.len() && a != b ==> (#[trigger] s[a]).name@ != (
            #[trigger] s[b]).name@,
    ensures
        buys_qty_of(s, s[j].name@) == s[j].quantity,
        buys_cost_of(s, s[j].name@) == s[j].cost,
    decreases s.len(),
{
    if j == s.len() - 1 {
        lemma_buys_absent(s.drop_last(), s[j].name@);
    } else {
        assert(s.drop_last()[j] == s[j]);
        lemma_buys_at(s.drop_last(), j);
    }
}

/// A name with no aggregated entry has aggregate zero.
pub proof fn lemma_buys_absent(s: Seq<Buy>, name: Seq<char>)
    requires
        forall|j: int| 0 <= j < s.len() ==> (#[trigger] s[j]).name@ != name,
    ensures
        buys_qty_of(s, name) == 0,
        buys_cost_of(s, name) == 0,
    decreases s.len(),
{
    if s.len() > 0 {
        lemma_buys_absent(s.drop_last(), name);
    }
}

/// With unique names, the vendor aggregate for an entry's name is that
/// entry.
pub proof fn lemma_vendors_at(s: Seq<Vendor>, j: int)
    requires
        0 <= j < s.len(),
        forall|a: int, b: int|
            0 <= a < s.len() && 0 <= b < s.len() && a != b ==> (#[trigger] s[a]).name@ != (
            #[trigger] s[b]).name@,
    ensures
        vendors_qty_of(s, s[j].name@) == s[j].quantity,
        vendors_cost_of(s, s[j].name@) == s[j].cost,
    decreases s.len(),
{
    if j == s.len() - 1 {
        lemma_vendors_absent(s.drop_last(), s[j].name@);
    } else {
        assert(s.drop_last()[j] == s[j]);
        lemma_vendors_at(s.drop_last(), j);
    }
}

/// A name with no aggregated vendor entry has aggregate zero.
pub proof fn lemma_vendors_absent(s: Seq<Vendor>, name: Seq<char>)
    requires
        forall|j: int| 0 <= j < s.len() ==> (#[trigger] s[j]).name@ != name,
    ensures
        vendors_qty_of(s, name) == 0,
        vendors_cost_of(s, name) == 0,
    decreases s.len(),
{
    if s.len() > 0 {
        lemma_vendors_absent(s.drop_last(), name);
    }
}

/// The overall sum dominates each entry, and is non-negative.
pub proof fn lemma_sum_buy_bounds(s: Seq<Buy>)
    ensures
        sum_buy_costs(s) >= 0,
        forall|j: int| 0 <= j < s.len() ==> (#[trigger] s[j]).cost <= sum_buy_costs(s),
    decreases s.len(),
{
    if s.len() > 0 {
        lemma_sum_buy_bounds(s.drop_last());
        assert forall|j: int| 0 <= j < s.len() implies (#[trigger] s[j]).cost <= sum_buy_costs(
            s,
        ) by {
            if j < s.len() - 1 {
                assert(s.drop_last()[j] == s[j]);
            }
        }
    }
}

/// The overall vendor sum dominates each entry, and is non-negative.
pub proof fn lemma_sum_vendor_bounds(s: Seq<Vendor>)
    ensures
        sum_vendor_costs(s) >= 0,
        forall|j: int| 0 <= j < s.len() ==> (#[trigger] s[j]).cost <= sum_vendor_costs(s),
    decreases s.len(),
{
    if s.len() > 0 {
        lemma_sum_vendor_bounds(s.drop_last());
        assert forall|j: int| 0 <= j < s.len() implies (#[trigger] s[j]).cost <= sum_vendor_costs(
            s,
        ) by {
            if j < s.len() - 1 {
                assert(s.drop_last()[j] == s[j]);
            }
        }
    }
}


/// The flattener's output: per-item marketplace and vendor totals.
pub struct Plan {
    pub buy: Vec<Buy>,
    pub vendor: Vec<Vendor>,
}

/// What a correct flattening of the path above `leaf` looks like: names
/// are unique, every entry carries exactly the path totals for its item,
/// and every item the path buys has an entry.
pub open spec fn plan_props(arena: Seq<SearchNode>, leaf: int, p: Plan) -> bool {
    &&& (forall|a: int, b: int|
        0 <= a < p.buy@.len() && 0 <= b < p.buy@.len() && a != b ==> (#[trigger] p.buy@[a]).name@
            != (#[trigger] p.buy@[b]).name@)
    &&& (forall|a: int, b: int|
        0 <= a < p.vendor@.len() && 0 <= b < p.vendor@.len() && a != b ==> (
        #[trigger] p.vendor@[a]).name@ != (#[trigger] p.vendor@[b]).name@)
    &&& (forall|j: int|
        0 <= j < p.buy@.len() ==> path_has_buy(arena, leaf, (#[trigger] p.buy@[j]).name@)
            && p.buy@[j].quantity == path_bought_qty(arena, leaf, p.buy@[j].name@)
            && p.buy@[j].cost == path_bought_cost(arena, leaf, p.buy@[j].name@))
    &&& (forall|j: int|
        0 <= j < p.vendor@.len() ==> path_has_vendor(arena, leaf, (#[trigger] p.vendor@[j]).name@)
            && p.vendor@[j].quantity == path_vendor_qty(arena, leaf, p.vendor@[j].name@)
            && p.vendor@[j].cost == path_vendor_cost(arena, leaf, p.vendor@[j].name@))
    &&& (forall|name: Seq<char>|
        #[trigger] path_has_buy(arena, leaf, name) ==> buys_has(p.buy@, name))
    &&& (forall|name: Seq<char>|
        #[trigger] path_has_vendor(arena, leaf, name) ==> vendors_has(p.vendor@, name))
}

/// Finds the aggregated marketplace entry for `name`, if any.
fn find_buy(v: &Vec<Buy>, name: &String) -> (r: Option<usize>)
    ensures
        match r {
            Some(j) => j < v@.len() && v@[j as int].name@ == name@,
            None => forall|j: int| 0 <= j < v@.len() ==> (#[trigger] v@[j]).name@ != name@,
        },
{
    let mut i: usize = 0;
    while i < v.len()
        invariant
            0 <= i <= v@.len(),
            forall|j: int| 0 <= j < i ==> (#[trigger] v@[j]).name@ != name@,
        decreases v@.len() - i,
    {
        if v[i].name == *name {
            return Some(i);
        }
        i = i + 1;
    }
    None
}

/// Finds the aggregated vendor entry for `name`, if any.
fn find_vendor(v: &Vec<Vendor>, name: &String) -> (r: Option<usize>)
    ensures
        match r {
            Some(j) => j < v@.len() && v@[j as int].name@ == name@,
            None => forall|j: int| 0 <= j < v@.len() ==> (#[trigger] v@[j]).name@ != name@,
        },
{
    let mut i: usize = 0;
    while i < v.len()
        invariant
            0 <= i <= v@.len(),
            forall|j: int| 0 <= j < i ==> (#[trigger] v@[j]).name@ != name@,
        decreases v@.len() - i,
    {
        if v[i].name == *name {
            return Some(i);
        }
        i = i + 1;
    }
    None
}

/// Walks from the chosen leaf to the root, aggregating buy and vendor
/// edges into per-item totals; craft edges contribute nothing.  Returns
/// an overflow error exactly when some item's total bought or vendored
/// quantity does not fit in 32 bits; the aggregated costs always fit,
/// because their sum is the leaf's total cost.
pub fn flatten(arena: &Vec<SearchNode>, leaf: usize) -> (r: Result<Plan, PlanError>)
    requires
        arena_ok(arena@),
        leaf < arena@.len(),
    ensures
        r matches Ok(p) ==> plan_props(arena@, leaf as int, p) && sum_buy_costs(p.buy@)
            + sum_vendor_costs(p.vendor@) == arena@[leaf as int].total_cost,
        r matches Err(e) ==> e == PlanError::Overflow && exists|name: Seq<char>|
            path_bought_qty(arena@, leaf as int, name) > u32::MAX || path_vendor_qty(
                arena@,
                leaf as int,
                name,
            ) > u32::MAX,
{
    let mut buys: Vec<Buy> = Vec::new();
    let mut vendors: Vec<Vendor> = Vec::new();
    let mut cur: usize = leaf;
    while arena[cur].parent.is_some()
        invariant
            cur < arena@.len(),
            arena_ok(arena@),
            leaf < arena@.len(),
            on_path(arena@, leaf as int, cur as int),
            forall|a: int, b: int|
                0 <= a < buys@.len() && 0 <= b < buys@.len() && a != b ==> (
                #[trigger] buys@[a]).name@ != (#[trigger] buys@[b]).name@,
            forall|a: int, b: int|
                0 <= a < vendors@.len() && 0 <= b < vendors@.len() && a != b ==> (
                #[trigger] vendors@[a]).name@ != (#[trigger] vendors@[b]).name@,
            forall|name: Seq<char>|
                buys_qty_of(buys@, name) + path_bought_qty(arena@, cur as int, name)
                    == #[trigger] path_bought_qty(arena@, leaf as int, name),
            forall|name: Seq<char>|
                buys_cost_of(buys@, name) + path_bought_cost(arena@, cur as int, name)
                    == #[trigger] path_bought_cost(arena@, leaf as int, name),
            forall|name: Seq<char>|
                vendors_qty_of(vendors@, name) + path_vendor_qty(arena@, cur as int, name)
                    == #[trigger] path_vendor_qty(arena@, leaf as int, name),
            forall|name: Seq<char>|
                vendors_cost_of(vendors@, name) + path_vendor_cost(arena@, cur as int, name)
                    == #[trigger] path_vendor_cost(arena@, leaf as int, name),
            forall|j: int|
                0 <= j < buys@.len() ==> path_has_buy(arena@, leaf as int, (
                #[trigger] buys@[j]).name@),
            forall|j: int|
                0 <= j < vendors@.len() ==> path_has_vendor(arena@, leaf as int, (
                #[trigger] vendors@[j]).name@),
            forall|name: Seq<char>|
                #[trigger] path_has_buy(arena@, leaf as int, name) ==> buys_has(buys@, name)
                    || path_has_buy(arena@, cur as int, name),
            forall|name: Seq<char>|
                #[trigger] path_has_vendor(arena@, leaf as int, name) ==> vendors_has(
                    vendors@,
                    name,
                ) || path_has_vendor(arena@, cur as int, name),
            sum_buy_costs(buys@) + sum_vendor_costs(vendors@) + arena@[cur as int].total_cost
                == arena@[leaf as int].total_cost,
        decreases cur,
    {
        proof {
            assert(node_wf(arena@, cur as int));
        }
        let parent_link = match &arena[cur].parent {
            Some(p) => p,
            None => {
                proof {
                    assert(false);
                }
                return Err(PlanError::Overflow);
            },
        };
        {
                let next_cur = parent_link.node;
                match &parent_link.choice {
                    Choice::Craft(_) => {},
                    Choice::Buy(b) => {
                        proof {
                            lemma_path_has_monotone(
                                arena@,
                                leaf as int,
                                cur as int,
                                b.name@,
                            );
                            lemma_sum_buy_bounds(buys@);
                            lemma_sum_vendor_bounds(vendors@);
                            lemma_total_cost_is_path_cost(arena@, cur as int);
                        }
                        match find_buy(&buys, &b.name) {
                            Some(j) => {
                                if buys[j].quantity.checked_add(b.quantity).is_none() {
                                        proof {
                                            lemma_buys_at(buys@, j as int);
                                            lemma_path_sums_nonneg(
                                                arena@,
                                                parent_link.node as int,
                                                b.name@,
                                            );
                                            assert(arena@[cur as int].parent == Some(
                                                *parent_link,
                                            ));
                                            assert(path_bought_qty(arena@, cur as int, b.name@)
                                                == path_bought_qty(
                                                arena@,
                                                parent_link.node as int,
                                                b.name@,
                                            ) + b.quantity);
                                            assert(path_bought_qty(
                                                arena@,
                                                leaf as int,
                                                b.name@,
                                            ) > u32::MAX);
                                        }
                                        return Err(PlanError::Overflow);
                                }
                                proof {
                                    lemma_buys_at(buys@, j as int);
                                    lemma_path_sums_nonneg(
                                        arena@,
                                        parent_link.node as int,
                                        b.name@,
                                    );
                                }
                                let merged = buys[j].add(b);
                                proof {
                                    lemma_buys_update(buys@, j as int, merged, b.name@);
                                }
                                let ghost old_buys = buys@;
                                buys.set(j, merged);
                                proof {
                                    assert(buys@[j as int].name@ == b.name@);
                                    assert forall|m: int|
                                        0 <= m < buys@.len() && m != j implies #[trigger] buys@[m]
                                        == old_buys[m] by {}
                                    assert forall|m: int|
                                        0 <= m < old_buys.len() implies (
                                    #[trigger] old_buys[m]).name@ == buys@[m].name@ by {}
                                    lemma_buys_has_names(old_buys, buys@);
                                    lemma_buys_has_at(buys@, j as int);
                                    assert forall|name: Seq<char>|
                                        buys_qty_of(buys@, name) + path_bought_qty(
                                            arena@,
                                            parent_link.node as int,
                                            name,
                                        ) == #[trigger] path_bought_qty(
                                            arena@,
                                            leaf as int,
                                            name,
                                        ) by {
                                        lemma_buys_update(old_buys, j as int, merged, name);
                                    }
                                    assert forall|name: Seq<char>|
                                        buys_cost_of(buys@, name) + path_bought_cost(
                                            arena@,
                                            parent_link.node as int,
                                            name,
                                        ) == #[trigger] path_bought_cost(
                                            arena@,
                                            leaf as int,
                                            name,
                                        ) by {
                                        lemma_buys_update(old_buys, j as int, merged, name);
                                    }
                                }
                            },
                            None => {
                                proof {
                                    lemma_buys_absent(buys@, b.name@);
                                }
                                let ghost old_buys = buys@;
                                buys.push(Buy { name: b.name.clone(), quantity: b.quantity, cost: b.cost });
                                proof {
                                    assert(buys@.drop_last() =~= old_buys);
                                    assert(buys@[buys@.len() - 1].name@ == b.name@);
                                    lemma_buys_has_at(buys@, buys@.len() - 1);
                                    assert forall|m: int|
                                        0 <= m < old_buys.len() implies #[trigger] buys@[m]
                                        == old_buys[m] by {}
                                    assert forall|name: Seq<char>|
                                        buys_qty_of(buys@, name) + path_bought_qty(
                                            arena@,
                                            parent_link.node as int,
                                            name,
                                        ) == #[trigger] path_bought_qty(
                                            arena@,
                                            leaf as int,
                                            name,
                                        ) by {}
                                }
                            },
                        }
                    },
                    Choice::Vendor(v) => {
                        proof {
                            lemma_path_has_monotone(
                                arena@,
                                leaf as int,
                                cur as int,
                                v.name@,
                            );
                            lemma_sum_buy_bounds(buys@);
                            lemma_sum_vendor_bounds(vendors@);
                            lemma_total_cost_is_path_cost(arena@, cur as int);
                        }
                        match find_vendor(&vendors, &v.name) {
                            Some(j) => {
                                if vendors[j].quantity.checked_add(v.quantity).is_none() {
                                        proof {
                                            lemma_vendors_at(vendors@, j as int);
                                            lemma_path_sums_nonneg(
                                                arena@,
                                                parent_link.node as int,
                                                v.name@,
                                            );
                                            assert(arena@[cur as int].parent == Some(
                                                *parent_link,
                                            ));
                                            assert(path_vendor_qty(arena@, cur as int, v.name@)
                                                == path_vendor_qty(
                                                arena@,
                                                parent_link.node as int,
                                                v.name@,
                                            ) + v.quantity);
                                            assert(path_vendor_qty(
                                                arena@,
                                                leaf as int,
                                                v.name@,
                                            ) > u32::MAX);
                                        }
                                        return Err(PlanError::Overflow);
                                }
                                proof {
                                    lemma_vendors_at(vendors@, j as int);
                                    lemma_path_sums_nonneg(
                                        arena@,
                                        parent_link.node as int,
                                        v.name@,
                                    );
                                }
                                let merged = vendors[j].add(v);
                                proof {
                                    lemma_vendors_update(vendors@, j as int, merged, v.name@);
                                }
                                let ghost old_vendors = vendors@;
                                vendors.set(j, merged);
                                proof {
                                    assert(vendors@[j as int].name@ == v.name@);
                                    assert forall|m: int|
                                        0 <= m < vendors@.len() && m != j implies #[trigger] vendors@[m]
                                        == old_vendors[m] by {}
                                    assert forall|m: int|
                                        0 <= m < old_vendors.len() implies (
                                    #[trigger] old_vendors[m]).name@ == vendors@[m].name@ by {}
                                    lemma_vendors_has_names(old_vendors, vendors@);
                                    lemma_vendors_has_at(vendors@, j as int);
                                    assert forall|name: Seq<char>|
                                        vendors_qty_of(vendors@, name) + path_vendor_qty(
                                            arena@,
                                            parent_link.node as int,
                                            name,
                                        ) == #[trigger] path_vendor_qty(
                                            arena@,
                                            leaf as int,
                                            name,
                                        ) by {
                                        lemma_vendors_update(old_vendors, j as int, merged, name);
                                    }
                                    assert forall|name: Seq<char>|
                                        vendors_cost_of(vendors@, name) + path_vendor_cost(
                                            arena@,
                                            parent_link.node as int,
                                            name,
                                        ) == #[trigger] path_vendor_cost(
                                            arena@,
                                            leaf as int,
                                            name,
                                        ) by {
                                        lemma_vendors_update(old_vendors, j as int, merged, name);
                                    }
                                }
                            },
                            None => {
                                proof {
                                    lemma_vendors_absent(vendors@, v.name@);
                                }
                                let ghost old_vendors = vendors@;
                                vendors.push(Vendor { name: v.name.clone(), quantity: v.quantity, cost: v.cost });
                                proof {
                                    assert(vendors@.drop_last() =~= old_vendors);
                                    assert(vendors@[vendors@.len() - 1].name@ == v.name@);
                                    lemma_vendors_has_at(vendors@, vendors@.len() - 1);
                                    assert forall|m: int|
                                        0 <= m < old_vendors.len() implies #[trigger] vendors@[m]
                                        == old_vendors[m] by {}
                                }
                            },
                        }
                    },
                }
                proof {
                    assert(arena@[cur as int].parent == Some(*parent_link));
                    lemma_on_path_step(arena@, leaf as int, cur as int);
                    assert forall|name: Seq<char>| #[trigger] path_bought_qty(
                        arena@,
                        cur as int,
                        name,
                    ) == path_bought_qty(arena@, next_cur as int, name) + edge_buy_qty(
                        parent_link.choice,
                        name,
                    ) by {}
                    assert forall|name: Seq<char>| #[trigger] path_bought_cost(
                        arena@,
                        cur as int,
                        name,
                    ) == path_bought_cost(arena@, next_cur as int, name) + edge_buy_cost(
                        parent_link.choice,
                        name,
                    ) by {}
                    assert forall|name: Seq<char>| #[trigger] path_vendor_qty(
                        arena@,
                        cur as int,
                        name,
                    ) == path_vendor_qty(arena@, next_cur as int, name) + edge_vendor_qty(
                        parent_link.choice,
                        name,
                    ) by {}
                    assert forall|name: Seq<char>| #[trigger] path_vendor_cost(
                        arena@,
                        cur as int,
                        name,
                    ) == path_vendor_cost(arena@, next_cur as int, name) + edge_vendor_cost(
                        parent_link.choice,
                        name,
                    ) by {}
                    assert forall|name: Seq<char>| #[trigger] path_has_buy(
                        arena@,
                        cur as int,
                        name,
                    ) == (path_has_buy(arena@, next_cur as int, name) || (
                    parent_link.choice matches Choice::Buy(b) && b.name@ == name)) by {}
                    assert forall|name: Seq<char>| #[trigger] path_has_vendor(
                        arena@,
                        cur as int,
                        name,
                    ) == (path_has_vendor(arena@, next_cur as int, name) || (
                    parent_link.choice matches Choice::Vendor(v) && v.name@ == name)) by {}
                }
                cur = next_cur;
        }
    }
    proof {
        lemma_sum_buy_bounds(buys@);
        lemma_sum_vendor_bounds(vendors@);
        assert(node_wf(arena@, cur as int));
        assert forall|name: Seq<char>| !(#[trigger] path_has_buy(arena@, cur as int, name)) by {}
        assert forall|name: Seq<char>| !(#[trigger] path_has_vendor(arena@, cur as int, name)) by {}
        assert forall|name: Seq<char>| #[trigger] path_bought_qty(arena@, cur as int, name) == 0 by {}
        assert forall|name: Seq<char>| #[trigger] path_bought_cost(arena@, cur as int, name) == 0 by {}
        assert forall|name: Seq<char>| #[trigger] path_vendor_qty(arena@, cur as int, name) == 0 by {}
        assert forall|name: Seq<char>| #[trigger] path_vendor_cost(arena@, cur as int, name) == 0 by {}
        assert forall|j: int| 0 <= j < buys@.len() implies ((#[trigger] buys@[j]).quantity
            == path_bought_qty(arena@, leaf as int, buys@[j].name@) && buys@[j].cost
            == path_bought_cost(arena@, leaf as int, buys@[j].name@)) by {
            lemma_buys_at(buys@, j);
        }
        assert forall|j: int| 0 <= j < vendors@.len() implies ((#[trigger] vendors@[j]).quantity
            == path_vendor_qty(arena@, leaf as int, vendors@[j].name@) && vendors@[j].cost
            == path_vendor_cost(arena@, leaf as int, vendors@[j].name@)) by {
            lemma_vendors_at(vendors@, j);
        }
    }
    Ok(Plan { buy: buys, vendor: vendors })
}


/// Every recipe quantity in a description is strictly positive.
pub open spec fn description_positive(d: MaterialDescription) -> bool {
    forall|r: int, j: int|
        0 <= r < d.recipes@.len() && 0 <= j < d.recipes@[r]@.len() ==> ((#[trigger] d.recipes@[r]@[j]).1 > 0)
}

/// Every recipe quantity in the catalog is strictly positive, as the data
/// model demands of recipes.
pub open spec fn catalog_positive(entries: Seq<(String, MaterialDescription)>) -> bool {
    forall|i: int| 0 <= i < entries.len() ==> description_positive((#[trigger] entries[i]).1)
}

/// A lookup in a positive catalog yields a positive description.
pub proof fn lemma_lookup_positive(entries: Seq<(String, MaterialDescription)>, name: Seq<char>)
    requires
        catalog_positive(entries),
    ensures
        catalog_lookup(entries, name) matches Some(d) ==> description_positive(d),
    decreases entries.len(),
{
    if entries.len() > 0 {
        if entries[0].0@ == name {
            assert(description_positive(entries[0].1));
        } else {
            assert forall|i: int| 0 <= i < entries.drop_first().len() implies description_positive(
                (#[trigger] entries.drop_first()[i]).1,
            ) by {
                assert(entries.drop_first()[i] == entries[i + 1]);
            }
            lemma_lookup_positive(entries.drop_first(), name);
        }
    }
}

/// Checks that every recipe quantity in the catalog is positive.
pub fn catalog_is_positive(c: &Catalog) -> (b: bool)
    ensures
        b == catalog_positive(c.entries@),
{
    let mut i: usize = 0;
    while i < c.entries.len()
        invariant
            0 <= i <= c.entries@.len(),
            forall|m: int| 0 <= m < i ==> description_positive((#[trigger] c.entries@[m]).1),
        decreases c.entries@.len() - i,
    {
        let d = &c.entries[i].1;
        let mut r: usize = 0;
        while r < d.recipes.len()
            invariant
                0 <= r <= d.recipes@.len(),
                forall|a: int, b2: int|
                    0 <= a < r && 0 <= b2 < d.recipes@[a]@.len() ==> ((#[trigger] d.recipes@[a]@[b2]).1 > 0),
            decreases d.recipes@.len() - r,
        {
            let rec = &d.recipes[r];
            let mut j: usize = 0;
            while j < rec.len()
                invariant
                    0 <= j <= rec@.len(),
                    forall|m: int| 0 <= m < j ==> (#[trigger] rec@[m]).1 > 0,
                decreases rec@.len() - j,
            {
                if rec[j].1 == 0 {
                    return false;
                }
                j = j + 1;
            }
            r = r + 1;
        }
        proof {
            assert(description_positive(c.entries@[i as int].1));
        }
        i = i + 1;
    }
    true
}

/// What every child of an expansion satisfies: it points back at its
/// parent, its cost is the parent's plus its edge's (so never less), and
/// its pending quantities stay strictly positive.
pub proof fn lemma_child_wf(
    parent: SearchNode,
    me: int,
    d: MaterialDescription,
    children: Seq<SearchNode>,
    c: int,
)
    requires
        parent.remaining@.len() > 0,
        forall|j: int|
            0 <= j < parent.remaining@.len() ==> (#[trigger] parent.remaining@[j]).quantity > 0,
        description_positive(d),
        expansion_props(parent, me, d, children),
        0 <= c < children.len(),
    ensures
        children[c].parent is Some,
        children[c].parent.unwrap().node == me,
        children[c].total_cost == parent.total_cost + choice_cost(
            children[c].parent.unwrap().choice,
        ),
        children[c].total_cost >= parent.total_cost,
        forall|j: int|
            0 <= j < children[c].remaining@.len() ==> (#[trigger] children[c].remaining@[j]).quantity > 0,
{
    let nb: int = if buy_applicable(parent) {
        1
    } else {
        0
    };
    let nv: int = if d.vendor is Some {
        1
    } else {
        0
    };
    let next = next_rem(parent);
    assert(next.quantity > 0);
    if buy_applicable(parent) && c == 0 {
        let k = choose|k: int|
            is_first_listing(parent.listings@, next.name@, k) && parent.listings@[k].tiers@.len() > 0;
        assert(buy_child_props(parent, me, children[0], k));
    } else if d.vendor is Some && c == nb {
        let vp = d.vendor.unwrap();
        assert(vendor_child_props(parent, me, children[c], vp));
    } else {
        let i = c - nb - nv;
        assert(children[nb + nv + i] == children[c]);
        assert(craft_child_props(parent, me, children[nb + nv + i], d.recipes@[i]));
        let base = parent.remaining@.len() - 1;
        let recipe = d.recipes@[i];
        assert forall|j: int|
            0 <= j < children[c].remaining@.len() implies (#[trigger] children[c].remaining@[j]).quantity > 0 by {
            if j >= base {
                let m = j - base;
                assert(children[c].remaining@[base + m].quantity == recipe@[m].1 * next.quantity);
                assert(recipe@[m].1 > 0);
                assert(recipe@[m].1 * next.quantity > 0) by (nonlinear_arith)
                    requires
                        recipe@[m].1 > 0,
                        next.quantity > 0,
                ;
            }
        }
    }
}


/// Whether `child` is one of the children that expanding `parent` (at
/// arena id `me`) can produce under the given catalog: a buy from the
/// first listed tier of the next obligation's item, a vendor purchase at
/// its catalog price, or a craft by one of its catalog recipes.
pub open spec fn is_expansion_child(
    catalog_entries: Seq<(String, MaterialDescription)>,
    parent: SearchNode,
    me: int,
    child: SearchNode,
) -> bool {
    &&& parent.remaining@.len() > 0
    &&& ((exists|k: int|
        #[trigger] is_first_listing(parent.listings@, next_rem(parent).name@, k)
            && parent.listings@[k].tiers@.len() > 0 && buy_child_props(parent, me, child, k)) || (
    catalog_lookup(catalog_entries, next_rem(parent).name@) matches Some(d) && ((
    d.vendor matches Some(vp) && vendor_child_props(parent, me, child, vp)) || (exists|i: int|
        0 <= i < d.recipes@.len() && craft_child_props(parent, me, child, #[trigger] d.recipes@[i])))))
}

/// Node `i`'s parent link records a valid expansion edge.
pub open spec fn expansion_edge_ok(
    catalog_entries: Seq<(String, MaterialDescription)>,
    arena: Seq<SearchNode>,
    i: int,
) -> bool {
    arena[i].parent matches Some(pp) && 0 <= pp.node < i && is_expansion_child(
        catalog_entries,
        arena[pp.node as int],
        pp.node as int,
        arena[i],
    )
}

/// Each child an expansion returns is a valid expansion child.
pub proof fn lemma_is_expansion_child(
    catalog_entries: Seq<(String, MaterialDescription)>,
    parent: SearchNode,
    me: int,
    d: MaterialDescription,
    children: Seq<SearchNode>,
    c: int,
)
    requires
        parent.remaining@.len() > 0,
        catalog_lookup(catalog_entries, next_rem(parent).name@) == Some(d),
        expansion_props(parent, me, d, children),
        0 <= c < children.len(),
    ensures
        is_expansion_child(catalog_entries, parent, me, children[c]),
{
    let nb: int = if buy_applicable(parent) {
        1
    } else {
        0
    };
    let nv: int = if d.vendor is Some {
        1
    } else {
        0
    };
    let next = next_rem(parent);
    if buy_applicable(parent) && c == 0 {
        let k = choose|k: int|
            is_first_listing(parent.listings@, next.name@, k) && parent.listings@[k].tiers@.len() > 0;
        assert(buy_child_props(parent, me, children[0], k));
    } else if d.vendor is Some && c == nb {
        let vp = d.vendor.unwrap();
        assert(vendor_child_props(parent, me, children[c], vp));
    } else {
        let i = c - nb - nv;
        assert(children[nb + nv + i] == children[c]);
        assert(craft_child_props(parent, me, children[nb + nv + i], d.recipes@[i]));
    }
}

/// Non-decreasing pop costs.
pub open spec fn costs_sorted(s: Seq<int>) -> bool {
    forall|a: int, b: int| 0 <= a <= b < s.len() ==> #[trigger] s[a] <= #[trigger] s[b]
}

/// What the initial search node for the given target names and fetched
/// listings looks like: one unit pending per target, in order; one tier
/// queue per fetched item, in fetched order; no cost, no parent.
pub open spec fn initial_node_props(
    n: SearchNode,
    names: Seq<Seq<char>>,
    listings: Seq<(String, Item)>,
) -> bool {
    &&& n.parent is None
    &&& n.total_cost == 0
    &&& n.remaining@.len() == names.len()
    &&& (forall|j: int|
        0 <= j < names.len() ==> ((#[trigger] n.remaining@[j]).name@ == names[j]
            && n.remaining@[j].quantity == 1))
    &&& n.listings@.len() == listings.len()
    &&& (forall|j: int|
        0 <= j < listings.len() ==> ((#[trigger] n.listings@[j]).name@ == listings[j].0@
            && n.listings@[j].tiers@ == listings[j].1.sells@))
}

/// The next obligation of `node` admits none of the three expansions:
/// no tier of its item is listed on this branch, the catalog gives it no
/// vendor price, and it has no recipes.
pub open spec fn stuck_no_sourcing(
    entries: Seq<(String, MaterialDescription)>,
    node: SearchNode,
) -> bool {
    &&& node.remaining@.len() > 0
    &&& !buy_applicable(node)
    &&& (catalog_lookup(entries, next_rem(node).name@) matches Some(d) && d.vendor is None
        && d.recipes@.len() == 0)
}

/// The next obligation of `node` names an item the catalog does not know.
pub open spec fn missing_next(
    entries: Seq<(String, MaterialDescription)>,
    node: SearchNode,
) -> bool {
    node.remaining@.len() > 0 && catalog_lookup(entries, next_rem(node).name@) is None
}

/// Expanding `node` would overflow 32-bit cost or quantity arithmetic.
pub open spec fn expansion_overflow_case(
    entries: Seq<(String, MaterialDescription)>,
    node: SearchNode,
) -> bool {
    &&& node.remaining@.len() > 0
    &&& (buy_overflow_case(node) || (catalog_lookup(entries, next_rem(node).name@) matches Some(d)
        && ((d.vendor matches Some(vp) && vendor_overflows(node, vp)) || (exists|i: int|
        0 <= i < d.recipes@.len() && craft_overflows(node, #[trigger] d.recipes@[i])))))
}

/// What each planning error means: a well-formed tree of valid expansion
/// edges contains a node `i` that witnesses the failure — an item with
/// no way to source it, an item the catalog does not know, or expansion
/// arithmetic that leaves 32 bits.  No other error is ever produced.
pub open spec fn err_cause(
    entries: Seq<(String, MaterialDescription)>,
    arena: Seq<SearchNode>,
    i: int,
    e: PlanError,
) -> bool {
    &&& arena_ok(arena)
    &&& arena.len() > 0
    &&& (forall|j: int| 1 <= j < arena.len() ==> #[trigger] expansion_edge_ok(entries, arena, j))
    &&& 0 <= i < arena.len()
    &&& match e {
        PlanError::NoSourcing(n) => next_rem(arena[i]).name@ == n@ && stuck_no_sourcing(
            entries,
            arena[i],
        ),
        PlanError::MissingDescription(n) => next_rem(arena[i]).name@ == n@ && missing_next(
            entries,
            arena[i],
        ),
        PlanError::Overflow => expansion_overflow_case(entries, arena[i]),
        _ => false,
    }
}

/// Whether some frontier entry carries arena id `i`.
pub open spec fn in_frontier(q: SearchQueue, i: int) -> bool {
    exists|e: (usize, u32)| #[trigger] frontier_entries(q).contains(e) && e.0 == i
}


/// State similarity: same cost, same pending obligations, same listing
/// state, all up to string views.  The back-link is irrelevant: two
/// similar states expand identically.
pub open spec fn node_sim(a: SearchNode, b: SearchNode) -> bool {
    &&& a.total_cost == b.total_cost
    &&& a.remaining@.len() == b.remaining@.len()
    &&& (forall|i: int|
        0 <= i < a.remaining@.len() ==> rem_eq(#[trigger] a.remaining@[i], b.remaining@[i]))
    &&& listings_eq(a.listings@, b.listings@)
}

/// `t` is reachable from `s` by `n` valid expansion steps (up to
/// similarity at the end).
pub open spec fn reaches(
    entries: Seq<(String, MaterialDescription)>,
    s: SearchNode,
    t: SearchNode,
    n: nat,
) -> bool
    decreases n,
{
    if n == 0 {
        node_sim(s, t)
    } else {
        exists|mid: SearchNode, me: int|
            #[trigger] is_expansion_child(entries, s, me, mid) && reaches(
                entries,
                mid,
                t,
                (n - 1) as nat,
            )
    }
}

/// Similar states admit the same expansion steps.
pub proof fn lemma_sim_step(
    entries: Seq<(String, MaterialDescription)>,
    a: SearchNode,
    b: SearchNode,
    me: int,
    c: SearchNode,
)
    requires
        node_sim(a, b),
        is_expansion_child(entries, b, me, c),
    ensures
        is_expansion_child(entries, a, me, c),
{
    let na = next_rem(a);
    let nb = next_rem(b);
    assert(rem_eq(a.remaining@[a.remaining@.len() - 1], b.remaining@[b.remaining@.len() - 1]));
    assert(na.name@ == nb.name@ && na.quantity == nb.quantity);
    if exists|k: int|
        #[trigger] is_first_listing(b.listings@, nb.name@, k) && b.listings@[k].tiers@.len() > 0
            && buy_child_props(b, me, c, k) {
        let k = choose|k: int|
            #[trigger] is_first_listing(b.listings@, nb.name@, k) && b.listings@[k].tiers@.len()
                > 0 && buy_child_props(b, me, c, k);
        assert forall|j: int| 0 <= j < a.listings@.len() implies ((#[trigger] a.listings@[j]).name@
            == b.listings@[j].name@ && a.listings@[j].tiers@ == b.listings@[j].tiers@) by {
            assert(listing_eq(a.listings@[j], b.listings@[j]));
        }
        assert(is_first_listing(a.listings@, na.name@, k));
        assert forall|i: int| 0 <= i < a.remaining@.len() - 1 implies rem_eq(
            #[trigger] c.remaining@[i],
            a.remaining@[i],
        ) == rem_eq(c.remaining@[i], b.remaining@[i]) by {
            assert(rem_eq(a.remaining@[i], b.remaining@[i]));
        }
        assert(buy_child_props(a, me, c, k));
    } else {
        match catalog_lookup(entries, nb.name@) {
            None => {
                assert(false);
            },
            Some(d) => {
                if d.vendor matches Some(vp) && vendor_child_props(b, me, c, vp) {
                    let vp = d.vendor.unwrap();
                    assert forall|i: int| 0 <= i < c.remaining@.len() implies rem_eq(
                        #[trigger] c.remaining@[i],
                        a.remaining@[i],
                    ) by {
                        assert(rem_eq(c.remaining@[i], b.remaining@[i]));
                        assert(rem_eq(a.remaining@[i], b.remaining@[i]));
                    }
                    assert forall|j: int| 0 <= j < c.listings@.len() implies listing_eq(
                        #[trigger] c.listings@[j],
                        a.listings@[j],
                    ) by {
                        assert(listing_eq(c.listings@[j], b.listings@[j]));
                        assert(listing_eq(a.listings@[j], b.listings@[j]));
                    }
                    assert(vendor_child_props(a, me, c, vp));
                } else {
                    let i = choose|i: int|
                        0 <= i < d.recipes@.len() && craft_child_props(
                            b,
                            me,
                            c,
                            #[trigger] d.recipes@[i],
                        );
                    let base = b.remaining@.len() - 1;
                    assert forall|m: int| 0 <= m < base implies rem_eq(
                        #[trigger] c.remaining@[m],
                        a.remaining@[m],
                    ) by {
                        assert(rem_eq(c.remaining@[m], b.remaining@[m]));
                        assert(rem_eq(a.remaining@[m], b.remaining@[m]));
                    }
                    assert forall|j: int| 0 <= j < c.listings@.len() implies listing_eq(
                        #[trigger] c.listings@[j],
                        a.listings@[j],
                    ) by {
                        assert(listing_eq(c.listings@[j], b.listings@[j]));
                        assert(listing_eq(a.listings@[j], b.listings@[j]));
                    }
                    assert(craft_child_props(a, me, c, d.recipes@[i]));
                }
            },
        }
    }
}

/// Reachability transfers across similar starting states.
pub proof fn lemma_sim_reaches(
    entries: Seq<(String, MaterialDescription)>,
    a: SearchNode,
    b: SearchNode,
    t: SearchNode,
    n: nat,
)
    requires
        node_sim(a, b),
        reaches(entries, b, t, n),
    ensures
        reaches(entries, a, t, n),
    decreases n,
{
    if n == 0 {
        assert forall|i: int| 0 <= i < a.remaining@.len() implies rem_eq(
            #[trigger] a.remaining@[i],
            t.remaining@[i],
        ) by {
            assert(rem_eq(a.remaining@[i], b.remaining@[i]));
            assert(rem_eq(b.remaining@[i], t.remaining@[i]));
        }
        assert forall|j: int| 0 <= j < a.listings@.len() implies listing_eq(
            #[trigger] a.listings@[j],
            t.listings@[j],
        ) by {
            assert(listing_eq(a.listings@[j], b.listings@[j]));
            assert(listing_eq(b.listings@[j], t.listings@[j]));
        }
        assert(node_sim(a, t));
    } else {
        let (mid, me) = choose|mid: SearchNode, me: int|
            #[trigger] is_expansion_child(entries, b, me, mid) && reaches(
                entries,
                mid,
                t,
                (n - 1) as nat,
            );
        lemma_sim_step(entries, a, b, me, mid);
        assert(is_expansion_child(entries, a, me, mid));
    }
}

/// Cost never decreases along valid expansion steps.
pub proof fn lemma_reaches_cost(
    entries: Seq<(String, MaterialDescription)>,
    s: SearchNode,
    t: SearchNode,
    n: nat,
)
    requires
        reaches(entries, s, t, n),
    ensures
        s.total_cost <= t.total_cost,
    decreases n,
{
    if n == 0 {
    } else {
        let (mid, me) = choose|mid: SearchNode, me: int|
            #[trigger] is_expansion_child(entries, s, me, mid) && reaches(
                entries,
                mid,
                t,
                (n - 1) as nat,
            );
        lemma_reaches_cost(entries, mid, t, (n - 1) as nat);
    }
}

/// Every valid expansion step of a node is matched, up to similarity, by
/// one of the children its expansion returns.
pub proof fn lemma_expansion_complete(
    entries: Seq<(String, MaterialDescription)>,
    parent: SearchNode,
    me: int,
    me2: int,
    d: MaterialDescription,
    children: Seq<SearchNode>,
    c: SearchNode,
)
    requires
        parent.remaining@.len() > 0,
        catalog_lookup(entries, next_rem(parent).name@) == Some(d),
        expansion_props(parent, me, d, children),
        is_expansion_child(entries, parent, me2, c),
    ensures
        exists|idx: int| 0 <= idx < children.len() && node_sim(#[trigger] children[idx], c),
{
    let nb: int = if buy_applicable(parent) {
        1
    } else {
        0
    };
    let nv: int = if d.vendor is Some {
        1
    } else {
        0
    };
    let next = next_rem(parent);
    if exists|k: int|
        #[trigger] is_first_listing(parent.listings@, next.name@, k) && parent.listings@[k].tiers@.len() > 0 && buy_child_props(parent, me2, c, k) {
        let k = choose|k: int|
            #[trigger] is_first_listing(parent.listings@, next.name@, k) && parent.listings@[k].tiers@.len() > 0 && buy_child_props(parent, me2, c, k);
        assert(buy_applicable(parent));
        assert(buy_child_props(parent, me, children[0], k));
        let ch = children[0];
        assert forall|i: int| 0 <= i < ch.remaining@.len() implies rem_eq(
            #[trigger] ch.remaining@[i],
            c.remaining@[i],
        ) by {
            let t = parent.listings@[k].tiers@[0];
            if buy_take(next.quantity, t) < next.quantity {
                if i < parent.remaining@.len() - 1 {
                    assert(rem_eq(ch.remaining@[i], parent.remaining@[i]));
                    assert(rem_eq(c.remaining@[i], parent.remaining@[i]));
                }
            } else {
                assert(rem_eq(ch.remaining@[i], parent.remaining@[i]));
                assert(rem_eq(c.remaining@[i], parent.remaining@[i]));
            }
        }
        assert forall|j: int| 0 <= j < ch.listings@.len() implies listing_eq(
            #[trigger] ch.listings@[j],
            c.listings@[j],
        ) by {
            if j != k {
                assert(listing_eq(ch.listings@[j], parent.listings@[j]));
                assert(listing_eq(c.listings@[j], parent.listings@[j]));
            }
        }
        assert(node_sim(children[0], c));
    } else {
        match catalog_lookup(entries, next.name@) {
            None => {
                assert(false);
            },
            Some(d2) => {
                assert(d2 == d);
                if d.vendor matches Some(vp) && vendor_child_props(parent, me2, c, vp) {
                    let vp = d.vendor.unwrap();
                    assert(vendor_child_props(parent, me, children[nb], vp));
                    let ch = children[nb];
                    assert forall|i: int| 0 <= i < ch.remaining@.len() implies rem_eq(
                        #[trigger] ch.remaining@[i],
                        c.remaining@[i],
                    ) by {
                        assert(rem_eq(ch.remaining@[i], parent.remaining@[i]));
                        assert(rem_eq(c.remaining@[i], parent.remaining@[i]));
                    }
                    assert forall|j: int| 0 <= j < ch.listings@.len() implies listing_eq(
                        #[trigger] ch.listings@[j],
                        c.listings@[j],
                    ) by {
                        assert(listing_eq(ch.listings@[j], parent.listings@[j]));
                        assert(listing_eq(c.listings@[j], parent.listings@[j]));
                    }
                    assert(node_sim(children[nb], c));
                } else {
                    let i = choose|i: int|
                        0 <= i < d.recipes@.len() && craft_child_props(
                            parent,
                            me2,
                            c,
                            #[trigger] d.recipes@[i],
                        );
                    assert(craft_child_props(parent, me, children[nb + nv + i], d.recipes@[i]));
                    let ch = children[nb + nv + i];
                    let base = parent.remaining@.len() - 1;
                    let recipe = d.recipes@[i];
                    assert forall|m: int| 0 <= m < ch.remaining@.len() implies rem_eq(
                        #[trigger] ch.remaining@[m],
                        c.remaining@[m],
                    ) by {
                        if m < base {
                            assert(rem_eq(ch.remaining@[m], parent.remaining@[m]));
                            assert(rem_eq(c.remaining@[m], parent.remaining@[m]));
                        } else {
                            let j = m - base;
                            assert(ch.remaining@[base + j].name@ == recipe@[j].0@);
                            assert(c.remaining@[base + j].name@ == recipe@[j].0@);
                        }
                    }
                    assert forall|j: int| 0 <= j < ch.listings@.len() implies listing_eq(
                        #[trigger] ch.listings@[j],
                        c.listings@[j],
                    ) by {
                        assert(listing_eq(ch.listings@[j], parent.listings@[j]));
                        assert(listing_eq(c.listings@[j], parent.listings@[j]));
                    }
                    assert(node_sim(children[nb + nv + i], c));
                }
            },
        }
    }
}

/// Some frontier entry's node can still reach `t` by valid expansions.
pub open spec fn frontier_covers(
    entries: Seq<(String, MaterialDescription)>,
    q: SearchQueue,
    arena: Seq<SearchNode>,
    t: SearchNode,
) -> bool {
    exists|e: (usize, u32)|
        #[trigger] frontier_entries(q).contains(e) && e.0 < arena.len() && (exists|m: nat|
            reaches(entries, arena[e.0 as int], t, m))
}

/// Some not-yet-queued expansion child can still reach `t`.
pub open spec fn pending_covers(
    entries: Seq<(String, MaterialDescription)>,
    children: Seq<SearchNode>,
    upto: int,
    t: SearchNode,
) -> bool {
    exists|cc: int|
        0 <= cc < upto && (exists|m: nat| reaches(entries, #[trigger] children[cc], t, m))
}

/// Runs the best-first search from `root` until a node with no pending
/// obligations is popped.  The ghost result is the sequence of popped
/// total costs, which is non-decreasing, and the complete node returned
/// costs no more than any state reachable from `root` by valid expansion
/// steps whose obligations are empty: the first complete plan popped is
/// optimal.
///
/// Every error is witnessed by a node of a valid expansion tree: a
/// popped node with no children cannot source its next obligation, an
/// unknown item has no description, and arithmetic that leaves 32 bits
/// is an overflow.  An emptied frontier and an exhausted step budget are
/// both proved impossible, so no other error is returned.  (A cyclic
/// catalog makes the loop run until memory gives out, as the design's
/// open-hardening note on cycle detection records.)
pub fn search(catalog: &Catalog, root: SearchNode) -> (r: (
    Result<(Vec<SearchNode>, usize), PlanError>,
    Ghost<Seq<int>>,
))
    requires
        catalog_positive(catalog.entries@),
        root.parent is None,
        root.total_cost == 0,
        forall|j: int| 0 <= j < root.remaining@.len() ==> (#[trigger] root.remaining@[j]).quantity
            > 0,
    ensures
        costs_sorted(r.1@),
        r.0 matches Ok(out) ==> (arena_ok(out.0@) && out.0@.len() > 0 && out.0@[0] == root && (
        out.1 as int) < out.0@.len() && out.0@[out.1 as int].remaining@.len() == 0 && r.1@.len() > 0
            && out.0@[out.1 as int].total_cost == r.1@.last() && (root_listings_good(out.0@)
            ==> branch_consumption_ok(out.0@)) && (forall|i: int|
            1 <= i < out.0@.len() ==> #[trigger] expansion_edge_ok(
                catalog.entries@,
                out.0@,
                i,
            )) && (forall|i: int|
            0 <= i < out.0@.len() && (#[trigger] out.0@[i]).remaining@.len() == 0 ==> out.0@[i].total_cost >= out.0@[out.1 as int].total_cost)),
        r.0 matches Err(e) ==> exists|arena: Seq<SearchNode>, i: int|
            #[trigger] err_cause(catalog.entries@, arena, i, e) && arena[0] == root,
        r.0 matches Ok(out) ==> forall|t: SearchNode, n: nat|
            #[trigger] reaches(catalog.entries@, root, t, n) && t.remaining@.len() == 0
                ==> out.0@[out.1 as int].total_cost <= t.total_cost,
{
    let mut arena: Vec<SearchNode> = Vec::new();
    let mut queue = frontier_new();
    let ghost mut pops: Seq<int> = Seq::empty();
    let ghost mut popped_ids: Set<int> = Set::empty();
    let root_cost = root.total_cost;
    arena.push(root);
    frontier_push(&mut queue, 0, root_cost);
    proof {
        assert(frontier_entries(queue).len() == 1);
        assert forall|t: SearchNode, n: nat|
            #[trigger] reaches(catalog.entries@, root, t, n) && t.remaining@.len()
                == 0 implies frontier_covers(catalog.entries@, queue, arena@, t) by {
            assert(frontier_entries(queue).contains((0usize, root_cost)));
            assert(arena@[0] == root);
            assert(reaches(catalog.entries@, arena@[0], t, n));
        }
        assert forall|i: int|
            #![trigger popped_ids.contains(i)]
            0 <= i < arena@.len() implies in_frontier(queue, i) || popped_ids.contains(i) by {
            assert(frontier_entries(queue).contains((0usize, root_cost)));
        }
        if root_listings_good(arena@) {
            assert forall|i: int| 0 <= i < arena@.len() implies (#[trigger] listings_from_root(
                arena@,
                i,
            ) && tiers_positive(arena@[i].listings@)) by {
                assert forall|k: int| 0 <= k < arena@[0].listings@.len() implies ((
                #[trigger] arena@[i].listings@[k]).name@ == arena@[0].listings@[k].name@
                    && arena@[i].listings@[k].tiers@ == consume_tiers(
                    arena@[0].listings@[k].tiers@,
                    path_bought_qty(arena@, i, arena@[0].listings@[k].name@),
                )) by {
                    assert(path_bought_qty(arena@, i, arena@[0].listings@[k].name@) == 0);
                }
            }
        }
    }
    // The loop needs a decreasing measure even though, on a cyclic
    // catalog, the search itself has none; the counter is large enough
    // that the arena would outgrow the address space before it ran out,
    // which the proof after the loop turns into unreachability.
    let mut fuel: u64 = 0xffff_ffff_ffff_ffff;
    while fuel > 0
        invariant
            arena@.len() >= 1,
            arena@[0] == root,
            arena_ok(arena@),
            forall|e: (usize, u32)|
                #[trigger] frontier_entries(queue).contains(e) ==> e.0 < arena@.len() && arena@[e.0
                    as int].total_cost == e.1,
            costs_sorted(pops),
            pops.len() > 0 ==> forall|e: (usize, u32)|
                #[trigger] frontier_entries(queue).contains(e) ==> pops.last() <= e.1,
            root_listings_good(arena@) ==> branch_consumption_ok(arena@),
            forall|i: int|
                1 <= i < arena@.len() ==> #[trigger] expansion_edge_ok(
                    catalog.entries@,
                    arena@,
                    i,
                ),
            forall|i: int|
                #![trigger popped_ids.contains(i)]
                0 <= i < arena@.len() ==> in_frontier(queue, i) || popped_ids.contains(i),
            forall|i: int|
                #[trigger] popped_ids.contains(i) ==> 0 <= i < arena@.len() && arena@[i].remaining@.len() > 0,
            frontier_entries(queue).len() > 0,
            arena@.len() as int + fuel as int >= 1 + u64::MAX as int,
            forall|t: SearchNode, n: nat|
                #[trigger] reaches(catalog.entries@, root, t, n) && t.remaining@.len() == 0
                    ==> frontier_covers(catalog.entries@, queue, arena@, t),
        decreases fuel,
    {
        let ghost q0 = queue;
        let ghost pre_entries = frontier_entries(queue);
        let popped = frontier_pop(&mut queue);
        match popped {
            None => {
                proof {
                    assert(false);
                }
                return (Err(PlanError::Infeasible), Ghost(pops));
            },
            Some((id, cost)) => {
                let ghost old_pops = pops;
                proof {
                    pops = pops.push(cost as int);
                    assert forall|a: int, b: int| 0 <= a <= b < pops.len() implies #[trigger] pops[a] <= #[trigger] pops[b] by {
                        if b < pops.len() - 1 {
                            assert(old_pops[a] <= old_pops[b]);
                        } else if a < pops.len() - 1 {
                            assert(old_pops[a] <= old_pops[old_pops.len() - 1]);
                        }
                    }
                }
                proof {
                    assert forall|e: (usize, u32)| #[trigger] frontier_entries(
                        queue,
                    ).contains(e) implies e.0 < arena@.len() && arena@[e.0 as int].total_cost
                        == e.1 && pops.last() <= e.1 by {
                        assert(pre_entries.contains(e));
                    }
                }
                if arena[id].remaining.len() == 0 {
                    proof {
                        assert forall|t: SearchNode, n: nat|
                            #[trigger] reaches(catalog.entries@, root, t, n) && t.remaining@.len()
                                == 0 implies arena@[id as int].total_cost <= t.total_cost by {
                            assert(frontier_covers(catalog.entries@, q0, arena@, t));
                            let e = choose|e: (usize, u32)|
                                #[trigger] frontier_entries(q0).contains(e) && e.0 < arena@.len()
                                    && (exists|m: nat|
                                    reaches(catalog.entries@, arena@[e.0 as int], t, m));
                            let m = choose|m: nat|
                                reaches(catalog.entries@, arena@[e.0 as int], t, m);
                            lemma_reaches_cost(catalog.entries@, arena@[e.0 as int], t, m);
                            assert(cost <= e.1);
                        }
                        assert forall|i: int|
                            0 <= i < arena@.len() && (#[trigger] arena@[i]).remaining@.len()
                                == 0 implies arena@[i].total_cost >= arena@[id as int].total_cost
                             by {
                            if i != id {
                                if popped_ids.contains(i) {
                                } else {
                                    assert(in_frontier(q0, i));
                                    let e = choose|e: (usize, u32)|
                                        #[trigger] frontier_entries(q0).contains(e) && e.0 == i;
                                    assert(cost <= e.1);
                                    assert(e.1 == arena@[i].total_cost);
                                }
                            }
                        }
                    }
                    return (Ok((arena, id)), Ghost(pops));
                }
                let ghost old_popped = popped_ids;
                proof {
                    popped_ids = popped_ids.insert(id as int);
                    assert forall|i: int|
                        #![trigger popped_ids.contains(i)]
                        0 <= i < arena@.len() implies in_frontier(queue, i) || popped_ids.contains(
                        i,
                    ) by {
                        if i == id {
                            assert(popped_ids.contains(i));
                        } else if !old_popped.contains(i) {
                            assert(in_frontier(q0, i));
                            let e = choose|e: (usize, u32)|
                                #[trigger] frontier_entries(q0).contains(e) && e.0 == i;
                            assert(e != (id, cost));
                            assert(frontier_entries(queue) == pre_entries.remove((id, cost)));
                            assert(Multiset::singleton((id, cost)).count(e) == 0);
                            assert(frontier_entries(queue).count(e) == pre_entries.count(e));
                            assert(frontier_entries(queue).contains(e));
                            assert(in_frontier(queue, i));
                        }
                    }
                }
                let children = match expand(catalog, &arena[id], id) {
                    Ok(cs) => cs,
                    Err(e) => {
                        proof {
                            if !buy_overflow_case(arena@[id as int]) {
                                match catalog_lookup(
                                    catalog.entries@,
                                    next_rem(arena@[id as int]).name@,
                                ) {
                                    None => {},
                                    Some(dd) => {},
                                }
                            }
                            assert(err_cause(catalog.entries@, arena@, id as int, e));
                        }
                        return (Err(e), Ghost(pops));
                    },
                };
                let ghost parent_snapshot = arena@[id as int];
                let ghost d = catalog_lookup(
                    catalog.entries@,
                    next_rem(parent_snapshot).name@,
                ).unwrap();
                let ghost all = children@;
                proof {
                    lemma_lookup_positive(catalog.entries@, next_rem(parent_snapshot).name@);
                    assert(node_wf(arena@, id as int));
                    assert(expansion_props(parent_snapshot, id as int, d, children@));
                    assert forall|t: SearchNode, n: nat|
                        #[trigger] reaches(catalog.entries@, root, t, n) && t.remaining@.len()
                            == 0 implies frontier_covers(catalog.entries@, queue, arena@, t)
                        || pending_covers(catalog.entries@, all, all.len() as int, t) by {
                        assert(frontier_covers(catalog.entries@, q0, arena@, t));
                        let e = choose|e: (usize, u32)|
                            #[trigger] frontier_entries(q0).contains(e) && e.0 < arena@.len() && (
                            exists|m: nat| reaches(catalog.entries@, arena@[e.0 as int], t, m));
                        let m = choose|m: nat| reaches(catalog.entries@, arena@[e.0 as int], t, m);
                        if e != (id, cost) {
                            assert(frontier_entries(queue) == pre_entries.remove((id, cost)));
                            assert(Multiset::singleton((id, cost)).count(e) == 0);
                            assert(frontier_entries(queue).count(e) == pre_entries.count(e));
                            assert(frontier_entries(queue).contains(e));
                            assert(frontier_covers(catalog.entries@, queue, arena@, t));
                        } else {
                            if m == 0 {
                                assert(node_sim(arena@[id as int], t));
                                assert(false);
                            } else {
                                let (mid, me3) = choose|mid: SearchNode, me3: int|
                                    #[trigger] is_expansion_child(
                                        catalog.entries@,
                                        parent_snapshot,
                                        me3,
                                        mid,
                                    ) && reaches(catalog.entries@, mid, t, (m - 1) as nat);
                                lemma_expansion_complete(
                                    catalog.entries@,
                                    parent_snapshot,
                                    id as int,
                                    me3,
                                    d,
                                    all,
                                    mid,
                                );
                                let idx = choose|idx: int|
                                    0 <= idx < all.len() && node_sim(#[trigger] all[idx], mid);
                                lemma_sim_reaches(
                                    catalog.entries@,
                                    all[idx],
                                    mid,
                                    t,
                                    (m - 1) as nat,
                                );
                                assert(pending_covers(catalog.entries@, all, all.len() as int, t));
                            }
                        }
                    }
                }
                if children.len() == 0 {
                    let last_index = arena[id].remaining.len() - 1;
                    let nm = arena[id].remaining[last_index].name.clone();
                    proof {
                        assert(!buy_applicable(parent_snapshot));
                        assert(d.vendor is None);
                        assert(d.recipes@.len() == 0);
                        assert(stuck_no_sourcing(catalog.entries@, arena@[id as int]));
                        assert(err_cause(
                            catalog.entries@,
                            arena@,
                            id as int,
                            PlanError::NoSourcing(nm),
                        ));
                    }
                    return (Err(PlanError::NoSourcing(nm)), Ghost(pops));
                }
                let ghost arena_base = arena@.len() as int;
                let mut work = children;
                while work.len() > 0
                    invariant
                        work@ == all.take(work@.len() as int),
                        work@.len() <= all.len(),
                        arena@.len() as int == arena_base + all.len() - work@.len(),
                        frontier_entries(queue).len() as int >= all.len() - work@.len(),
                        arena@.len() >= 1,
                        arena@[0] == root,
                        arena_ok(arena@),
                        id < arena@.len(),
                        arena@[id as int] == parent_snapshot,
                        parent_snapshot.total_cost == cost,
                        pops.len() > 0,
                        pops.last() == cost,
                        expansion_props(parent_snapshot, id as int, d, all),
                        parent_snapshot.remaining@.len() > 0,
                        forall|j: int|
                            0 <= j < parent_snapshot.remaining@.len() ==> (
                            #[trigger] parent_snapshot.remaining@[j]).quantity > 0,
                        description_positive(d),
                        forall|e: (usize, u32)|
                            #[trigger] frontier_entries(queue).contains(e) ==> e.0 < arena@.len()
                                && arena@[e.0 as int].total_cost == e.1,
                        forall|e: (usize, u32)|
                            #[trigger] frontier_entries(queue).contains(e) ==> pops.last() <= e.1,
                        root_listings_good(arena@) ==> branch_consumption_ok(arena@),
                        forall|i: int|
                            1 <= i < arena@.len() ==> #[trigger] expansion_edge_ok(
                                catalog.entries@,
                                arena@,
                                i,
                            ),
                        forall|i: int|
                            #![trigger popped_ids.contains(i)]
                            0 <= i < arena@.len() ==> in_frontier(queue, i)
                                || popped_ids.contains(i),
                        forall|i: int|
                            #[trigger] popped_ids.contains(i) ==> 0 <= i < arena@.len()
                                && arena@[i].remaining@.len() > 0,
                        forall|t: SearchNode, n: nat|
                            #[trigger] reaches(catalog.entries@, root, t, n) && t.remaining@.len()
                                == 0 ==> frontier_covers(catalog.entries@, queue, arena@, t)
                                || pending_covers(catalog.entries@, all, work@.len() as int, t),
                    decreases work@.len(),
                {
                    let ghost n0 = work@.len() as int;
                    let child = match work.pop() {
                        Some(ch) => ch,
                        None => {
                            proof {
                                assert(false);
                            }
                            return (Err(PlanError::Overflow), Ghost(pops));
                        },
                    };
                    proof {
                        assert(work@ =~= all.take(n0 - 1));
                        assert(child == all[n0 - 1]);
                        lemma_child_wf(parent_snapshot, id as int, d, all, n0 - 1);
                    }
                    let idx = arena.len();
                    let ccost = child.total_cost;
                    let ghost old_arena = arena@;
                    arena.push(child);
                    proof {
                        assert forall|i: int| 0 <= i < arena@.len() implies node_wf(arena@, i) by {
                            if i < arena@.len() - 1 {
                                assert(node_wf(old_arena, i));
                            }
                        }
                        assert forall|i: int|
                            1 <= i < arena@.len() implies #[trigger] expansion_edge_ok(
                            catalog.entries@,
                            arena@,
                            i,
                        ) by {
                            if i < arena@.len() - 1 {
                                assert(expansion_edge_ok(catalog.entries@, old_arena, i));
                                assert(arena@[i] == old_arena[i]);
                                let pp = old_arena[i].parent.unwrap();
                                assert(arena@[pp.node as int] == old_arena[pp.node as int]);
                            } else {
                                lemma_is_expansion_child(
                                    catalog.entries@,
                                    parent_snapshot,
                                    id as int,
                                    d,
                                    all,
                                    n0 - 1,
                                );
                                assert(arena@[i] == child);
                                assert(arena@[id as int] == parent_snapshot);
                            }
                        }
                        if root_listings_good(arena@) {
                            let ext = arena@;
                            assert(listings_from_root(old_arena, id as int));
                            assert(tiers_positive(parent_snapshot.listings@));
                            assert forall|a: int, b: int|
                                0 <= a < parent_snapshot.listings@.len() && 0 <= b
                                    < parent_snapshot.listings@.len() && a != b implies (
                            #[trigger] parent_snapshot.listings@[a]).name@ != (
                            #[trigger] parent_snapshot.listings@[b]).name@ by {
                                assert(parent_snapshot.listings@[a].name@ == ext[0].listings@[a].name@);
                                assert(parent_snapshot.listings@[b].name@ == ext[0].listings@[b].name@);
                            }
                            lemma_child_listings(parent_snapshot, id as int, d, all, n0 - 1);
                            let choice = child.parent.unwrap().choice;
                            assert forall|i: int| 0 <= i < ext.len() implies (
                            #[trigger] listings_from_root(ext, i) && tiers_positive(
                                ext[i].listings@,
                            )) by {
                                if i < ext.len() - 1 {
                                    assert(listings_from_root(old_arena, i));
                                    assert forall|k: int|
                                        0 <= k < ext[0].listings@.len() implies ((
                                    #[trigger] ext[i].listings@[k]).name@ == ext[0].listings@[k].name@ && ext[i].listings@[k].tiers@ == consume_tiers(
                                        ext[0].listings@[k].tiers@,
                                        path_bought_qty(ext, i, ext[0].listings@[k].name@),
                                    )) by {
                                        lemma_path_qty_prefix(
                                            old_arena,
                                            ext,
                                            i,
                                            ext[0].listings@[k].name@,
                                        );
                                    }
                                } else {
                                    assert(ext[i] == child);
                                    assert forall|k: int|
                                        0 <= k < ext[0].listings@.len() implies ((
                                    #[trigger] ext[i].listings@[k]).name@ == ext[0].listings@[k].name@ && ext[i].listings@[k].tiers@ == consume_tiers(
                                        ext[0].listings@[k].tiers@,
                                        path_bought_qty(ext, i, ext[0].listings@[k].name@),
                                    )) by {
                                        let nm = ext[0].listings@[k].name@;
                                        lemma_path_qty_prefix(old_arena, ext, id as int, nm);
                                        lemma_path_sums_nonneg(old_arena, id as int, nm);
                                        assert(path_bought_qty(ext, i, nm) == path_bought_qty(
                                            ext,
                                            id as int,
                                            nm,
                                        ) + edge_buy_qty(choice, nm));
                                        lemma_consume_compose(
                                            ext[0].listings@[k].tiers@,
                                            path_bought_qty(old_arena, id as int, nm),
                                            edge_buy_qty(choice, nm),
                                        );
                                    }
                                }
                            }
                        }
                    }
                    let ghost q1 = queue;
                    let ghost pre_push = frontier_entries(queue);
                    frontier_push(&mut queue, idx, ccost);
                    proof {
                        assert(frontier_entries(queue).contains((idx, ccost)));
                        assert forall|i: int|
                            #![trigger popped_ids.contains(i)]
                            0 <= i < arena@.len() implies in_frontier(queue, i)
                                || popped_ids.contains(i) by {
                            assert(!popped_ids.contains(i) || popped_ids.contains(i));
                            if i == idx {
                                assert(in_frontier(queue, i));
                            } else if i < arena@.len() - 1 {
                                assert(old_arena[i] == arena@[i]);
                                if !popped_ids.contains(i) {
                                    assert(in_frontier(q1, i));
                                    let e = choose|e: (usize, u32)|
                                        #[trigger] frontier_entries(q1).contains(e) && e.0 == i;
                                    assert(frontier_entries(queue) == pre_push.insert(
                                        (idx, ccost),
                                    ));
                                    assert(frontier_entries(queue).count(e) >= pre_push.count(e));
                                    assert(frontier_entries(queue).contains(e));
                                    assert(in_frontier(queue, i));
                                }
                            }
                        }
                        assert forall|t: SearchNode, n: nat|
                            #[trigger] reaches(catalog.entries@, root, t, n) && t.remaining@.len()
                                == 0 implies frontier_covers(catalog.entries@, queue, arena@, t)
                            || pending_covers(catalog.entries@, all, work@.len() as int, t) by {
                            if frontier_covers(catalog.entries@, q1, old_arena, t) {
                                let e = choose|e: (usize, u32)|
                                    #[trigger] frontier_entries(q1).contains(e) && e.0
                                        < old_arena.len() && (exists|m: nat|
                                        reaches(catalog.entries@, old_arena[e.0 as int], t, m));
                                assert(frontier_entries(queue) == pre_push.insert((idx, ccost)));
                                assert(frontier_entries(queue).count(e) >= pre_push.count(e));
                                assert(frontier_entries(queue).contains(e));
                                assert(arena@[e.0 as int] == old_arena[e.0 as int]);
                                assert(frontier_covers(catalog.entries@, queue, arena@, t));
                            } else {
                                assert(pending_covers(catalog.entries@, all, n0, t));
                                let cc = choose|cc: int|
                                    0 <= cc < n0 && (exists|m: nat|
                                        reaches(catalog.entries@, #[trigger] all[cc], t, m));
                                if cc < n0 - 1 {
                                    assert(pending_covers(
                                        catalog.entries@,
                                        all,
                                        work@.len() as int,
                                        t,
                                    ));
                                } else {
                                    assert(all[cc] == child);
                                    assert(arena@[idx as int] == child);
                                    assert(frontier_entries(queue).contains((idx, ccost)));
                                    let m = choose|m: nat|
                                        reaches(catalog.entries@, all[cc], t, m);
                                    assert(reaches(catalog.entries@, arena@[idx as int], t, m));
                                    assert(frontier_covers(catalog.entries@, queue, arena@, t));
                                }
                            }
                        }
                        assert forall|e: (usize, u32)| #[trigger] frontier_entries(
                            queue,
                        ).contains(e) implies e.0 < arena@.len() && arena@[e.0 as int].total_cost
                            == e.1 && pops.last() <= e.1 by {
                            if e != (idx, ccost) {
                                assert(pre_push.contains(e));
                            }
                        }
                    }
                }
                fuel = fuel - 1;
            },
        }
    }
    let arena_len = arena.len();
    proof {
        assert(arena_len as int == arena@.len() as int);
        assert(false);
    }
    (Err(PlanError::Infeasible), Ghost(pops))
}


/// What `plan` promises of a returned plan: it is the flattening of the
/// complete leaf of a well-formed search tree rooted at the initial node
/// that the given targets and listings define, and its costs sum to that
/// leaf's total cost.
pub open spec fn plan_from_initial(
    catalog_entries: Seq<(String, MaterialDescription)>,
    names: Seq<Seq<char>>,
    listings: Seq<(String, Item)>,
    p: Plan,
) -> bool {
    exists|arena: Seq<SearchNode>, leaf: int|
        {
            &&& #[trigger] arena_ok(arena)
            &&& arena.len() > 0
            &&& 0 <= leaf < arena.len()
            &&& initial_node_props(arena[0], names, listings)
            &&& arena[leaf].remaining@.len() == 0
            &&& #[trigger] plan_props(arena, leaf, p)
            &&& sum_buy_costs(p.buy@) + sum_vendor_costs(p.vendor@) == arena[leaf].total_cost
            &&& (root_listings_good(arena) ==> branch_consumption_ok(arena))
            &&& (forall|i: int|
                1 <= i < arena.len() ==> #[trigger] expansion_edge_ok(catalog_entries, arena, i))
            &&& (forall|i: int|
                0 <= i < arena.len() && (#[trigger] arena[i]).remaining@.len() == 0 ==> arena[i].total_cost >= arena[leaf].total_cost)
        }
}

/// What a planning error means at the top level: either some node of a
/// well-formed expansion tree rooted at the initial state witnesses the
/// failure (see [`err_cause`]), or — for an overflow — a complete leaf
/// was found whose per-item purchase totals do not fit in 32 bits.
pub open spec fn plan_err_cause(
    catalog_entries: Seq<(String, MaterialDescription)>,
    names: Seq<Seq<char>>,
    listings: Seq<(String, Item)>,
    e: PlanError,
) -> bool {
    ||| (exists|arena: Seq<SearchNode>, i: int|
        #[trigger] err_cause(catalog_entries, arena, i, e) && initial_node_props(
            arena[0],
            names,
            listings,
        ))
    ||| (e == PlanError::Overflow && exists|arena: Seq<SearchNode>, leaf: int|
        #![trigger arena_ok(arena), arena[leaf]]
        {
            &&& arena_ok(arena)
            &&& arena.len() > 0
            &&& (forall|j: int|
                1 <= j < arena.len() ==> #[trigger] expansion_edge_ok(catalog_entries, arena, j))
            &&& initial_node_props(arena[0], names, listings)
            &&& 0 <= leaf < arena.len()
            &&& arena[leaf].remaining@.len() == 0
            &&& (exists|name: Seq<char>|
                path_bought_qty(arena, leaf, name) > u32::MAX || path_vendor_qty(
                    arena,
                    leaf,
                    name,
                ) > u32::MAX)
        })
}

/// Computes a minimum-cost procurement plan for the targets, given the
/// catalog and the fetched marketplace listings.  One obligation per
/// target is seeded, in order; the search then runs as [`search`]
/// describes and the chosen leaf is flattened as [`flatten`] describes.
pub fn plan(targets: &Vec<String>, descriptions: Catalog, listings: &Vec<(String, Item)>) -> (r:
    Result<Plan, PlanError>)
    requires
        catalog_positive(descriptions.entries@),
    ensures
        r matches Ok(p) ==> plan_from_initial(
            descriptions.entries@,
            targets@.map_values(|t: String| t@),
            listings@,
            p,
        ),
        r matches Err(e) ==> plan_err_cause(
            descriptions.entries@,
            targets@.map_values(|t: String| t@),
            listings@,
            e,
        ),
        r matches Ok(p) ==> forall|init: SearchNode, t: SearchNode, n: nat|
            #![trigger reaches(descriptions.entries@, init, t, n)]
            initial_node_props(init, targets@.map_values(|t2: String| t2@), listings@) && reaches(
                descriptions.entries@,
                init,
                t,
                n,
            ) && t.remaining@.len() == 0 ==> sum_buy_costs(p.buy@) + sum_vendor_costs(p.vendor@)
                <= t.total_cost,
{
    let mut remaining: Vec<Remainder> = Vec::new();
    let mut i: usize = 0;
    while i < targets.len()
        invariant
            0 <= i <= targets@.len(),
            remaining@.len() == i,
            forall|j: int|
                0 <= j < i ==> ((#[trigger] remaining@[j]).name@ == targets@[j]@
                    && remaining@[j].quantity == 1),
        decreases targets@.len() - i,
    {
        remaining.push(Remainder { name: targets[i].clone(), quantity: 1 });
        i = i + 1;
    }
    let mut initial_listings: Vec<ItemListing> = Vec::new();
    let mut i: usize = 0;
    while i < listings.len()
        invariant
            0 <= i <= listings@.len(),
            initial_listings@.len() == i,
            forall|j: int|
                0 <= j < i ==> ((#[trigger] initial_listings@[j]).name@ == listings@[j].0@
                    && initial_listings@[j].tiers@ == listings@[j].1.sells@),
        decreases listings@.len() - i,
    {
        let sells = listings[i].1.sells();
        let mut tiers: VecDeque<Price> = VecDeque::new();
        let mut t: usize = 0;
        while t < sells.len()
            invariant
                0 <= t <= sells@.len(),
                tiers@ == sells@.take(t as int),
            decreases sells@.len() - t,
        {
            tiers.push_back(sells[t]);
            proof {
                assert(sells@.take(t as int).push(sells@[t as int]) =~= sells@.take(t as int + 1));
            }
            t = t + 1;
        }
        proof {
            assert(sells@.take(sells@.len() as int) =~= sells@);
        }
        initial_listings.push(ItemListing { name: listings[i].0.clone(), tiers });
        i = i + 1;
    }
    let root = SearchNode { parent: None, remaining, listings: initial_listings, total_cost: 0 };
    let ghost names = targets@.map_values(|t: String| t@);
    proof {
        assert(initial_node_props(root, names, listings@));
    }
    let (outcome, trace) = search(&descriptions, root);
    let (arena, leaf) = match outcome {
        Ok(pair) => pair,
        Err(e) => {
            proof {
                let (wa, wi) = choose|wa: Seq<SearchNode>, wi: int|
                    #[trigger] err_cause(descriptions.entries@, wa, wi, e) && wa[0] == root;
                assert(initial_node_props(wa[0], names, listings@));
                assert(plan_err_cause(descriptions.entries@, names, listings@, e));
            }
            return Err(e);
        },
    };
    let result = match flatten(&arena, leaf) {
        Ok(p) => p,
        Err(e) => {
            proof {
                assert(initial_node_props(arena@[0], names, listings@));
                assert(plan_err_cause(descriptions.entries@, names, listings@, e));
            }
            return Err(e);
        },
    };
    proof {
        assert(arena_ok(arena@) && plan_props(arena@, leaf as int, result));
        assert(initial_node_props(arena@[0], names, listings@));
        assert forall|init: SearchNode, t: SearchNode, n: nat|
            #![trigger reaches(descriptions.entries@, init, t, n)]
            initial_node_props(init, names, listings@) && reaches(
                descriptions.entries@,
                init,
                t,
                n,
            ) && t.remaining@.len() == 0 implies sum_buy_costs(result.buy@) + sum_vendor_costs(
            result.vendor@,
        ) <= t.total_cost by {
            let rootv = arena@[0];
            assert forall|i: int| 0 <= i < rootv.remaining@.len() implies rem_eq(
                #[trigger] rootv.remaining@[i],
                init.remaining@[i],
            ) by {}
            assert forall|j: int| 0 <= j < rootv.listings@.len() implies listing_eq(
                #[trigger] rootv.listings@[j],
                init.listings@[j],
            ) by {}
            assert(node_sim(rootv, init));
            lemma_sim_reaches(descriptions.entries@, rootv, init, t, n);
            assert(reaches(descriptions.entries@, rootv, t, n));
        }
    }
    Ok(result)
}

/// Plans for a single target item.
pub fn plan_isolated(target: &String, descriptions: Catalog, listings: &Vec<(String, Item)>) -> (r:
    Result<Plan, PlanError>)
    requires
        catalog_positive(descriptions.entries@),
    ensures
        r matches Ok(p) ==> plan_from_initial(
            descriptions.entries@,
            seq![target@],
            listings@,
            p,
        ),
        r matches Err(e) ==> plan_err_cause(
            descriptions.entries@,
            seq![target@],
            listings@,
            e,
        ),
        r matches Ok(p) ==> forall|init: SearchNode, t: SearchNode, n: nat|
            #![trigger reaches(descriptions.entries@, init, t, n)]
            initial_node_props(init, seq![target@], listings@) && reaches(
                descriptions.entries@,
                init,
                t,
                n,
            ) && t.remaining@.len() == 0 ==> sum_buy_costs(p.buy@) + sum_vendor_costs(p.vendor@)
                <= t.total_cost,
{
    let mut targets = Vec::<String>::new();
    targets.push(target.clone());
    let r = plan(&targets, descriptions, listings);
    proof {
        assert(targets@.map_values(|t: String| t@) =~= seq![target@]);
    }
    r
}


/// The tier queue after `n` units have been taken from its front in
/// order: whole tiers are removed as they are exhausted, and a partially
/// used front tier keeps its price with the remaining units.
pub open spec fn consume_tiers(s: Seq<Price>, n: int) -> Seq<Price>
    decreases s.len(),
{
    if n <= 0 {
        s
    } else if s.len() == 0 {
        s
    } else if n < s[0].quantity {
        s.update(
            0,
            Price {
                listings: s[0].listings,
                unit_price: s[0].unit_price,
                quantity: (s[0].quantity - n) as u32,
            },
        )
    } else {
        consume_tiers(s.drop_first(), n - s[0].quantity)
    }
}

/// Front-order consumption composes additively: taking `a` units and
/// then `b` more leaves the same queue as taking `a + b` at once.
pub proof fn lemma_consume_compose(s: Seq<Price>, a: int, b: int)
    requires
        0 <= a,
        0 <= b,
    ensures
        consume_tiers(consume_tiers(s, a), b) == consume_tiers(s, a + b),
    decreases s.len(),
{
    if a == 0 {
    } else if s.len() == 0 {
    } else if a < s[0].quantity {
        let t = Price {
            listings: s[0].listings,
            unit_price: s[0].unit_price,
            quantity: (s[0].quantity - a) as u32,
        };
        let s1 = s.update(0, t);
        if b == 0 {
        } else if b < s1[0].quantity {
            assert(consume_tiers(s1, b) =~= consume_tiers(s, a + b));
        } else {
            assert(s1.drop_first() =~= s.drop_first());
        }
    } else {
        lemma_consume_compose(s.drop_first(), a - s[0].quantity, b);
    }
}

/// One buy step consumes its units from the front of the item's queue:
/// the child's tier queue for the bought item is the parent's with the
/// units taken consumed in front order, and every other item's queue is
/// untouched.  Composed along a branch (see [`lemma_consume_compose`]),
/// the tiers an item has left equal the original market tiers minus the
/// branch's total purchases of it, consumed strictly in listing order.
pub proof fn lemma_buy_step_consumes(parent: SearchNode, me: int, child: SearchNode, k: int)
    requires
        parent.remaining@.len() > 0,
        0 <= k < parent.listings@.len(),
        parent.listings@[k].tiers@.len() > 0,
        parent.listings@[k].tiers@[0].quantity > 0,
        buy_child_props(parent, me, child, k),
    ensures
        child.listings@[k].tiers@ == consume_tiers(
            parent.listings@[k].tiers@,
            buy_take(next_rem(parent).quantity, parent.listings@[k].tiers@[0]) as int,
        ),
        forall|j: int|
            0 <= j < parent.listings@.len() && j != k ==> listing_eq(
                #[trigger] child.listings@[j],
                parent.listings@[j],
            ),
{
    let tiers = parent.listings@[k].tiers@;
    let t = tiers[0];
    let want = next_rem(parent).quantity;
    let take = buy_take(want, t);
    if want < t.quantity {
        assert(consume_tiers(tiers, take as int) =~= tiers.update(0, reduced_tier(want, t)));
    } else {
        assert(consume_tiers(tiers.drop_first(), 0) =~= tiers.drop_first());
    }
}


/// Every tier of a queue still offers at least one unit.
pub open spec fn prices_positive(s: Seq<Price>) -> bool {
    forall|t: int| 0 <= t < s.len() ==> (#[trigger] s[t]).quantity > 0
}

/// Every tier on every listing entry still offers at least one unit.
pub open spec fn tiers_positive(l: Seq<ItemListing>) -> bool {
    forall|k: int| 0 <= k < l.len() ==> prices_positive((#[trigger] l[k]).tiers@)
}

/// Listing entries carry pairwise distinct item names.
pub open spec fn listing_names_unique(l: Seq<ItemListing>) -> bool {
    forall|a: int, b: int|
        0 <= a < l.len() && 0 <= b < l.len() && a != b ==> (#[trigger] l[a]).name@ != (
        #[trigger] l[b]).name@
}

/// Node `i`'s listing state is the root's with each item's branch
/// purchases consumed from the front, entry for entry: names and order
/// are the root's, and each tier queue is the root's queue with the
/// branch's total buys of that item taken in front order.
pub open spec fn listings_from_root(arena: Seq<SearchNode>, i: int) -> bool {
    let root = arena[0];
    &&& arena[i].listings@.len() == root.listings@.len()
    &&& (forall|k: int|
        0 <= k < root.listings@.len() ==> ((#[trigger] arena[i].listings@[k]).name@
            == root.listings@[k].name@ && arena[i].listings@[k].tiers@ == consume_tiers(
            root.listings@[k].tiers@,
            path_bought_qty(arena, i, root.listings@[k].name@),
        )))
}

/// Whether the root's listing state is a proper mapping with stocked
/// tiers: names are pairwise distinct and every tier offers a unit.
pub open spec fn root_listings_good(arena: Seq<SearchNode>) -> bool {
    listing_names_unique(arena[0].listings@) && tiers_positive(arena[0].listings@)
}

/// The branch-consumption invariant over a whole arena.
pub open spec fn branch_consumption_ok(arena: Seq<SearchNode>) -> bool {
    forall|i: int|
        0 <= i < arena.len() ==> (#[trigger] listings_from_root(arena, i) && tiers_positive(
            arena[i].listings@,
        ))
}

/// Branch purchase totals only read the prefix of the arena up to the
/// node, so extending the arena does not change them.
pub proof fn lemma_path_qty_prefix(
    arena: Seq<SearchNode>,
    ext: Seq<SearchNode>,
    i: int,
    name: Seq<char>,
)
    requires
        arena.len() <= ext.len(),
        forall|j: int| 0 <= j < arena.len() ==> ext[j] == arena[j],
        0 <= i < arena.len(),
    ensures
        path_bought_qty(ext, i, name) == path_bought_qty(arena, i, name),
    decreases i,
{
    assert(ext[i] == arena[i]);
    match arena[i].parent {
        None => {},
        Some(pp) => {
            if 0 <= pp.node < i {
                lemma_path_qty_prefix(arena, ext, pp.node as int, name);
            }
        },
    }
}

/// Consuming from positive tiers leaves positive tiers.
pub proof fn lemma_consume_positive(s: Seq<Price>, n: int)
    requires
        prices_positive(s),
    ensures
        prices_positive(consume_tiers(s, n)),
    decreases s.len(),
{
    if n <= 0 {
    } else if s.len() == 0 {
    } else if n < s[0].quantity {
        let res = s.update(
            0,
            Price {
                listings: s[0].listings,
                unit_price: s[0].unit_price,
                quantity: (s[0].quantity - n) as u32,
            },
        );
        assert(consume_tiers(s, n) == res);
        assert forall|t: int| 0 <= t < res.len() implies (#[trigger] res[t]).quantity > 0 by {
            if t != 0 {
                assert(res[t] == s[t]);
            }
        }
    } else {
        assert forall|t: int| 0 <= t < s.drop_first().len() implies (
        #[trigger] s.drop_first()[t]).quantity > 0 by {
            assert(s.drop_first()[t] == s[t + 1]);
        }
        assert(prices_positive(s.drop_first()));
        lemma_consume_positive(s.drop_first(), n - s[0].quantity);
    }
}


/// Each expansion child's listing state is its parent's with exactly its
/// own edge's marketplace purchase consumed from the front: names and
/// order are kept, the bought item's queue loses the units taken, and
/// every other queue is untouched.  Tier positivity is preserved.
pub proof fn lemma_child_listings(
    parent: SearchNode,
    me: int,
    d: MaterialDescription,
    children: Seq<SearchNode>,
    c: int,
)
    requires
        parent.remaining@.len() > 0,
        forall|j: int|
            0 <= j < parent.remaining@.len() ==> (#[trigger] parent.remaining@[j]).quantity > 0,
        description_positive(d),
        expansion_props(parent, me, d, children),
        0 <= c < children.len(),
        listing_names_unique(parent.listings@),
        tiers_positive(parent.listings@),
    ensures
        children[c].parent is Some,
        children[c].listings@.len() == parent.listings@.len(),
        forall|k: int|
            0 <= k < parent.listings@.len() ==> ((#[trigger] children[c].listings@[k]).name@
                == parent.listings@[k].name@ && children[c].listings@[k].tiers@ == consume_tiers(
                parent.listings@[k].tiers@,
                edge_buy_qty(children[c].parent.unwrap().choice, parent.listings@[k].name@),
            )),
        tiers_positive(children[c].listings@),
{
    let nb: int = if buy_applicable(parent) {
        1
    } else {
        0
    };
    let nv: int = if d.vendor is Some {
        1
    } else {
        0
    };
    let next = next_rem(parent);
    lemma_child_wf(parent, me, d, children, c);
    let child = children[c];
    let choice = child.parent.unwrap().choice;
    if buy_applicable(parent) && c == 0 {
        let k0 = choose|k: int|
            is_first_listing(parent.listings@, next.name@, k) && parent.listings@[k].tiers@.len() > 0;
        assert(buy_child_props(parent, me, child, k0));
        let t = parent.listings@[k0].tiers@[0];
        let take = buy_take(next.quantity, t);
        assert(parent.listings@[k0].tiers@[0].quantity > 0);
        lemma_buy_step_consumes(parent, me, child, k0);
        assert forall|k: int|
            0 <= k < parent.listings@.len() implies ((#[trigger] child.listings@[k]).name@
                == parent.listings@[k].name@ && child.listings@[k].tiers@ == consume_tiers(
                parent.listings@[k].tiers@,
                edge_buy_qty(choice, parent.listings@[k].name@),
            )) by {
            if k == k0 {
                assert(edge_buy_qty(choice, parent.listings@[k].name@) == take as int);
            } else {
                assert(parent.listings@[k].name@ != next.name@);
                assert(edge_buy_qty(choice, parent.listings@[k].name@) == 0);
                assert(listing_eq(child.listings@[k], parent.listings@[k]));
            }
        }
        assert forall|k: int| 0 <= k < child.listings@.len() implies prices_positive(
            (#[trigger] child.listings@[k]).tiers@,
        ) by {
            assert(prices_positive(parent.listings@[k].tiers@));
            lemma_consume_positive(
                parent.listings@[k].tiers@,
                edge_buy_qty(choice, parent.listings@[k].name@),
            );
        }
    } else {
        if d.vendor is Some && c == nb {
            let vp = d.vendor.unwrap();
            assert(vendor_child_props(parent, me, child, vp));
        } else {
            let i = c - nb - nv;
            assert(children[nb + nv + i] == children[c]);
            assert(craft_child_props(parent, me, children[nb + nv + i], d.recipes@[i]));
        }
        assert(listings_eq(child.listings@, parent.listings@));
        assert forall|k: int|
            0 <= k < parent.listings@.len() implies ((#[trigger] child.listings@[k]).name@
                == parent.listings@[k].name@ && child.listings@[k].tiers@ == consume_tiers(
                parent.listings@[k].tiers@,
                edge_buy_qty(choice, parent.listings@[k].name@),
            )) by {
            assert(listing_eq(child.listings@[k], parent.listings@[k]));
            assert(edge_buy_qty(choice, parent.listings@[k].name@) == 0);
        }
        assert forall|k: int| 0 <= k < child.listings@.len() implies prices_positive(
            (#[trigger] child.listings@[k]).tiers@,
        ) by {
            assert(listing_eq(child.listings@[k], parent.listings@[k]));
            assert(prices_positive(parent.listings@[k].tiers@));
        }
    }
}

} // verus!
