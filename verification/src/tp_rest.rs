//! Marketplace listing data: price tiers, per-item listings, and the
//! request that fetches them from the remote commerce endpoint.
//!
//! The network transfer itself is I/O and stays with the caller; this
//! module owns the data model, the request construction, and the pairing
//! of a response with the item names it was requested for.

#![verifier::loop_isolation(false)]

use vstd::prelude::*;
use crate::descriptions::{Catalog, MaterialDescription};
use crate::errors::PlanError;

verus! {

/// One sell tier: up to `quantity` units available at exactly `unit_price`.
/// `listings` is metadata from the source feed and has no effect on cost.
#[derive(Clone, Copy, PartialEq, Eq, Structural, Debug)]
pub struct Price {
    pub listings: u32,
    pub unit_price: u32,
    pub quantity: u32,
}

impl Price {
    /// Builds a tier from its three feed fields.
    pub fn from_parts(listings: u32, unit_price: u32, quantity: u32) -> (r: Price)
        ensures
            r.listings == listings,
            r.unit_price == unit_price,
            r.quantity == quantity,
    {
        Price { listings, unit_price, quantity }
    }

    pub fn listings(&self) -> (r: u32)
        ensures
            r == self.listings,
    {
        self.listings
    }

    pub fn unit_price(&self) -> (r: u32)
        ensures
            r == self.unit_price,
    {
        self.unit_price
    }

    pub fn quantity(&self) -> (r: u32)
        ensures
            r == self.quantity,
    {
        self.quantity
    }

    /// The same tier with `taken` fewer units available.
    pub fn copy_reduced_by(&self, taken: u32) -> (r: Price)
        requires
            taken <= self.quantity,
        ensures
            r.listings == self.listings,
            r.unit_price == self.unit_price,
            r.quantity == self.quantity - taken,
    {
        Price { listings: self.listings, unit_price: self.unit_price, quantity: (self.quantity
            - taken) }
    }
}

/// One item of the commerce response: its marketplace identifier and the
/// buy and sell sides of its order book.
#[derive(Clone, Debug)]
pub struct Item {
    pub id: u32,
    pub buys: Vec<Price>,
    pub sells: Vec<Price>,
}

impl Item {
    /// Builds an item from its response fields.
    pub fn from_parts(id: u32, buys: Vec<Price>, sells: Vec<Price>) -> (r: Item)
        ensures
            r.id == id,
            r.buys@ == buys@,
            r.sells@ == sells@,
    {
        Item { id, buys, sells }
    }

    pub fn id(&self) -> (r: u32)
        ensures
            r == self.id,
    {
        self.id
    }

    pub fn buys(&self) -> (r: &Vec<Price>)
        ensures
            r@ == self.buys@,
    {
        &self.buys
    }

    pub fn sells(&self) -> (r: &Vec<Price>)
        ensures
            r@ == self.sells@,
    {
        &self.sells
    }

    /// A deep copy of the item.
    pub fn clone_item(&self) -> (r: Item)
        ensures
            item_eq(r, *self),
    {
        Item { id: self.id, buys: copy_prices(&self.buys), sells: copy_prices(&self.sells) }
    }
}


/// Item equality up to views.
pub open spec fn item_eq(a: Item, b: Item) -> bool {
    a.id == b.id && a.buys@ == b.buys@ && a.sells@ == b.sells@
}

/// Copies a tier vector.
fn copy_prices(v: &Vec<Price>) -> (r: Vec<Price>)
    ensures
        r@ == v@,
{
    let mut out: Vec<Price> = Vec::new();
    let mut i: usize = 0;
    while i < v.len()
        invariant
            0 <= i <= v@.len(),
            out@ == v@.take(i as int),
        decreases v@.len() - i,
    {
        out.push(v[i]);
        proof {
            assert(v@.take(i as int).push(v@[i as int]) =~= v@.take(i as int + 1));
        }
        i = i + 1;
    }
    proof {
        assert(v@.take(v@.len() as int) =~= v@);
    }
    out
}

/// Finds the first dictionary entry for a marketplace identifier.
fn find_dict(d: &Vec<(u32, String)>, id: u32) -> (r: Option<usize>)
    ensures
        match r {
            Some(k) => is_first_dict(d@, id, k as int),
            None => forall|m: int| 0 <= m < d@.len() ==> (#[trigger] d@[m]).0 != id,
        },
{
    let mut k: usize = 0;
    while k < d.len()
        invariant
            0 <= k <= d@.len(),
            forall|m: int| 0 <= m < k ==> (#[trigger] d@[m]).0 != id,
        decreases d@.len() - k,
    {
        if d[k].0 == id {
            return Some(k);
        }
        k = k + 1;
    }
    None
}

/// The decimal digit character for a value below ten.
pub open spec fn dec_digit(d: nat) -> char {
    if d == 0 {
        '0'
    } else if d == 1 {
        '1'
    } else if d == 2 {
        '2'
    } else if d == 3 {
        '3'
    } else if d == 4 {
        '4'
    } else if d == 5 {
        '5'
    } else if d == 6 {
        '6'
    } else if d == 7 {
        '7'
    } else if d == 8 {
        '8'
    } else {
        '9'
    }
}

/// The decimal rendering of a number, most significant digit first.
pub open spec fn dec_of(n: nat) -> Seq<char>
    decreases n,
{
    if n < 10 {
        seq![dec_digit(n)]
    } else {
        dec_of(n / 10).push(dec_digit(n % 10))
    }
}

/// The identifiers joined with commas, in order.
pub open spec fn ids_joined(ids: Seq<u32>) -> Seq<char>
    decreases ids.len(),
{
    if ids.len() == 0 {
        Seq::empty()
    } else if ids.len() == 1 {
        dec_of(ids[0] as nat)
    } else {
        ids_joined(ids.drop_last()) + seq![','] + dec_of(ids.last() as nat)
    }
}

/// The request path for a set of identifiers.
pub open spec fn listing_path(ids: Seq<u32>) -> Seq<char> {
    "v2/commerce/listings?ids="@ + ids_joined(ids)
}

/// The one-character string for a decimal digit.
fn digit_string(d: u32) -> (r: String)
    requires
        d < 10,
    ensures
        r@ == seq![dec_digit(d as nat)],
{
    let r = if d == 0 {
        String::from_str("0")
    } else if d == 1 {
        String::from_str("1")
    } else if d == 2 {
        String::from_str("2")
    } else if d == 3 {
        String::from_str("3")
    } else if d == 4 {
        String::from_str("4")
    } else if d == 5 {
        String::from_str("5")
    } else if d == 6 {
        String::from_str("6")
    } else if d == 7 {
        String::from_str("7")
    } else if d == 8 {
        String::from_str("8")
    } else {
        String::from_str("9")
    };
    proof {
        reveal_strlit("0");
        reveal_strlit("1");
        reveal_strlit("2");
        reveal_strlit("3");
        reveal_strlit("4");
        reveal_strlit("5");
        reveal_strlit("6");
        reveal_strlit("7");
        reveal_strlit("8");
        reveal_strlit("9");
        assert(r@ =~= seq![dec_digit(d as nat)]);
    }
    r
}

/// Renders a number in decimal, most significant digit first.
fn u32_to_string(x: u32) -> (r: String)
    ensures
        r@ == dec_of(x as nat),
    decreases x,
{
    if x < 10 {
        digit_string(x)
    } else {
        let mut s = u32_to_string(x / 10);
        let last = digit_string(x % 10);
        s.append(last.as_str());
        proof {
            assert(s@ =~= dec_of((x / 10) as nat).push(dec_digit((x % 10) as nat)));
        }
        s
    }
}

/// The identifiers to fetch listings for, and which item name each
/// identifier was taken from.
pub struct ListingRequest {
    pub ids: Vec<u32>,
    pub dict: Vec<(u32, String)>,
}

/// `k` is the first dictionary entry carrying `id`.
pub open spec fn is_first_dict(d: Seq<(u32, String)>, id: u32, k: int) -> bool {
    0 <= k < d.len() && d[k].0 == id && forall|j: int| 0 <= j < k ==> (#[trigger] d[j]).0 != id
}

/// The `(identifier, name)` pairs of exactly the catalog entries that
/// carry a marketplace identifier, in catalog order.
pub open spec fn market_pairs(entries: Seq<(String, MaterialDescription)>) -> Seq<(u32, Seq<char>)>
    decreases entries.len(),
{
    if entries.len() == 0 {
        Seq::empty()
    } else {
        let rest = market_pairs(entries.drop_last());
        match entries.last().1.post_id {
            Some(pid) => rest.push((pid, entries.last().0@)),
            None => rest,
        }
    }
}

/// The dictionary as plain values.
pub open spec fn dict_view(d: Seq<(u32, String)>) -> Seq<(u32, Seq<char>)> {
    d.map_values(|p: (u32, String)| (p.0, p.1@))
}

/// Some catalog entry carries `name` with marketplace identifier `id`.
pub open spec fn catalog_offers(
    entries: Seq<(String, MaterialDescription)>,
    name: Seq<char>,
    id: u32,
) -> bool {
    exists|i: int|
        0 <= i < entries.len() && (#[trigger] entries[i]).0@ == name && entries[i].1.post_id
            == Some(id)
}

/// `name` is what the first dictionary entry carrying `id` maps it to.
pub open spec fn named_by_first(d: Seq<(u32, String)>, id: u32, name: Seq<char>) -> bool {
    exists|k: int| #[trigger] is_first_dict(d, id, k) && d[k].1@ == name
}

impl ListingRequest {
    /// Collects the marketplace identifier of every catalog entry that
    /// has one — all of them, in catalog order — remembering which name
    /// each identifier came from.
    pub fn new(descriptions: &Catalog) -> (r: ListingRequest)
        ensures
            r.ids@.len() == r.dict@.len(),
            forall|j: int| 0 <= j < r.dict@.len() ==> (#[trigger] r.dict@[j]).0 == r.ids@[j],
            dict_view(r.dict@) == market_pairs(descriptions.entries@),
            forall|j: int|
                #![trigger r.dict@[j]]
                0 <= j < r.dict@.len() ==> catalog_offers(
                    descriptions.entries@,
                    r.dict@[j].1@,
                    r.dict@[j].0,
                ),
    {
        let mut ids = Vec::<u32>::new();
        let mut dict = Vec::<(u32, String)>::new();
        let mut i: usize = 0;
        while i < descriptions.len()
            invariant
                0 <= i <= descriptions.entries@.len(),
                ids@.len() == dict@.len(),
                forall|j: int| 0 <= j < dict@.len() ==> (#[trigger] dict@[j]).0 == ids@[j],
                dict_view(dict@) == market_pairs(descriptions.entries@.take(i as int)),
                forall|j: int|
                    #![trigger dict@[j]]
                    0 <= j < dict@.len() ==> catalog_offers(
                        descriptions.entries@,
                        dict@[j].1@,
                        dict@[j].0,
                    ),
            decreases descriptions.entries@.len() - i,
        {
            let entry = descriptions.entry(i);
            let ghost old_dict = dict@;
            proof {
                assert(descriptions.entries@.take(i as int + 1).drop_last() =~= descriptions.entries@.take(i as int));
                assert(descriptions.entries@.take(i as int + 1).last() == descriptions.entries@[i as int]);
            }
            if let Some(id) = entry.1.post_id() {
                ids.push(*id);
                dict.push((*id, entry.0.clone()));
                proof {
                    assert(0 <= i < descriptions.entries@.len() && descriptions.entries@[i as int].0@ == dict@[dict@.len() - 1].1@ && descriptions.entries@[i as int].1.post_id
                        == Some(dict@[dict@.len() - 1].0));
                    assert(catalog_offers(
                        descriptions.entries@,
                        dict@[dict@.len() - 1].1@,
                        dict@[dict@.len() - 1].0,
                    ));
                    assert(dict_view(dict@) =~= dict_view(old_dict).push(
                        (dict@[dict@.len() - 1].0, dict@[dict@.len() - 1].1@),
                    ));
                    assert(dict_view(dict@) =~= market_pairs(
                        descriptions.entries@.take(i as int + 1),
                    ));
                }
            } else {
                proof {
                    assert(dict_view(dict@) =~= market_pairs(
                        descriptions.entries@.take(i as int + 1),
                    ));
                }
            }
            i = i + 1;
        }
        proof {
            assert(descriptions.entries@.take(descriptions.entries@.len() as int)
                =~= descriptions.entries@);
        }
        ListingRequest { ids, dict }
    }

    /// Builds the request from gathered `(name, identifier)` pairs, as
    /// the listing gather produces for a set of targets.
    pub fn from_pairs(pairs: &Vec<(String, u32)>) -> (r: ListingRequest)
        ensures
            r.ids@.len() == pairs@.len(),
            r.dict@.len() == pairs@.len(),
            forall|j: int| 0 <= j < pairs@.len() ==> (#[trigger] r.ids@[j]) == pairs@[j].1,
            forall|j: int|
                0 <= j < pairs@.len() ==> ((#[trigger] r.dict@[j]).0 == pairs@[j].1
                    && r.dict@[j].1@ == pairs@[j].0@),
    {
        let mut ids = Vec::<u32>::new();
        let mut dict = Vec::<(u32, String)>::new();
        let mut i: usize = 0;
        while i < pairs.len()
            invariant
                0 <= i <= pairs@.len(),
                ids@.len() == i,
                dict@.len() == i,
                forall|j: int| 0 <= j < i ==> (#[trigger] ids@[j]) == pairs@[j].1,
                forall|j: int|
                    0 <= j < i ==> ((#[trigger] dict@[j]).0 == pairs@[j].1 && dict@[j].1@
                        == pairs@[j].0@),
            decreases pairs@.len() - i,
        {
            ids.push(pairs[i].1);
            dict.push((pairs[i].1, pairs[i].0.clone()));
            i = i + 1;
        }
        ListingRequest { ids, dict }
    }

    /// The path of the commerce request for these identifiers.
    pub fn get_path(&self) -> (r: String)
        ensures
            r@ == listing_path(self.ids@),
    {
        let mut joined = String::new();
        let mut i: usize = 0;
        while i < self.ids.len()
            invariant
                0 <= i <= self.ids@.len(),
                joined@ == ids_joined(self.ids@.take(i as int)),
            decreases self.ids@.len() - i,
        {
            let num = u32_to_string(self.ids[i]);
            if i == 0 {
                joined = num;
                proof {
                    assert(self.ids@.take(1)[0] == self.ids@[0]);
                    assert(ids_joined(self.ids@.take(1)) == dec_of(self.ids@[0] as nat));
                }
            } else {
                joined = joined.concat(",");
                joined = joined.concat(num.as_str());
                proof {
                    reveal_strlit(",");
                    assert(","@ =~= seq![',']);
                    assert(self.ids@.take(i as int + 1).drop_last() =~= self.ids@.take(i as int));
                    assert(self.ids@.take(i as int + 1).last() == self.ids@[i as int]);
                }
            }
            i = i + 1;
        }
        proof {
            assert(self.ids@.take(self.ids@.len() as int) =~= self.ids@);
        }
        let path = String::from_str("v2/commerce/listings?ids=");
        path.concat(joined.as_str())
    }
}

/// Pairs each response item back with the name its identifier was
/// requested for (the first dictionary entry carrying that identifier).
/// An identifier that was never requested is a schema error.
pub fn associate_listings(request: &ListingRequest, response: Vec<Item>) -> (r: Result<
    Vec<(String, Item)>,
    PlanError,
>)
    ensures
        r matches Ok(out) ==> out@.len() == response@.len() && forall|j: int|
            0 <= j < response@.len() ==> (item_eq((#[trigger] out@[j]).1, response@[j])
                && named_by_first(request.dict@, response@[j].id, out@[j].0@)),
        r matches Err(e) ==> e == PlanError::Schema && exists|j: int|
            0 <= j < response@.len() && forall|k: int|
                0 <= k < request.dict@.len() ==> (#[trigger] request.dict@[k]).0 != (
                #[trigger] response@[j]).id,
{
    let mut out: Vec<(String, Item)> = Vec::new();
    let mut i: usize = 0;
    while i < response.len()
        invariant
            0 <= i <= response@.len(),
            out@.len() == i,
            forall|j: int|
                0 <= j < i ==> (item_eq((#[trigger] out@[j]).1, response@[j]) && named_by_first(
                    request.dict@,
                    response@[j].id,
                    out@[j].0@,
                )),
        decreases response@.len() - i,
    {
        let id = response[i].id();
        match find_dict(&request.dict, id) {
            Some(f) => {
                let name = request.dict[f].1.clone();
                let item = response[i].clone_item();
                out.push((name, item));
                proof {
                    assert(is_first_dict(request.dict@, response@[i as int].id, f as int));
                    assert(out@[out@.len() - 1].0@ == request.dict@[f as int].1@);
                    assert(named_by_first(
                        request.dict@,
                        response@[i as int].id,
                        out@[out@.len() - 1].0@,
                    ));
                }
            },
            None => {
                return Err(PlanError::Schema);
            },
        }
        i = i + 1;
    }
    Ok(out)
}

} // verus!
