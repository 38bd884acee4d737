use tp_planner::descriptions::{Catalog, MaterialDescription};
use tp_planner::errors::PlanError;
use tp_planner::planning::{plan, plan_isolated, Buy, Plan, Vendor};
use tp_planner::tp_rest::{Item, Price};

fn description(post_id: Option<u32>, vendor: Option<u32>, recipes: Vec<Vec<(&str, u32)>>) -> MaterialDescription {
    MaterialDescription {
        post_id,
        vendor,
        recipes: recipes
            .into_iter()
            .map(|r| r.into_iter().map(|(n, q)| (n.to_string(), q)).collect())
            .collect(),
    }
}

fn catalog(entries: Vec<(&str, MaterialDescription)>) -> Catalog {
    let mut c = Catalog::empty();
    for (name, d) in entries {
        c.push_entry(name.to_string(), d);
    }
    c
}

fn listing(name: &str, id: u32, tiers: Vec<(u32, u32)>) -> (String, Item) {
    let sells: Vec<Price> = tiers
        .into_iter()
        .map(|(unit_price, quantity)| Price::from_parts(1, unit_price, quantity))
        .collect();
    (name.to_string(), Item::from_parts(id, Vec::new(), sells))
}

fn targets(names: Vec<&str>) -> Vec<String> {
    names.into_iter().map(|n| n.to_string()).collect()
}

fn buy_entry<'a>(p: &'a Plan, name: &str) -> Option<&'a Buy> {
    p.buy.iter().find(|b| b.name == name)
}

fn vendor_entry<'a>(p: &'a Plan, name: &str) -> Option<&'a Vendor> {
    p.vendor.iter().find(|v| v.name == name)
}

#[test]
fn vendor_only_target() {
    let c = catalog(vec![("A", description(None, Some(5), vec![]))]);
    let r = plan(&targets(vec!["A"]), c, &Vec::new()).unwrap();
    assert!(r.buy.is_empty());
    assert_eq!(r.vendor.len(), 1);
    let v = vendor_entry(&r, "A").unwrap();
    assert_eq!(v.quantity, 1);
    assert_eq!(v.cost, 5);
}

#[test]
fn single_marketplace_tier() {
    let c = catalog(vec![("A", description(Some(1), None, vec![]))]);
    let listings = vec![listing("A", 1, vec![(10, 5)])];
    let r = plan(&targets(vec!["A"]), c, &listings).unwrap();
    assert!(r.vendor.is_empty());
    let b = buy_entry(&r, "A").unwrap();
    assert_eq!(b.quantity, 1);
    assert_eq!(b.cost, 10);
}

#[test]
fn tier_exhaustion_with_spillover() {
    let c = catalog(vec![("A", description(Some(1), None, vec![]))]);
    let listings = vec![listing("A", 1, vec![(10, 3), (15, 10)])];
    let r = plan(&targets(vec!["A", "A", "A", "A", "A"]), c, &listings).unwrap();
    assert!(r.vendor.is_empty());
    assert_eq!(r.buy.len(), 1);
    let b = buy_entry(&r, "A").unwrap();
    assert_eq!(b.quantity, 5);
    assert_eq!(b.cost, 3 * 10 + 2 * 15);
}

#[test]
fn craft_cheaper_than_buy() {
    let c = catalog(vec![
        ("Widget", description(Some(1), None, vec![vec![("Bolt", 2)]])),
        ("Bolt", description(None, Some(1), vec![])),
    ]);
    let listings = vec![listing("Widget", 1, vec![(10, 5)])];
    let r = plan(&targets(vec!["Widget"]), c, &listings).unwrap();
    assert!(r.buy.is_empty());
    let v = vendor_entry(&r, "Bolt").unwrap();
    assert_eq!(v.quantity, 2);
    assert_eq!(v.cost, 2);
}

#[test]
fn buy_cheaper_than_craft() {
    let c = catalog(vec![
        ("Widget", description(Some(1), None, vec![vec![("Bolt", 2)]])),
        ("Bolt", description(None, Some(1), vec![])),
    ]);
    let listings = vec![listing("Widget", 1, vec![(1, 5)])];
    let r = plan(&targets(vec!["Widget"]), c, &listings).unwrap();
    assert!(r.vendor.is_empty());
    let b = buy_entry(&r, "Widget").unwrap();
    assert_eq!(b.quantity, 1);
    assert_eq!(b.cost, 1);
}

#[test]
fn recipe_scales_by_parent_quantity() {
    let c = catalog(vec![
        ("A", description(None, None, vec![vec![("B", 2), ("C", 3)]])),
        ("B", description(None, Some(1), vec![])),
        ("C", description(None, Some(1), vec![])),
    ]);
    let r = plan(&targets(vec!["A", "A"]), c, &Vec::new()).unwrap();
    assert!(r.buy.is_empty());
    let b = vendor_entry(&r, "B").unwrap();
    assert_eq!(b.quantity, 4);
    assert_eq!(b.cost, 4);
    let cc = vendor_entry(&r, "C").unwrap();
    assert_eq!(cc.quantity, 6);
    assert_eq!(cc.cost, 6);
    assert_eq!(b.cost + cc.cost, 10);
}

#[test]
fn empty_targets_give_empty_plan() {
    let c = catalog(vec![("A", description(None, Some(5), vec![]))]);
    let r = plan(&Vec::new(), c, &Vec::new()).unwrap();
    assert!(r.buy.is_empty());
    assert!(r.vendor.is_empty());
}

#[test]
fn plan_isolated_matches_single_target() {
    let c = catalog(vec![("A", description(None, Some(5), vec![]))]);
    let r = plan_isolated(&"A".to_string(), c, &Vec::new()).unwrap();
    let v = vendor_entry(&r, "A").unwrap();
    assert_eq!(v.quantity, 1);
    assert_eq!(v.cost, 5);
}

#[test]
fn no_sourcing_names_the_item() {
    let c = catalog(vec![("A", description(None, None, vec![]))]);
    let r = plan(&targets(vec!["A"]), c, &Vec::new());
    match r {
        Err(PlanError::NoSourcing(name)) => assert_eq!(name, "A"),
        other => panic!("expected a no-sourcing error, got {:?}", other.is_ok()),
    }
}

#[test]
fn missing_description_names_the_item() {
    let c = catalog(vec![("A", description(None, Some(5), vec![]))]);
    let r = plan(&targets(vec!["Z"]), c, &Vec::new());
    match r {
        Err(PlanError::MissingDescription(name)) => assert_eq!(name, "Z"),
        other => panic!("expected a missing-description error, got {:?}", other.is_ok()),
    }
}

#[test]
fn vendor_cost_overflow_is_reported() {
    let c = catalog(vec![("A", description(None, Some(u32::MAX), vec![]))]);
    let r = plan(&targets(vec!["A", "A"]), c, &Vec::new());
    assert!(matches!(r, Err(PlanError::Overflow)));
}

#[test]
fn cheapest_tier_wins_over_vendor() {
    let c = catalog(vec![("A", description(Some(1), Some(7), vec![]))]);
    let listings = vec![listing("A", 1, vec![(3, 10)])];
    let r = plan(&targets(vec!["A"]), c, &listings).unwrap();
    assert!(r.vendor.is_empty());
    let b = buy_entry(&r, "A").unwrap();
    assert_eq!(b.cost, 3);
}

#[test]
fn vendor_wins_over_expensive_tier() {
    let c = catalog(vec![("A", description(Some(1), Some(2), vec![]))]);
    let listings = vec![listing("A", 1, vec![(3, 10)])];
    let r = plan(&targets(vec!["A"]), c, &listings).unwrap();
    assert!(r.buy.is_empty());
    let v = vendor_entry(&r, "A").unwrap();
    assert_eq!(v.cost, 2);
}

#[test]
fn buy_add_sums_quantities_and_costs() {
    let a = Buy { name: "A".to_string(), quantity: 2, cost: 10 };
    let b = Buy { name: "A".to_string(), quantity: 3, cost: 4 };
    let s = a.add(&b);
    assert_eq!(s.name, "A");
    assert_eq!(s.quantity, 5);
    assert_eq!(s.cost, 14);
}

#[test]
fn vendor_add_sums_quantities_and_costs() {
    let a = Vendor { name: "A".to_string(), quantity: 1, cost: 5 };
    let b = Vendor { name: "A".to_string(), quantity: 2, cost: 10 };
    let s = a.add(&b);
    assert_eq!(s.name, "A");
    assert_eq!(s.quantity, 3);
    assert_eq!(s.cost, 15);
}

#[test]
fn error_descriptions_name_the_item() {
    let e = PlanError::NoSourcing("Oak Log".to_string());
    assert_eq!(e.describe(), "no way to source Oak Log");
    let m = PlanError::MissingDescription("Tin".to_string());
    assert_eq!(m.describe(), "missing description for Tin");
}

#[test]
fn multi_level_crafting_chain() {
    let c = catalog(vec![
        ("Widget", description(None, None, vec![vec![("Bolt", 2)]])),
        ("Bolt", description(None, None, vec![vec![("Ore", 3)]])),
        ("Ore", description(None, Some(2), vec![])),
    ]);
    let r = plan(&targets(vec!["Widget"]), c, &Vec::new()).unwrap();
    assert!(r.buy.is_empty());
    let ore = vendor_entry(&r, "Ore").unwrap();
    assert_eq!(ore.quantity, 6);
    assert_eq!(ore.cost, 12);
}

#[test]
fn exact_tier_exhaustion() {
    let c = catalog(vec![("A", description(Some(1), None, vec![]))]);
    let listings = vec![listing("A", 1, vec![(10, 2), (20, 2)])];
    let r = plan(&targets(vec!["A", "A"]), c, &listings).unwrap();
    let b = buy_entry(&r, "A").unwrap();
    assert_eq!(b.quantity, 2);
    assert_eq!(b.cost, 20);
}

#[test]
fn two_distinct_items_aggregate_separately() {
    let c = catalog(vec![
        ("A", description(Some(1), None, vec![])),
        ("B", description(None, Some(4), vec![])),
    ]);
    let listings = vec![listing("A", 1, vec![(3, 9)])];
    let r = plan(&targets(vec!["A", "B", "A"]), c, &listings).unwrap();
    let a = buy_entry(&r, "A").unwrap();
    assert_eq!(a.quantity, 2);
    assert_eq!(a.cost, 6);
    let b = vendor_entry(&r, "B").unwrap();
    assert_eq!(b.quantity, 1);
    assert_eq!(b.cost, 4);
}
