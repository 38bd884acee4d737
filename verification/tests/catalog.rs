use tp_planner::descriptions::{Catalog, MaterialDescription, YamlValue};
use tp_planner::errors::PlanError;
use tp_planner::gather::gather_market_items;
use tp_planner::planning::catalog_is_positive;
use tp_planner::tp_rest::{associate_listings, Item, ListingRequest, Price};

fn entry_doc(fields: Vec<(&str, YamlValue)>) -> YamlValue {
    YamlValue::Mapping(fields.into_iter().map(|(k, v)| (k.to_string(), v)).collect())
}

fn recipe_doc(inputs: Vec<(&str, u64)>) -> YamlValue {
    YamlValue::Mapping(
        inputs.into_iter().map(|(k, q)| (k.to_string(), YamlValue::UInt(q))).collect(),
    )
}

#[test]
fn new_parses_all_fields() {
    let doc = entry_doc(vec![
        ("post_id", YamlValue::UInt(19697)),
        ("vendor", YamlValue::Null),
        ("recipes", YamlValue::Sequence(vec![recipe_doc(vec![("Copper Ore", 2), ("Tin Ore", 1)])])),
    ]);
    let d = MaterialDescription::new(&doc).unwrap();
    assert_eq!(*d.post_id(), Some(19697));
    assert_eq!(*d.vendor(), None);
    assert_eq!(d.recipes().len(), 1);
    let recipe = &d.recipes()[0];
    assert_eq!(recipe.len(), 2);
    assert_eq!(recipe[0], ("Copper Ore".to_string(), 2));
    assert_eq!(recipe[1], ("Tin Ore".to_string(), 1));
}

#[test]
fn missing_keys_default_to_absent() {
    let d = MaterialDescription::new(&entry_doc(vec![])).unwrap();
    assert_eq!(*d.post_id(), None);
    assert_eq!(*d.vendor(), None);
    assert!(d.recipes().is_empty());
}

#[test]
fn unknown_keys_are_ignored() {
    let doc = entry_doc(vec![
        ("vendor", YamlValue::UInt(3)),
        ("note", YamlValue::Text("arbitrary".to_string())),
    ]);
    let d = MaterialDescription::new(&doc).unwrap();
    assert_eq!(*d.vendor(), Some(3));
}

#[test]
fn wrong_field_shape_is_a_schema_error() {
    let doc = entry_doc(vec![("post_id", YamlValue::Text("nineteen".to_string()))]);
    assert!(matches!(MaterialDescription::new(&doc), Err(PlanError::Schema)));
}

#[test]
fn oversized_integer_is_a_schema_error() {
    let doc = entry_doc(vec![("vendor", YamlValue::UInt(u32::MAX as u64 + 1))]);
    assert!(matches!(MaterialDescription::new(&doc), Err(PlanError::Schema)));
}

#[test]
fn non_sequence_recipes_are_a_schema_error() {
    let doc = entry_doc(vec![("recipes", YamlValue::UInt(1))]);
    assert!(matches!(MaterialDescription::new(&doc), Err(PlanError::Schema)));
}

#[test]
fn null_recipes_mean_no_recipes() {
    let doc = entry_doc(vec![("recipes", YamlValue::Null)]);
    let d = MaterialDescription::new(&doc).unwrap();
    assert!(d.recipes().is_empty());
}

#[test]
fn non_mapping_recipe_entry_is_a_schema_error() {
    let doc = entry_doc(vec![(
        "recipes",
        YamlValue::Sequence(vec![YamlValue::Text("oops".to_string())]),
    )]);
    assert!(matches!(MaterialDescription::new(&doc), Err(PlanError::Schema)));
}

#[test]
fn non_mapping_entry_is_a_schema_error() {
    assert!(matches!(
        MaterialDescription::new(&YamlValue::UInt(2)),
        Err(PlanError::Schema)
    ));
}

#[test]
fn from_document_loads_whole_catalog() {
    let doc = YamlValue::Mapping(vec![
        ("Copper Ore".to_string(), entry_doc(vec![("post_id", YamlValue::UInt(19697))])),
        ("Bronze Ingot".to_string(), entry_doc(vec![(
            "recipes",
            YamlValue::Sequence(vec![recipe_doc(vec![("Copper Ore", 2)])]),
        )])),
    ]);
    let c = Catalog::from_document(&doc).unwrap();
    assert_eq!(c.len(), 2);
    let copper = c.get(&"Copper Ore".to_string()).unwrap();
    assert_eq!(*copper.post_id(), Some(19697));
    let bronze = c.get(&"Bronze Ingot".to_string()).unwrap();
    assert_eq!(bronze.recipes().len(), 1);
    assert!(c.get(&"Silver".to_string()).is_none());
}

#[test]
fn from_document_rejects_non_mapping() {
    assert!(matches!(
        Catalog::from_document(&YamlValue::Sequence(vec![])),
        Err(PlanError::Schema)
    ));
}

#[test]
fn positivity_check_rejects_zero_quantities() {
    let good = Catalog::from_document(&YamlValue::Mapping(vec![(
        "A".to_string(),
        entry_doc(vec![("recipes", YamlValue::Sequence(vec![recipe_doc(vec![("B", 1)])]))]),
    )]))
    .unwrap();
    assert!(catalog_is_positive(&good));
    let bad = Catalog::from_document(&YamlValue::Mapping(vec![(
        "A".to_string(),
        entry_doc(vec![("recipes", YamlValue::Sequence(vec![recipe_doc(vec![("B", 0)])]))]),
    )]))
    .unwrap();
    assert!(!catalog_is_positive(&bad));
}

fn market_catalog() -> Catalog {
    let doc = YamlValue::Mapping(vec![
        ("Widget".to_string(), entry_doc(vec![
            ("post_id", YamlValue::UInt(1)),
            ("recipes", YamlValue::Sequence(vec![recipe_doc(vec![("Bolt", 2)])])),
        ])),
        ("Bolt".to_string(), entry_doc(vec![("post_id", YamlValue::UInt(7))])),
        ("Glue".to_string(), entry_doc(vec![("vendor", YamlValue::UInt(2))])),
    ]);
    Catalog::from_document(&doc).unwrap()
}

#[test]
fn gather_collects_reachable_market_items() {
    let c = market_catalog();
    let pairs = gather_market_items(&c, &vec!["Widget".to_string()]).unwrap();
    assert_eq!(pairs.len(), 2);
    assert!(pairs.contains(&("Widget".to_string(), 1)));
    assert!(pairs.contains(&("Bolt".to_string(), 7)));
}

#[test]
fn gather_skips_unreachable_items() {
    let c = market_catalog();
    let pairs = gather_market_items(&c, &vec!["Bolt".to_string()]).unwrap();
    assert_eq!(pairs, vec![("Bolt".to_string(), 7)]);
}

#[test]
fn gather_reports_unknown_input() {
    let doc = YamlValue::Mapping(vec![(
        "A".to_string(),
        entry_doc(vec![("recipes", YamlValue::Sequence(vec![recipe_doc(vec![("Ghostly", 1)])]))]),
    )]);
    let c = Catalog::from_document(&doc).unwrap();
    match gather_market_items(&c, &vec!["A".to_string()]) {
        Err(PlanError::MissingDescription(n)) => assert_eq!(n, "Ghostly"),
        other => panic!("expected a missing-description error, got {:?}", other.is_ok()),
    }
}

#[test]
fn listing_request_collects_identifiers_in_catalog_order() {
    let c = market_catalog();
    let r = ListingRequest::new(&c);
    assert_eq!(r.ids, vec![1, 7]);
    assert_eq!(r.dict, vec![(1, "Widget".to_string()), (7, "Bolt".to_string())]);
}

#[test]
fn request_path_joins_identifiers() {
    let r = ListingRequest::from_pairs(&vec![
        ("Widget".to_string(), 19697),
        ("Bolt".to_string(), 42),
    ]);
    assert_eq!(r.get_path(), "v2/commerce/listings?ids=19697,42");
    let single = ListingRequest::from_pairs(&vec![("Widget".to_string(), 305)]);
    assert_eq!(single.get_path(), "v2/commerce/listings?ids=305");
    let none = ListingRequest::from_pairs(&Vec::new());
    assert_eq!(none.get_path(), "v2/commerce/listings?ids=");
}

#[test]
fn associate_pairs_items_with_names() {
    let r = ListingRequest::from_pairs(&vec![("Widget".to_string(), 1), ("Bolt".to_string(), 7)]);
    let response = vec![
        Item::from_parts(7, Vec::new(), vec![Price::from_parts(1, 5, 3)]),
        Item::from_parts(1, Vec::new(), Vec::new()),
    ];
    let out = associate_listings(&r, response).unwrap();
    assert_eq!(out.len(), 2);
    assert_eq!(out[0].0, "Bolt");
    assert_eq!(out[0].1.id(), 7);
    assert_eq!(out[0].1.sells()[0].unit_price(), 5);
    assert_eq!(out[0].1.sells()[0].quantity(), 3);
    assert_eq!(out[1].0, "Widget");
}

#[test]
fn associate_rejects_unknown_identifier() {
    let r = ListingRequest::from_pairs(&vec![("Widget".to_string(), 1)]);
    let response = vec![Item::from_parts(9, Vec::new(), Vec::new())];
    assert!(matches!(associate_listings(&r, response), Err(PlanError::Schema)));
}

#[test]
fn price_copy_reduced_by_keeps_price_level() {
    let p = Price::from_parts(4, 10, 7);
    let q = p.copy_reduced_by(3);
    assert_eq!(q.listings(), 4);
    assert_eq!(q.unit_price(), 10);
    assert_eq!(q.quantity(), 4);
    assert_eq!(p.quantity(), 7);
}

#[test]
fn item_getters_expose_fields() {
    let item = Item::from_parts(3, vec![Price::from_parts(1, 2, 3)], vec![Price::from_parts(9, 8, 7)]);
    assert_eq!(item.id(), 3);
    assert_eq!(item.buys().len(), 1);
    assert_eq!(item.buys()[0].unit_price(), 2);
    assert_eq!(item.sells()[0].unit_price(), 8);
}

#[test]
fn gather_terminates_on_cyclic_recipes() {
    let doc = YamlValue::Mapping(vec![
        ("A".to_string(), entry_doc(vec![
            ("post_id", YamlValue::UInt(1)),
            ("recipes", YamlValue::Sequence(vec![recipe_doc(vec![("B", 1)])])),
        ])),
        ("B".to_string(), entry_doc(vec![
            ("post_id", YamlValue::UInt(2)),
            ("recipes", YamlValue::Sequence(vec![recipe_doc(vec![("A", 1)])])),
        ])),
    ]);
    let c = Catalog::from_document(&doc).unwrap();
    let pairs = gather_market_items(&c, &vec!["A".to_string()]).unwrap();
    assert_eq!(pairs.len(), 2);
    assert!(pairs.contains(&("A".to_string(), 1)));
    assert!(pairs.contains(&("B".to_string(), 2)));
}
