//! The static catalog: per item name, its marketplace identifier, vendor
//! unit price, and recipes.
//!
//! The catalog is loaded from a document tree (the caller parses the file
//! into [`YamlValue`] and hands the tree over).  Loading validates the
//! schema: `post_id` and `vendor` must be absent, null, or a non-negative
//! integer fitting in 32 bits; `recipes` must be absent, null, or a
//! sequence of mappings from input name to such an integer.

#![verifier::loop_isolation(false)]

use vstd::prelude::*;
use crate::errors::PlanError;

verus! {

/// A plain document tree, mirroring the shapes a YAML parser can produce.
///
/// Anything the schema can never accept (floating point numbers, tagged
/// values, non-string mapping keys) is collapsed into `Other`; negative
/// integers are likewise `Other`, since every recognized field is
/// non-negative.
pub enum YamlValue {
    Null,
    Boolean(bool),
    UInt(u64),
    Text(String),
    Sequence(Vec<YamlValue>),
    Mapping(Vec<(String, YamlValue)>),
    Other,
}

/// One recipe: how many units of each input produce one unit of output,
/// in document order.
pub type Recipe = Vec<(String, u32)>;

/// The first value bound to `name` in a document mapping, scanning from
/// the front.
pub open spec fn doc_lookup(entries: Seq<(String, YamlValue)>, name: Seq<char>) -> Option<
    YamlValue,
>
    decreases entries.len(),
{
    if entries.len() == 0 {
        None
    } else if entries[0].0@ == name {
        Some(entries[0].1)
    } else {
        doc_lookup(entries.drop_first(), name)
    }
}

/// Whether a field holds an absent, null, or 32-bit-fitting integer value.
pub open spec fn u32_field_ok(entries: Seq<(String, YamlValue)>, name: Seq<char>) -> bool {
    match doc_lookup(entries, name) {
        None => true,
        Some(YamlValue::Null) => true,
        Some(YamlValue::UInt(v)) => v <= u32::MAX,
        Some(_) => false,
    }
}

/// The parsed value of such a field: absent and null both mean `None`.
pub open spec fn u32_field_val(entries: Seq<(String, YamlValue)>, name: Seq<char>) -> Option<u32> {
    match doc_lookup(entries, name) {
        Some(YamlValue::UInt(v)) => Some(v as u32),
        _ => None,
    }
}

/// Whether a document value is a well-formed recipe: a mapping whose every
/// value is an integer fitting in 32 bits.
pub open spec fn recipe_ok(v: YamlValue) -> bool {
    match v {
        YamlValue::Mapping(es) => forall|i: int|
            0 <= i < es@.len() ==> ((#[trigger] es@[i]).1 matches YamlValue::UInt(u) && u
                <= u32::MAX),
        _ => false,
    }
}

/// Whether a parsed recipe reproduces a recipe mapping entry for entry.
pub open spec fn recipe_matches(r: Recipe, v: YamlValue) -> bool {
    match v {
        YamlValue::Mapping(es) => r@.len() == es@.len() && forall|i: int|
            0 <= i < es@.len() ==> ((#[trigger] r@[i]).0@ == es@[i].0@ && es@[i].1
                == YamlValue::UInt(r@[i].1 as u64)),
        _ => false,
    }
}

/// The raw sequence of recipe documents of a catalog entry: absent and
/// null both mean none.
pub open spec fn recipes_raw(entries: Seq<(String, YamlValue)>) -> Seq<YamlValue> {
    match doc_lookup(entries, "recipes"@) {
        Some(YamlValue::Sequence(vs)) => vs@,
        _ => Seq::empty(),
    }
}

/// Whether the `recipes` field is absent, null, or a sequence of
/// well-formed recipes.
pub open spec fn recipes_field_ok(entries: Seq<(String, YamlValue)>) -> bool {
    match doc_lookup(entries, "recipes"@) {
        None => true,
        Some(YamlValue::Null) => true,
        Some(YamlValue::Sequence(vs)) => forall|i: int| 0 <= i < vs@.len() ==> recipe_ok(vs@[i]),
        Some(_) => false,
    }
}

/// Whether a document value is a well-formed catalog entry.
pub open spec fn description_ok(v: YamlValue) -> bool {
    match v {
        YamlValue::Mapping(es) => u32_field_ok(es@, "post_id"@) && u32_field_ok(es@, "vendor"@)
            && recipes_field_ok(es@),
        _ => false,
    }
}

/// Whether a parsed description reproduces a catalog entry field by field.
pub open spec fn description_matches(d: MaterialDescription, v: YamlValue) -> bool {
    match v {
        YamlValue::Mapping(es) => d.post_id == u32_field_val(es@, "post_id"@) && d.vendor
            == u32_field_val(es@, "vendor"@) && d.recipes@.len() == recipes_raw(es@).len()
            && forall|i: int|
            0 <= i < d.recipes@.len() ==> recipe_matches(d.recipes@[i], recipes_raw(es@)[i]),
        _ => false,
    }
}

/// Immutable per-item record: marketplace identifier, vendor unit price,
/// and recipes.  An absent `post_id` means the item cannot be bought from
/// the marketplace; an absent `vendor`, not from the vendor; an empty
/// `recipes`, not crafted.
pub struct MaterialDescription {
    pub post_id: Option<u32>,
    pub vendor: Option<u32>,
    pub recipes: Vec<Recipe>,
}

impl MaterialDescription {
    /// Parses one catalog entry, reporting any shape violation as a
    /// schema error.  Unknown keys are ignored.
    pub fn new(info: &YamlValue) -> (r: Result<MaterialDescription, PlanError>)
        ensures
            description_ok(*info) ==> (r matches Ok(d) && description_matches(d, *info)),
            !description_ok(*info) ==> r == Err::<MaterialDescription, PlanError>(
                PlanError::Schema,
            ),
    {
        match info {
            YamlValue::Mapping(es) => {
                let post_id = match get_u32_if_available(es, &String::from_str("post_id")) {
                    Ok(v) => v,
                    Err(e) => { return Err(e); },
                };
                let vendor = match get_u32_if_available(es, &String::from_str("vendor")) {
                    Ok(v) => v,
                    Err(e) => { return Err(e); },
                };
                let recipes = match get_recipes(es) {
                    Ok(v) => v,
                    Err(e) => { return Err(e); },
                };
                Ok(MaterialDescription { post_id, vendor, recipes })
            },
            _ => Err(PlanError::Schema),
        }
    }

    /// The marketplace identifier, if the item is listed there.
    pub fn post_id(&self) -> (r: &Option<u32>)
        ensures
            r == &self.post_id,
    {
        &self.post_id
    }

    /// The vendor unit price, if a vendor sells the item.
    pub fn vendor(&self) -> (r: &Option<u32>)
        ensures
            r == &self.vendor,
    {
        &self.vendor
    }

    /// The recipes that craft the item, in document order.
    pub fn recipes(&self) -> (r: &Vec<Recipe>)
        ensures
            r == &self.recipes,
    {
        &self.recipes
    }
}

/// Finds the first entry bound to `name`, as [`doc_lookup`] describes.
fn lookup_entry<'a>(entries: &'a Vec<(String, YamlValue)>, name: &String) -> (r: Option<
    &'a YamlValue,
>)
    ensures
        match r {
            Some(v) => doc_lookup(entries@, name@) == Some(*v),
            None => doc_lookup(entries@, name@) is None,
        },
{
    proof {
        assert(entries@.skip(0) =~= entries@);
    }
    let mut i: usize = 0;
    while i < entries.len()
        invariant
            0 <= i <= entries@.len(),
            doc_lookup(entries@, name@) == doc_lookup(entries@.skip(i as int), name@),
        decreases entries@.len() - i,
    {
        proof {
            assert(entries@.skip(i as int)[0] == entries@[i as int]);
            assert(entries@.skip(i as int).drop_first() =~= entries@.skip(i as int + 1));
        }
        if entries[i].0 == *name {
            return Some(&entries[i].1);
        }
        i = i + 1;
    }
    proof {
        assert(entries@.skip(i as int).len() == 0);
    }
    None
}

/// Reads an optional unsigned 32-bit field, as [`u32_field_ok`] and
/// [`u32_field_val`] describe.
fn get_u32_if_available(entries: &Vec<(String, YamlValue)>, name: &String) -> (r: Result<
    Option<u32>,
    PlanError,
>)
    ensures
        u32_field_ok(entries@, name@) ==> r == Ok::<Option<u32>, PlanError>(u32_field_val(
            entries@,
            name@,
        )),
        !u32_field_ok(entries@, name@) ==> r == Err::<Option<u32>, PlanError>(PlanError::Schema),
{
    match lookup_entry(entries, name) {
        None => Ok(None),
        Some(v) => match v {
            YamlValue::Null => Ok(None),
            YamlValue::UInt(u) => {
                if *u <= 0xffff_ffff {
                    Ok(Some(*u as u32))
                } else {
                    Err(PlanError::Schema)
                }
            },
            _ => Err(PlanError::Schema),
        },
    }
}

/// Converts one recipe document, as [`recipe_ok`] and [`recipe_matches`]
/// describe.
fn convert_recipe(recipe: &YamlValue) -> (r: Result<Recipe, PlanError>)
    ensures
        recipe_ok(*recipe) ==> (r matches Ok(rec) && recipe_matches(rec, *recipe)),
        !recipe_ok(*recipe) ==> r == Err::<Recipe, PlanError>(PlanError::Schema),
{
    match recipe {
        YamlValue::Mapping(es) => {
            let mut out: Recipe = Vec::new();
            let mut i: usize = 0;
            while i < es.len()
                invariant
                    0 <= i <= es@.len(),
                    out@.len() == i,
                    forall|j: int|
                        0 <= j < i ==> ((#[trigger] es@[j]).1 matches YamlValue::UInt(u) && u
                            <= u32::MAX),
                    forall|j: int|
                        0 <= j < i ==> ((#[trigger] out@[j]).0@ == es@[j].0@ && es@[j].1
                            == YamlValue::UInt(out@[j].1 as u64)),
                decreases es@.len() - i,
            {
                match &es[i].1 {
                    YamlValue::UInt(u) => {
                        if *u <= 0xffff_ffff {
                            out.push((es[i].0.clone(), *u as u32));
                        } else {
                            return Err(PlanError::Schema);
                        }
                    },
                    _ => { return Err(PlanError::Schema); },
                }
                i = i + 1;
            }
            Ok(out)
        },
        _ => Err(PlanError::Schema),
    }
}

/// Reads the `recipes` field, as [`recipes_field_ok`] and [`recipes_raw`]
/// describe.
fn get_recipes(entries: &Vec<(String, YamlValue)>) -> (r: Result<Vec<Recipe>, PlanError>)
    ensures
        recipes_field_ok(entries@) ==> (r matches Ok(rs) && rs@.len() == recipes_raw(
            entries@,
        ).len() && forall|i: int|
            0 <= i < rs@.len() ==> recipe_matches(rs@[i], recipes_raw(entries@)[i])),
        !recipes_field_ok(entries@) ==> r == Err::<Vec<Recipe>, PlanError>(PlanError::Schema),
{
    match lookup_entry(entries, &String::from_str("recipes")) {
        None => Ok(Vec::new()),
        Some(v) => match v {
            YamlValue::Null => Ok(Vec::new()),
            YamlValue::Sequence(vs) => {
                let mut out: Vec<Recipe> = Vec::new();
                let mut i: usize = 0;
                while i < vs.len()
                    invariant
                        0 <= i <= vs@.len(),
                        out@.len() == i,
                        forall|j: int| 0 <= j < i ==> recipe_ok(vs@[j]),
                        forall|j: int| 0 <= j < i ==> recipe_matches(out@[j], vs@[j]),
                    decreases vs@.len() - i,
                {
                    match convert_recipe(&vs[i]) {
                        Ok(rec) => { out.push(rec); },
                        Err(e) => { return Err(e); },
                    }
                    i = i + 1;
                }
                Ok(out)
            },
            _ => Err(PlanError::Schema),
        },
    }
}

/// The first description bound to `name` in a catalog, scanning from the
/// front.
pub open spec fn catalog_lookup(
    entries: Seq<(String, MaterialDescription)>,
    name: Seq<char>,
) -> Option<MaterialDescription>
    decreases entries.len(),
{
    if entries.len() == 0 {
        None
    } else if entries[0].0@ == name {
        Some(entries[0].1)
    } else {
        catalog_lookup(entries.drop_first(), name)
    }
}

/// A successful lookup has a witnessing entry index.
pub proof fn lemma_lookup_index(entries: Seq<(String, MaterialDescription)>, name: Seq<char>)
    requires
        catalog_lookup(entries, name) is Some,
    ensures
        exists|i: int| 0 <= i < entries.len() && (#[trigger] entries[i]).0@ == name,
    decreases entries.len(),
{
    if entries.len() == 0 {
    } else if entries[0].0@ == name {
        assert(entries[0].0@ == name);
    } else {
        lemma_lookup_index(entries.drop_first(), name);
        let i = choose|i: int|
            0 <= i < entries.drop_first().len() && (#[trigger] entries.drop_first()[i]).0@ == name;
        assert(entries[i + 1] == entries.drop_first()[i]);
    }
}

/// The static catalog, immutable after load: item names in document order,
/// each with its description.
pub struct Catalog {
    pub entries: Vec<(String, MaterialDescription)>,
}

impl Catalog {
    /// An empty catalog.
    pub fn empty() -> (r: Catalog)
        ensures
            r.entries@.len() == 0,
    {
        Catalog { entries: Vec::new() }
    }

    /// A catalog with `description` appended under `name`.
    pub fn push_entry(&mut self, name: String, description: MaterialDescription)
        ensures
            final(self).entries@ == old(self).entries@.push((name, description)),
    {
        self.entries.push((name, description));
    }

    /// Loads a whole catalog document: a top-level mapping from item name
    /// to catalog entry.  Any shape violation is a schema error.
    pub fn from_document(doc: &YamlValue) -> (r: Result<Catalog, PlanError>)
        ensures
            match *doc {
                YamlValue::Mapping(es) => {
                    if forall|i: int| 0 <= i < es@.len() ==> description_ok(es@[i].1) {
                        r matches Ok(c) && c.entries@.len() == es@.len() && forall|i: int|
                            0 <= i < es@.len() ==> (c.entries@[i].0@ == es@[i].0@
                                && description_matches(c.entries@[i].1, es@[i].1))
                    } else {
                        r == Err::<Catalog, PlanError>(PlanError::Schema)
                    }
                },
                _ => r == Err::<Catalog, PlanError>(PlanError::Schema),
            },
    {
        match doc {
            YamlValue::Mapping(es) => {
                let mut out: Vec<(String, MaterialDescription)> = Vec::new();
                let mut i: usize = 0;
                while i < es.len()
                    invariant
                        0 <= i <= es@.len(),
                        out@.len() == i,
                        forall|j: int| 0 <= j < i ==> description_ok(es@[j].1),
                        forall|j: int|
                            0 <= j < i ==> (out@[j].0@ == es@[j].0@ && description_matches(
                                out@[j].1,
                                es@[j].1,
                            )),
                    decreases es@.len() - i,
                {
                    match MaterialDescription::new(&es[i].1) {
                        Ok(d) => { out.push((es[i].0.clone(), d)); },
                        Err(e) => { return Err(e); },
                    }
                    i = i + 1;
                }
                Ok(Catalog { entries: out })
            },
            _ => Err(PlanError::Schema),
        }
    }

    /// How many entries the catalog holds.
    pub fn len(&self) -> (r: usize)
        ensures
            r == self.entries@.len(),
    {
        self.entries.len()
    }

    /// The entry at a position, for iteration.
    pub fn entry<'a>(&'a self, i: usize) -> (r: &'a (String, MaterialDescription))
        requires
            i < self.entries@.len(),
        ensures
            r == &self.entries@[i as int],
    {
        &self.entries[i]
    }

    /// The first description stored under `name`, as [`catalog_lookup`]
    /// describes.
    pub fn get<'a>(&'a self, name: &String) -> (r: Option<&'a MaterialDescription>)
        ensures
            match r {
                Some(d) => catalog_lookup(self.entries@, name@) == Some(*d),
                None => catalog_lookup(self.entries@, name@) is None,
            },
    {
        proof {
            assert(self.entries@.skip(0) =~= self.entries@);
        }
        let mut i: usize = 0;
        while i < self.entries.len()
            invariant
                0 <= i <= self.entries@.len(),
                catalog_lookup(self.entries@, name@) == catalog_lookup(
                    self.entries@.skip(i as int),
                    name@,
                ),
            decreases self.entries@.len() - i,
        {
            proof {
                assert(self.entries@.skip(i as int)[0] == self.entries@[i as int]);
                assert(self.entries@.skip(i as int).drop_first() =~= self.entries@.skip(
                    i as int + 1,
                ));
            }
            if self.entries[i].0 == *name {
                return Some(&self.entries[i].1);
            }
            i = i + 1;
        }
        proof {
            assert(self.entries@.skip(i as int).len() == 0);
        }
        None
    }
}

} // verus!
