//! Listing gather: which items could appear as marketplace purchases
//! anywhere in the recursive decomposition of the targets.
//!
//! A depth-first traversal from each target visits every recipe input
//! reachable through the catalog; each visited item with a marketplace
//! identifier joins the request set.  An unknown name is a fatal
//! missing-description error.

#![verifier::loop_isolation(false)]

use vstd::prelude::*;
use vstd::set_lib::{lemma_int_range, lemma_len_subset, set_int_range};
use crate::descriptions::{Catalog, catalog_lookup, lemma_lookup_index};
use crate::errors::PlanError;

verus! {

/// Whether some element of a name stack views as `name`.
pub open spec fn names_has(s: Seq<String>, name: Seq<char>) -> bool
    decreases s.len(),
{
    if s.len() == 0 {
        false
    } else {
        names_has(s.drop_last(), name) || s.last()@ == name
    }
}

/// Whether some gathered pair is for `name`.
pub open spec fn pairs_has(s: Seq<(String, u32)>, name: Seq<char>) -> bool
    decreases s.len(),
{
    if s.len() == 0 {
        false
    } else {
        pairs_has(s.drop_last(), name) || s.last().0@ == name
    }
}

/// A name stack holds every name standing at some index.
pub proof fn lemma_names_has_at(s: Seq<String>, j: int)
    requires
        0 <= j < s.len(),
    ensures
        names_has(s, s[j]@),
    decreases s.len(),
{
    if j < s.len() - 1 {
        assert(s.drop_last()[j] == s[j]);
        lemma_names_has_at(s.drop_last(), j);
    }
}

/// A name at no index is not held.
pub proof fn lemma_names_absent(s: Seq<String>, name: Seq<char>)
    requires
        forall|j: int| 0 <= j < s.len() ==> (#[trigger] s[j])@ != name,
    ensures
        !names_has(s, name),
    decreases s.len(),
{
    if s.len() > 0 {
        lemma_names_absent(s.drop_last(), name);
    }
}

/// The gathered pairs hold every name standing at some index.
pub proof fn lemma_pairs_has_at(s: Seq<(String, u32)>, j: int)
    requires
        0 <= j < s.len(),
    ensures
        pairs_has(s, s[j].0@),
    decreases s.len(),
{
    if j < s.len() - 1 {
        assert(s.drop_last()[j] == s[j]);
        lemma_pairs_has_at(s.drop_last(), j);
    }
}

/// Every recipe input of `name`'s description is on the stack or
/// already visited, and `name` itself resolves in the catalog.
pub open spec fn inputs_covered(
    entries: Seq<(String, crate::descriptions::MaterialDescription)>,
    stack: Seq<String>,
    visited: Seq<String>,
    name: Seq<char>,
) -> bool {
    match catalog_lookup(entries, name) {
        Some(d) => forall|r: int, j: int|
            0 <= r < d.recipes@.len() && 0 <= j < d.recipes@[r]@.len() ==> (names_has(
                stack,
                (#[trigger] d.recipes@[r]@[j]).0@,
            ) || names_has(visited, d.recipes@[r]@[j].0@)),
        None => false,
    }
}

/// `name` resolves, and each of its recipe inputs resolves and, when
/// listed on the marketplace, was gathered.
pub open spec fn closed_under_recipes(
    entries: Seq<(String, crate::descriptions::MaterialDescription)>,
    pairs: Seq<(String, u32)>,
    name: Seq<char>,
) -> bool {
    match catalog_lookup(entries, name) {
        Some(d) => forall|r: int, j: int|
            0 <= r < d.recipes@.len() && 0 <= j < d.recipes@[r]@.len() ==> (match catalog_lookup(
                entries,
                (#[trigger] d.recipes@[r]@[j]).0@,
            ) {
                Some(di) => di.post_id matches Some(pid) ==> pairs_has(
                    pairs,
                    d.recipes@[r]@[j].0@,
                ),
                None => false,
            }),
        None => false,
    }
}

/// Whether a name was already visited.
fn contains_name(v: &Vec<String>, name: &String) -> (b: bool)
    ensures
        b == names_has(v@, name@),
{
    let mut i: usize = 0;
    while i < v.len()
        invariant
            0 <= i <= v@.len(),
            forall|j: int| 0 <= j < i ==> (#[trigger] v@[j])@ != name@,
        decreases v@.len() - i,
    {
        if v[i] == *name {
            proof {
                lemma_names_has_at(v@, i as int);
            }
            return true;
        }
        i = i + 1;
    }
    proof {
        lemma_names_absent(v@, name@);
    }
    false
}

/// Collects every item reachable from the targets through recipes whose
/// description carries a marketplace identifier, as `(name, identifier)`
/// pairs with unique names.  Every target must resolve in the catalog,
/// and so must every recipe input met on the way; an unknown name is a
/// missing-description error.  The traversal visits each catalog entry
/// at most once, so it terminates on every input.
pub fn gather_market_items(catalog: &Catalog, targets: &Vec<String>) -> (r: Result<
    Vec<(String, u32)>,
    PlanError,
>)
    ensures
        r matches Ok(pairs) ==> ({
            &&& (forall|j: int|
                0 <= j < pairs@.len() ==> (catalog_lookup(
                    catalog.entries@,
                    (#[trigger] pairs@[j]).0@,
                ) matches Some(d) && d.post_id == Some(pairs@[j].1)))
            &&& (forall|a: int, b: int|
                0 <= a < pairs@.len() && 0 <= b < pairs@.len() && a != b ==> (
                #[trigger] pairs@[a]).0@ != (#[trigger] pairs@[b]).0@)
            &&& (forall|i: int|
                0 <= i < targets@.len() ==> (catalog_lookup(
                    catalog.entries@,
                    (#[trigger] targets@[i])@,
                ) matches Some(d) && (d.post_id matches Some(pid) ==> pairs_has(
                    pairs@,
                    targets@[i]@,
                ))))
            &&& (forall|j: int|
                0 <= j < pairs@.len() ==> closed_under_recipes(
                    catalog.entries@,
                    pairs@,
                    (#[trigger] pairs@[j]).0@,
                ))
        }),
        r matches Err(e) ==> (e matches PlanError::MissingDescription(n) && catalog_lookup(
            catalog.entries@,
            n@,
        ) is None),
{
    let mut stack: Vec<String> = Vec::new();
    let mut i: usize = 0;
    while i < targets.len()
        invariant
            0 <= i <= targets@.len(),
            stack@.len() == i,
            forall|j: int| 0 <= j < i ==> (#[trigger] stack@[j])@ == targets@[j]@,
        decreases targets@.len() - i,
    {
        stack.push(targets[i].clone());
        i = i + 1;
    }
    proof {
        assert forall|i2: int| 0 <= i2 < targets@.len() implies names_has(
            stack@,
            (#[trigger] targets@[i2])@,
        ) by {
            lemma_names_has_at(stack@, i2);
        }
    }
    let mut visited: Vec<String> = Vec::new();
    let mut pairs: Vec<(String, u32)> = Vec::new();
    let ghost mut seen_indices: Set<int> = Set::empty();
    while stack.len() > 0
        invariant
            seen_indices.finite(),
            seen_indices.len() == visited@.len(),
            forall|x: int|
                #[trigger] seen_indices.contains(x) ==> 0 <= x < catalog.entries@.len()
                    && names_has(visited@, catalog.entries@[x].0@),
            visited@.len() <= catalog.entries@.len(),
            forall|k: int|
                0 <= k < visited@.len() ==> (catalog_lookup(
                    catalog.entries@,
                    (#[trigger] visited@[k])@,
                ) matches Some(d) && (d.post_id matches Some(pid) ==> pairs_has(
                    pairs@,
                    visited@[k]@,
                ))),
            forall|j: int|
                0 <= j < pairs@.len() ==> (catalog_lookup(
                    catalog.entries@,
                    (#[trigger] pairs@[j]).0@,
                ) matches Some(d) && d.post_id == Some(pairs@[j].1)),
            forall|j: int| 0 <= j < pairs@.len() ==> names_has(visited@, (#[trigger] pairs@[j]).0@),
            forall|a: int, b: int|
                0 <= a < pairs@.len() && 0 <= b < pairs@.len() && a != b ==> (
                #[trigger] pairs@[a]).0@ != (#[trigger] pairs@[b]).0@,
            forall|i2: int|
                0 <= i2 < targets@.len() ==> (names_has(stack@, (#[trigger] targets@[i2])@)
                    || (names_has(visited@, targets@[i2]@) && catalog_lookup(
                    catalog.entries@,
                    targets@[i2]@,
                ) is Some)),
            forall|k: int|
                0 <= k < visited@.len() ==> inputs_covered(
                    catalog.entries@,
                    stack@,
                    visited@,
                    (#[trigger] visited@[k])@,
                ),
        decreases catalog.entries@.len() - visited@.len(), stack@.len(),
    {
        let name = match stack.pop() {
            Some(n) => n,
            None => {
                proof {
                    assert(false);
                }
                return Ok(pairs);
            },
        };
        if contains_name(&visited, &name) {
            proof {
                lemma_names_has_index(visited@, name@);
                let k = choose|k: int|
                    0 <= k < visited@.len() && (#[trigger] visited@[k])@ == name@;
                assert(catalog_lookup(catalog.entries@, visited@[k]@) is Some);
            }
            continue ;
        }
        let description = match catalog.get(&name) {
            Some(d) => d,
            None => {
                return Err(PlanError::MissingDescription(name));
            },
        };
        if let Some(pid) = description.post_id() {
            let ghost old_pairs = pairs@;
            pairs.push((name.clone(), *pid));
            proof {
                assert(pairs@.drop_last() =~= old_pairs);
                lemma_pairs_has_at(pairs@, pairs@.len() - 1);
            }
        }
        let ghost old_visited = visited@;
        let ghost fresh_index: int = choose|x: int|
            0 <= x < catalog.entries@.len() && (#[trigger] catalog.entries@[x]).0@ == name@;
        proof {
            lemma_lookup_index(catalog.entries@, name@);
            assert(!seen_indices.contains(fresh_index));
        }
        visited.push(name.clone());
        proof {
            assert(visited@.drop_last() =~= old_visited);
            lemma_names_has_at(visited@, visited@.len() - 1);
            assert forall|j: int| 0 <= j < pairs@.len() implies names_has(
                visited@,
                (#[trigger] pairs@[j]).0@,
            ) by {}
            seen_indices = seen_indices.insert(fresh_index);
            assert forall|x: int| #[trigger] seen_indices.contains(x) implies 0 <= x
                < catalog.entries@.len() && names_has(visited@, catalog.entries@[x].0@) by {
                if x != fresh_index {
                    assert(old_visited == visited@.drop_last());
                }
            }
            assert(seen_indices.subset_of(set_int_range(0, catalog.entries@.len() as int)));
            lemma_int_range(0, catalog.entries@.len() as int);
            lemma_len_subset(seen_indices, set_int_range(0, catalog.entries@.len() as int));
        }
        let mut ri: usize = 0;
        let recipes = description.recipes();
        while ri < recipes.len()
            invariant
                0 <= ri <= recipes@.len(),
                forall|i2: int|
                    0 <= i2 < targets@.len() ==> (names_has(stack@, (#[trigger] targets@[i2])@)
                        || (names_has(visited@, targets@[i2]@) && catalog_lookup(
                        catalog.entries@,
                        targets@[i2]@,
                    ) is Some)),
                visited@.len() > 0,
                visited@[visited@.len() - 1]@ == name@,
                catalog_lookup(catalog.entries@, name@) == Some(*description),
                recipes@ == description.recipes@,
                forall|k: int|
                    0 <= k < visited@.len() - 1 ==> inputs_covered(
                        catalog.entries@,
                        stack@,
                        visited@,
                        (#[trigger] visited@[k])@,
                    ),
                forall|r: int, j: int|
                    0 <= r < ri && 0 <= j < recipes@[r]@.len() ==> (names_has(
                        stack@,
                        (#[trigger] recipes@[r]@[j]).0@,
                    ) || names_has(visited@, recipes@[r]@[j].0@)),
            decreases recipes@.len() - ri,
        {
            let recipe = &recipes[ri];
            let mut rj: usize = 0;
            while rj < recipe.len()
                invariant
                    0 <= rj <= recipe@.len(),
                    recipe@ == recipes@[ri as int]@,
                    ri < recipes@.len(),
                    forall|i2: int|
                        0 <= i2 < targets@.len() ==> (names_has(
                            stack@,
                            (#[trigger] targets@[i2])@,
                        ) || (names_has(visited@, targets@[i2]@) && catalog_lookup(
                            catalog.entries@,
                            targets@[i2]@,
                        ) is Some)),
                    visited@.len() > 0,
                    visited@[visited@.len() - 1]@ == name@,
                    catalog_lookup(catalog.entries@, name@) == Some(*description),
                    recipes@ == description.recipes@,
                    forall|k: int|
                        0 <= k < visited@.len() - 1 ==> inputs_covered(
                            catalog.entries@,
                            stack@,
                            visited@,
                            (#[trigger] visited@[k])@,
                        ),
                    forall|r: int, j: int|
                        0 <= r < ri && 0 <= j < recipes@[r]@.len() ==> (names_has(
                            stack@,
                            (#[trigger] recipes@[r]@[j]).0@,
                        ) || names_has(visited@, recipes@[r]@[j].0@)),
                    forall|j: int|
                        0 <= j < rj ==> (names_has(stack@, (#[trigger] recipe@[j]).0@)
                            || names_has(visited@, recipe@[j].0@)),
                decreases recipe@.len() - rj,
            {
                let ghost old_stack = stack@;
                stack.push(recipe[rj].0.clone());
                proof {
                    assert(stack@.drop_last() =~= old_stack);
                    lemma_names_has_at(stack@, stack@.len() - 1);
                }
                rj = rj + 1;
            }
            ri = ri + 1;
        }
    }
    proof {
        assert forall|i2: int|
            0 <= i2 < targets@.len() implies catalog_lookup(
            catalog.entries@,
            (#[trigger] targets@[i2])@,
        ) matches Some(d) && (d.post_id matches Some(pid) ==> pairs_has(
            pairs@,
            targets@[i2]@,
        )) by {
            lemma_names_has_index(visited@, targets@[i2]@);
        }
        assert forall|j: int|
            0 <= j < pairs@.len() implies closed_under_recipes(
            catalog.entries@,
            pairs@,
            (#[trigger] pairs@[j]).0@,
        ) by {
            lemma_names_has_index(visited@, pairs@[j].0@);
            let k = choose|k: int|
                0 <= k < visited@.len() && (#[trigger] visited@[k])@ == pairs@[j].0@;
            assert(inputs_covered(catalog.entries@, stack@, visited@, visited@[k]@));
            let d = catalog_lookup(catalog.entries@, pairs@[j].0@).unwrap();
            assert forall|r: int, j2: int|
                0 <= r < d.recipes@.len() && 0 <= j2 < d.recipes@[r]@.len() implies (
            match catalog_lookup(catalog.entries@, (#[trigger] d.recipes@[r]@[j2]).0@) {
                Some(di) => di.post_id matches Some(pid) ==> pairs_has(
                    pairs@,
                    d.recipes@[r]@[j2].0@,
                ),
                None => false,
            }) by {
                assert(names_has(visited@, d.recipes@[r]@[j2].0@));
                lemma_names_has_index(visited@, d.recipes@[r]@[j2].0@);
                let m = choose|m: int|
                    0 <= m < visited@.len() && (#[trigger] visited@[m])@ == d.recipes@[r]@[j2].0@;
                assert(catalog_lookup(catalog.entries@, visited@[m]@) is Some);
            }
        }
    }
    Ok(pairs)
}

/// A held name stands at some index.
pub proof fn lemma_names_has_index(s: Seq<String>, name: Seq<char>)
    requires
        names_has(s, name),
    ensures
        exists|k: int| 0 <= k < s.len() && (#[trigger] s[k])@ == name,
    decreases s.len(),
{
    if s.last()@ == name {
        assert(s[s.len() - 1]@ == name);
    } else {
        lemma_names_has_index(s.drop_last(), name);
        let k = choose|k: int| 0 <= k < s.drop_last().len() && (#[trigger] s.drop_last()[k])@
            == name;
        assert(s[k] == s.drop_last()[k]);
    }
}

} // verus!
