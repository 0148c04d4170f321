use vstd::prelude::*;

use crate::item::{ItemSort, ParsedItem, TypeInfo, TypeSort};
use crate::result::TranslationResult;
use crate::strset::{TextSet, text_eq};
use crate::text::views;

verus! {

/// The traits a generated type may derive, in their canonical order.
pub open spec fn canonical_derives() -> Seq<Seq<char>> {
    seq![
        "Clone"@,
        "Copy"@,
        "Debug"@,
        "Default"@,
        "PartialOrd"@,
        "Ord"@,
        "PartialEq"@,
        "Eq"@,
        "Hash"@,
    ]
}

/// How many of the canonical derives a type of kind `sort` starts with: none for a
/// typedef, the first two for a union, all nine for a struct.
pub open spec fn derive_count(sort: TypeSort) -> nat {
    match sort {
        TypeSort::Typedef => 0,
        TypeSort::Union => 2,
        TypeSort::Struct => 9,
    }
}

/// The derives a type of kind `sort` starts with.
pub open spec fn allowed_derives(sort: TypeSort) -> Set<Seq<char>> {
    canonical_derives().subrange(0, derive_count(sort) as int).to_set()
}

/// The set of derives that a type of kind `sort` starts with.
pub fn initial_derives(sort: TypeSort) -> (r: TextSet)
    ensures
        r.wf(),
        r.view_set() == allowed_derives(sort),
{
    let n: usize = match sort {
        TypeSort::Typedef => 0,
        TypeSort::Union => 2,
        TypeSort::Struct => 9,
    };
    proof {
        reveal_strlit("Clone");
        reveal_strlit("Copy");
        reveal_strlit("Debug");
        reveal_strlit("Default");
        reveal_strlit("PartialOrd");
        reveal_strlit("Ord");
        reveal_strlit("PartialEq");
        reveal_strlit("Eq");
        reveal_strlit("Hash");
    }
    let names: Vec<&str> = vec!["Clone", "Copy", "Debug", "Default", "PartialOrd", "Ord", "PartialEq", "Eq", "Hash"];
    let ghost cd = canonical_derives();
    proof {
        assert forall|k: int| 0 <= k < 9 implies #[trigger] names@[k]@ == cd[k] by {
        }
    }
    let mut r = TextSet::new();
    let mut k: usize = 0;
    while k < n
        invariant
            n == derive_count(sort),
            n <= 9,
            names@.len() == 9,
            cd == canonical_derives(),
            forall|j: int| 0 <= j < 9 ==> #[trigger] names@[j]@ == cd[j],
            k <= n,
            r.wf(),
            r.view_set() == cd.subrange(0, k as int).to_set(),
        decreases n - k,
    {
        r.insert(String::from_str(names[k]));
        proof {
            assert(cd.subrange(0, k + 1) =~= cd.subrange(0, k as int).push(cd[k as int]));
            cd.subrange(0, k as int).lemma_push_to_set_commute(cd[k as int]);
        }
        k = k + 1;
    }
    r
}

/// Whether `a` and `b` are the same item but for the derives of a type.
pub open spec fn same_but_derives(a: ParsedItem, b: ParsedItem) -> bool {
    &&& a.name == b.name
    &&& a.code == b.code
    &&& a.simple_code == b.simple_code
    &&& a.checking_code == b.checking_code
    &&& match (a.sort, b.sort) {
        (ItemSort::Type(x), ItemSort::Type(y)) => x.sort == y.sort && y.derives.wf(),
        (ItemSort::Type(_), _) => false,
        (_, ItemSort::Type(_)) => false,
        _ => a.sort == b.sort,
    }
}

/// The derive set of a type item.
pub open spec fn derives_of(i: ParsedItem) -> Set<Seq<char>> {
    match i.sort {
        ItemSort::Type(t) => t.derives.view_set(),
        _ => Set::empty(),
    }
}

/// The kind of a type item.
pub open spec fn sort_of(i: ParsedItem) -> TypeSort {
    match i.sort {
        ItemSort::Type(t) => t.sort,
        _ => TypeSort::Typedef,
    }
}

/// Gives every type item of `result` the derives its kind starts with (see
/// `allowed_derives`); every other item and every other field is left as it is.
pub fn attach_derives(result: &mut TranslationResult)
    ensures
        final(result).items@.len() == old(result).items@.len(),
        final(result).uses == old(result).uses,
        final(result).errors == old(result).errors,
        final(result).copied == old(result).copied,
        final(result).signature_only == old(result).signature_only,
        forall|k: int| 0 <= k < final(result).items@.len() ==> {
            let a = old(result).items@[k];
            let b = #[trigger] final(result).items@[k];
            same_but_derives(a, b) && (b.is_type() ==> derives_of(b) == allowed_derives(sort_of(b)))
        },
{
    let mut rest: Vec<ParsedItem> = Vec::new();
    std::mem::swap(&mut rest, &mut result.items);
    let ghost all = rest@;
    let total = rest.len();
    let mut out: Vec<ParsedItem> = Vec::new();
    let mut k: usize = 0;
    while rest.len() > 0
        invariant
            k + rest@.len() == all.len(),
            all.len() == total,
            rest@ == all.subrange(k as int, all.len() as int),
            out@.len() == k,
            forall|j: int| 0 <= j < k ==> {
                let b = #[trigger] out@[j];
                same_but_derives(all[j], b) && (b.is_type() ==> derives_of(b) == allowed_derives(sort_of(b)))
            },
            result.uses == old(result).uses,
            result.errors == old(result).errors,
            result.copied == old(result).copied,
            result.signature_only == old(result).signature_only,
            all == old(result).items@,
        decreases rest@.len(),
    {
        let ghost r0 = rest@;
        let it = rest.remove(0);
        proof {
            assert(rest@ =~= all.subrange(k + 1, all.len() as int));
            assert(it == all[k as int]);
        }
        let ParsedItem { name, sort, code, simple_code, checking_code } = it;
        let sort = match sort {
            ItemSort::Type(t) => {
                let ds = initial_derives(t.sort);
                ItemSort::Type(TypeInfo { sort: t.sort, derives: ds })
            },
            other => other,
        };
        out.push(ParsedItem { name, sort, code, simple_code, checking_code });
        k = k + 1;
    }
    result.items = out;
}

/// The derives that `rejected` lists for the item named `n`.
pub open spec fn rejected_for(rejected: Seq<(String, Vec<String>)>, n: Seq<char>) -> Set<Seq<char>> {
    Set::new(|d: Seq<char>| exists|k: int| 0 <= k < rejected.len() && rejected[k].0@ == n
        && views(rejected[k].1@).contains(d))
}

/// Whether a type item of `items` is named `n`.
pub open spec fn has_type(items: Seq<ParsedItem>, n: Seq<char>) -> bool {
    exists|j: int| 0 <= j < items.len() && items[j].is_type() && n == items[j].name@
}

/// Whether every entry of `rejected` names a type item of `items`.
pub open spec fn names_types(rejected: Seq<(String, Vec<String>)>, items: Seq<ParsedItem>) -> bool {
    forall|k: int| 0 <= k < rejected.len() ==> has_type(items, #[trigger] rejected[k].0@)
}

fn rejected_union(rejected: &Vec<(String, Vec<String>)>, n: &str) -> (r: Vec<String>)
    ensures
        views(r@).to_set() == rejected_for(rejected@, n@),
{
    let mut r: Vec<String> = Vec::new();
    let mut k: usize = 0;
    while k < rejected.len()
        invariant
            k <= rejected@.len(),
            views(r@).to_set() == Set::new(|d: Seq<char>| exists|q: int| 0 <= q < k && rejected@[q].0@ == n@
                && views(rejected@[q].1@).contains(d)),
        decreases rejected@.len() - k,
    {
        let ghost before = views(r@);
        if text_eq(rejected[k].0.as_str(), n) {
            let ds = &rejected[k].1;
            let mut j: usize = 0;
            while j < ds.len()
                invariant
                    k < rejected@.len(),
                    rejected@[k as int].0@ == n@,
                    *ds == rejected@[k as int].1,
                    j <= ds@.len(),
                    views(r@).to_set() == before.to_set().union(views(ds@.subrange(0, j as int)).to_set()),
                decreases ds@.len() - j,
            {
                let ghost rv = views(r@);
                r.push(ds[j].clone());
                proof {
                    assert(views(r@) =~= rv.push(ds@[j as int]@));
                    rv.lemma_push_to_set_commute(ds@[j as int]@);
                    assert(views(ds@.subrange(0, j + 1)) =~= views(ds@.subrange(0, j as int)).push(ds@[j as int]@));
                    views(ds@.subrange(0, j as int)).lemma_push_to_set_commute(ds@[j as int]@);
                    assert(views(r@).to_set() =~= before.to_set().union(views(ds@.subrange(0, j + 1)).to_set()));
                }
                j = j + 1;
            }
            proof {
                assert(ds@.subrange(0, ds@.len() as int) =~= ds@);
            }
        }
        proof {
            assert(views(r@).to_set() =~= Set::new(|d: Seq<char>| exists|q: int| 0 <= q < k + 1 && rejected@[q].0@ == n@
                && views(rejected@[q].1@).contains(d))) by {
                assert forall|d: Seq<char>| (exists|q: int| 0 <= q < k + 1 && rejected@[q].0@ == n@
                    && views(rejected@[q].1@).contains(d)) implies views(r@).to_set().contains(d) by {
                    let q = choose|q: int| 0 <= q < k + 1 && rejected@[q].0@ == n@ && views(rejected@[q].1@).contains(d);
                    if q < k {
                        assert(before.to_set().contains(d));
                    }
                }
            }
        }
        k = k + 1;
    }
    proof {
        assert(rejected_for(rejected@, n@) =~= Set::new(|d: Seq<char>| exists|q: int| 0 <= q < rejected@.len() && rejected@[q].0@ == n@
            && views(rejected@[q].1@).contains(d)));
    }
    r
}

fn names_a_type(items: &Vec<ParsedItem>, n: &str) -> (r: bool)
    ensures
        r == has_type(items@, n@),
{
    let mut j: usize = 0;
    while j < items.len()
        invariant
            j <= items@.len(),
            forall|q: int| 0 <= q < j ==> !(items@[q].is_type() && n@ == items@[q].name@),
        decreases items@.len() - j,
    {
        let is_type = match items[j].sort {
            ItemSort::Type(_) => true,
            _ => false,
        };
        if is_type && text_eq(items[j].name.as_str(), n) {
            return true;
        }
        j = j + 1;
    }
    false
}

/// One round of derive minimisation. `rejected` is what the derive check of the program
/// reported: per item name, the derives that must go. With nothing rejected the result is
/// final (`Ok(true)`) and untouched. Otherwise every type item loses the derives rejected
/// for its name and the program is checked again (`Ok(false)`); an entry that names no
/// type item of the result is an error, and nothing is changed.
pub fn remove_wrong_derives(result: &mut TranslationResult, rejected: &Vec<(String, Vec<String>)>) -> (r: Result<bool, crate::translator::TranslateError>)
    requires
        forall|k: int| 0 <= k < old(result).items@.len() ==> (#[trigger] old(result).items@[k]).wf(),
    ensures
        rejected@.len() == 0 ==> r == Ok::<bool, crate::translator::TranslateError>(true) && *final(result) == *old(result),
        r == Ok::<bool, crate::translator::TranslateError>(true) ==> rejected@.len() == 0,
        rejected@.len() > 0 ==> (r is Ok <==> names_types(rejected@, old(result).items@)),
        r is Err ==> *final(result) == *old(result),
        r == Ok::<bool, crate::translator::TranslateError>(false) ==> {
            &&& final(result).items@.len() == old(result).items@.len()
            &&& final(result).uses == old(result).uses
            &&& final(result).errors == old(result).errors
            &&& final(result).copied == old(result).copied
            &&& final(result).signature_only == old(result).signature_only
            &&& forall|k: int| 0 <= k < final(result).items@.len() ==> {
                let a = old(result).items@[k];
                let b = #[trigger] final(result).items@[k];
                (a.is_type() ==> same_but_derives(a, b)
                    && derives_of(b) == derives_of(a).difference(rejected_for(rejected@, a.name@)))
                && (!a.is_type() ==> a == b)
            }
        },
{
    if rejected.len() == 0 {
        return Ok(true);
    }
    let mut k: usize = 0;
    while k < rejected.len()
        invariant
            k <= rejected@.len(),
            forall|q: int| 0 <= q < k ==> has_type(result.items@, #[trigger] rejected@[q].0@),
            *result == *old(result),
        decreases rejected@.len() - k,
    {
        if !names_a_type(&result.items, rejected[k].0.as_str()) {
            return Err(crate::translator::TranslateError::UnknownItem);
        }
        k = k + 1;
    }
    proof {
        assert(names_types(rejected@, old(result).items@));
    }
    let mut rest: Vec<ParsedItem> = Vec::new();
    std::mem::swap(&mut rest, &mut result.items);
    let ghost all = rest@;
    let total = rest.len();
    let mut out: Vec<ParsedItem> = Vec::new();
    let mut k: usize = 0;
    while rest.len() > 0
        invariant
            k + rest@.len() == all.len(),
            all.len() == total,
            rest@ == all.subrange(k as int, all.len() as int),
            out@.len() == k,
            forall|j: int| 0 <= j < k ==> {
                let a = all[j];
                let b = #[trigger] out@[j];
                (a.is_type() ==> same_but_derives(a, b)
                    && derives_of(b) == derives_of(a).difference(rejected_for(rejected@, a.name@)))
                && (!a.is_type() ==> a == b)
            },
            forall|j: int| 0 <= j < all.len() ==> (#[trigger] all[j]).wf(),
            names_types(rejected@, old(result).items@),
            result.uses == old(result).uses,
            result.errors == old(result).errors,
            result.copied == old(result).copied,
            result.signature_only == old(result).signature_only,
            all == old(result).items@,
        decreases rest@.len(),
    {
        let it = rest.remove(0);
        proof {
            assert(rest@ =~= all.subrange(k + 1, all.len() as int));
            assert(it == all[k as int]);
        }
        let ParsedItem { name, sort, code, simple_code, checking_code } = it;
        let sort = match sort {
            ItemSort::Type(t) => {
                let drop = rejected_union(rejected, name.as_str());
                let mut ds = t.derives;
                ds.remove_all(&drop);
                ItemSort::Type(TypeInfo { sort: t.sort, derives: ds })
            },
            other => other,
        };
        out.push(ParsedItem { name, sort, code, simple_code, checking_code });
        k = k + 1;
    }
    result.items = out;
    Ok(false)
}

/// A derive round that rejects a derive a type item still has leaves it a strict subset
/// of its derives: each round of minimisation that changes an item removes at least one
/// derive, so an item sees at most as many such rounds as it started with derives (nine
/// for a struct).
pub proof fn lemma_derive_round_shrinks(a: ParsedItem, b: ParsedItem, rejected: Set<Seq<char>>, d: Seq<char>)
    requires
        a.is_type(),
        derives_of(b) == derives_of(a).difference(rejected),
        rejected.contains(d),
        derives_of(a).contains(d),
    ensures
        derives_of(b).subset_of(derives_of(a)),
        derives_of(b).len() < derives_of(a).len(),
{
    let sa = derives_of(a);
    let t = a.sort->Type_0;
    vstd::seq_lib::seq_to_set_is_finite(t.derives.view_seq());
    assert(sa.finite());
    assert(derives_of(b).subset_of(sa.remove(d)));
    vstd::set::axiom_set_remove_len(sa, d);
    vstd::set_lib::lemma_len_subset(derives_of(b), sa.remove(d));
}

} // verus!
