//! Inventory totals: how much of an article a set of storages holds.
use vstd::prelude::*;
use crate::catalog::{Catalog, CatalogError};

verus! {

/// Sum of the quantities of article `a` over the storages listed in `ids`
/// (a storage listed twice counts twice).
pub open spec fn total(c: &Catalog, ids: Seq<usize>, a: usize) -> nat
    decreases ids.len(),
{
    if ids.len() == 0 {
        0
    } else {
        total(c, ids.drop_last(), a) + c.stored(ids.last() as int, a)
    }
}

pub open spec fn storages_known(c: &Catalog, ids: Seq<usize>) -> bool {
    forall|i: int| 0 <= i < ids.len() ==> #[trigger] ids[i] < c.storages@.len()
}

/// The quantity of `article` held by the storages `storages` together; fails
/// with `NotFound` when one of them is not in the catalog.
pub fn available_quantity(c: &Catalog, article: usize, storages: &Vec<usize>) -> (r: Result<
    u128,
    CatalogError,
>)
    requires
        c.wf(),
    ensures
        match r {
            Ok(q) => storages_known(c, storages@) && q as nat == total(c, storages@, article),
            Err(e) => !storages_known(c, storages@) && e == CatalogError::NotFound,
        },
{
    let mut i: usize = 0;
    while i < storages.len()
        invariant
            i <= storages@.len(),
            forall|j: int| 0 <= j < i ==> #[trigger] storages@[j] < c.storages@.len(),
        decreases storages@.len() - i,
    {
        if storages[i] >= c.storages.len() {
            return Err(CatalogError::NotFound);
        }
        i = i + 1;
    }
    let mut sum: u128 = 0;
    let mut i: usize = 0;
    while i < storages.len()
        invariant
            c.wf(),
            storages_known(c, storages@),
            i <= storages@.len(),
            sum == total(c, storages@.subrange(0, i as int), article),
            sum <= i * 0xFFFF_FFFF_FFFF_FFFFu128,
        decreases storages@.len() - i,
    {
        let s = storages[i];
        let q = quantity_of(c, s, article);
        proof {
            let pre = storages@.subrange(0, i as int + 1);
            assert(pre.drop_last() == storages@.subrange(0, i as int));
        }
        sum = sum + q as u128;
        i = i + 1;
    }
    assert(storages@.subrange(0, storages@.len() as int) == storages@);
    Ok(sum)
}

/// The quantity of `article` recorded in storage `s`.
pub fn quantity_of(c: &Catalog, s: usize, article: usize) -> (r: u64)
    requires
        c.wf(),
        s < c.storages@.len(),
    ensures
        r as nat == c.stored(s as int, article),
{
    let stock = &c.storages[s].stock;
    let mut i: usize = 0;
    while i < stock.len()
        invariant
            c.wf(),
            s < c.storages@.len(),
            stock@ == c.storages@[s as int].stock@,
            i <= stock@.len(),
            forall|j: int| 0 <= j < i ==> stock@[j].0 != article,
        decreases stock@.len() - i,
    {
        if stock[i].0 == article {
            proof {
                let k = choose|k: int| 0 <= k < stock@.len() && stock@[k].0 == article;
                assert(k == i);
            }
            return stock[i].1;
        }
        i = i + 1;
    }
    0
}

/// Totals add up over concatenated storage lists.
pub proof fn lemma_total_concat(c: &Catalog, ids1: Seq<usize>, ids2: Seq<usize>, a: usize)
    ensures
        total(c, ids1 + ids2, a) == total(c, ids1, a) + total(c, ids2, a),
    decreases ids2.len(),
{
    if ids2.len() == 0 {
        assert(ids1 + ids2 == ids1);
    } else {
        assert((ids1 + ids2).drop_last() == ids1 + ids2.drop_last());
        lemma_total_concat(c, ids1, ids2.drop_last(), a);
    }
}

/// The total over a list of storages is at least what any one of them holds.
pub proof fn lemma_total_covers_member(c: &Catalog, ids: Seq<usize>, a: usize, i: int)
    requires
        0 <= i < ids.len(),
    ensures
        total(c, ids, a) >= c.stored(ids[i] as int, a),
    decreases ids.len(),
{
    if i < ids.len() - 1 {
        lemma_total_covers_member(c, ids.drop_last(), a, i);
    }
}

} // verus!
