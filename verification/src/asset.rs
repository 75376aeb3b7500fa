//! The asset registry: a catalog of assets with their precisions.
//!
//! Assets are registered once and never change; the rest of the engine
//! refers to an asset by its index in this catalog.

use vstd::prelude::*;
use crate::config::Asset;
use crate::decimal::DECIMAL_SCALE;
use crate::EngineError;

verus! {

/// The mathematical content of an [`Asset`].
pub struct AssetView {
    pub id: Seq<char>,
    pub symbol: Seq<char>,
    pub name: Seq<char>,
    pub prec_save: u32,
    pub prec_show: u32,
}

impl View for Asset {
    type V = AssetView;

    open spec fn view(&self) -> AssetView {
        AssetView {
            id: self.id@,
            symbol: self.symbol@,
            name: self.name@,
            prec_save: self.prec_save,
            prec_show: self.prec_show,
        }
    }
}

/// Whether `s` holds an asset whose id reads `id`.
pub open spec fn has_asset(s: Seq<Asset>, id: Seq<char>) -> bool {
    exists|i: int| 0 <= i < s.len() && s[i].id@ == id
}

/// The index of the asset whose id reads `id` (unique under `assets_wf`).
pub open spec fn asset_index(s: Seq<Asset>, id: Seq<char>) -> int {
    choose|i: int| 0 <= i < s.len() && s[i].id@ == id
}

/// Ids are pairwise distinct and both precisions fit the decimal scale.
pub open spec fn assets_wf(s: Seq<Asset>) -> bool {
    &&& forall|i: int, j: int| 0 <= i < j < s.len() ==> s[i].id@ !== s[j].id@
    &&& forall|i: int|
        0 <= i < s.len() ==> s[i].prec_save <= DECIMAL_SCALE && s[i].prec_show <= DECIMAL_SCALE
}

/// A batch handed to [`AssetManager::append`] is acceptable when its ids
/// are pairwise distinct, entries that repeat a registered id repeat the
/// registered content, and fresh entries respect the decimal scale.
pub open spec fn append_valid(s: Seq<Asset>, ns: Seq<Asset>) -> bool {
    &&& forall|i: int, j: int| 0 <= i < j < ns.len() ==> ns[i].id@ !== ns[j].id@
    &&& forall|k: int|
        0 <= k < ns.len() && has_asset(s, ns[k].id@) ==> s[asset_index(s, ns[k].id@)]@ == ns[k]@
    &&& forall|k: int|
        0 <= k < ns.len() && !has_asset(s, ns[k].id@) ==> ns[k].prec_save <= DECIMAL_SCALE
            && ns[k].prec_show <= DECIMAL_SCALE
}

impl Asset {
    /// A fresh asset value with the same content.
    pub fn duplicate(&self) -> (r: Asset)
        ensures
            r@ == self@,
    {
        Asset {
            id: self.id.clone(),
            symbol: self.symbol.clone(),
            name: self.name.clone(),
            prec_save: self.prec_save,
            prec_show: self.prec_show,
        }
    }

    /// Whether both assets carry the same content.
    pub fn same_as(&self, o: &Asset) -> (r: bool)
        ensures
            r == (self@ == o@),
    {
        let r = self.id == o.id && self.symbol == o.symbol && self.name == o.name
            && self.prec_save == o.prec_save && self.prec_show == o.prec_show;
        proof {
            if r {
                assert(self@ == o@);
            }
        }
        r
    }
}

pub struct AssetManager {
    pub assets: Vec<Asset>,
}

impl AssetManager {
    pub open spec fn wf(self) -> bool {
        assets_wf(self.assets@)
    }

    /// Builds the catalog; rejects duplicate ids and precisions beyond
    /// the decimal scale, taking no partial effect.
    pub fn new(assets: Vec<Asset>) -> (r: Result<AssetManager, EngineError>)
        ensures
            r is Ok <==> assets_wf(assets@),
            r is Ok ==> r->Ok_0.assets@ == assets@,
            r is Err ==> r == Err::<AssetManager, EngineError>(EngineError::InvalidArgument),
    {
        let n = assets.len();
        let mut i: usize = 0;
        while i < n
            invariant
                n == assets@.len(),
                i <= n,
                forall|a: int, b: int| 0 <= a < b < i ==> assets@[a].id@ !== assets@[b].id@,
                forall|a: int|
                    0 <= a < i ==> assets@[a].prec_save <= DECIMAL_SCALE && assets@[a].prec_show
                        <= DECIMAL_SCALE,
            decreases n - i,
        {
            if assets[i].prec_save > DECIMAL_SCALE || assets[i].prec_show > DECIMAL_SCALE {
                return Err(EngineError::InvalidArgument);
            }
            let mut j: usize = 0;
            while j < i
                invariant
                    i < n,
                    n == assets@.len(),
                    j <= i,
                    forall|b: int| 0 <= b < j ==> assets@[b].id@ !== assets@[i as int].id@,
                decreases i - j,
            {
                if assets[j].id == assets[i].id {
                    return Err(EngineError::InvalidArgument);
                }
                j = j + 1;
            }
            i = i + 1;
        }
        Ok(AssetManager { assets })
    }

    /// Index of the asset with this id, if it is registered.
    pub fn find_asset(&self, id: &String) -> (r: Option<usize>)
        ensures
            match r {
                Some(i) => i < self.assets@.len() && self.assets@[i as int].id@ == id@,
                None => !has_asset(self.assets@, id@),
            },
    {
        let n = self.assets.len();
        let mut i: usize = 0;
        while i < n
            invariant
                n == self.assets@.len(),
                i <= n,
                forall|a: int| 0 <= a < i ==> self.assets@[a].id@ !== id@,
            decreases n - i,
        {
            if self.assets[i].id == *id {
                return Some(i);
            }
            i = i + 1;
        }
        None
    }

    pub fn asset_exist(&self, id: &String) -> (r: bool)
        ensures
            r == has_asset(self.assets@, id@),
    {
        self.find_asset(id).is_some()
    }

    /// Boundary precision of a registered asset.
    pub fn asset_prec_show(&self, id: &String) -> (r: u32)
        requires
            self.wf(),
            has_asset(self.assets@, id@),
        ensures
            r == self.assets@[asset_index(self.assets@, id@)].prec_show,
    {
        let i = self.find_asset(id).unwrap();
        proof {
            lemma_asset_index_unique(self.assets@, id@, i as int);
        }
        self.assets[i].prec_show
    }

    /// Ledger precision of a registered asset.
    pub fn asset_prec_save(&self, id: &String) -> (r: u32)
        requires
            self.wf(),
            has_asset(self.assets@, id@),
        ensures
            r == self.assets@[asset_index(self.assets@, id@)].prec_save,
    {
        let i = self.find_asset(id).unwrap();
        proof {
            lemma_asset_index_unique(self.assets@, id@, i as int);
        }
        self.assets[i].prec_save
    }

    /// Additive reload: entries with fresh ids are appended, entries that
    /// repeat a registered id must repeat its content.  On rejection the
    /// catalog is untouched.
    pub fn append(&mut self, ns: &Vec<Asset>) -> (r: Result<(), EngineError>)
        requires
            old(self).wf(),
        ensures
            final(self).wf(),
            r is Ok <==> append_valid(old(self).assets@, ns@),
            r is Err ==> final(self).assets@ == old(self).assets@ && r == Err::<
                (),
                EngineError,
            >(EngineError::InvalidArgument),
            final(self).assets@.len() >= old(self).assets@.len(),
            forall|i: int|
                0 <= i < old(self).assets@.len() ==> final(self).assets@[i] == old(
                    self,
                ).assets@[i],
            final(self).assets@.len() <= old(self).assets@.len() + ns@.len(),
            r is Ok ==> forall|k: int|
                0 <= k < ns@.len() ==> has_asset(final(self).assets@, ns@[k].id@),
    {
        let n = ns.len();
        // Validation pass: no partial effect on rejection.
        let mut k: usize = 0;
        while k < n
            invariant
                n == ns@.len(),
                k <= n,
                self == old(self),
                old(self).wf(),
                forall|a: int, b: int| 0 <= a < b < k ==> ns@[a].id@ !== ns@[b].id@,
                forall|a: int|
                    0 <= a < k && has_asset(self.assets@, ns@[a].id@) ==> self.assets@[asset_index(
                        self.assets@,
                        ns@[a].id@,
                    )]@ == ns@[a]@,
                forall|a: int|
                    0 <= a < k && !has_asset(self.assets@, ns@[a].id@) ==> ns@[a].prec_save
                        <= DECIMAL_SCALE && ns@[a].prec_show <= DECIMAL_SCALE,
            decreases n - k,
        {
            let mut j: usize = 0;
            while j < k
                invariant
                    k < n,
                    n == ns@.len(),
                    j <= k,
                    self == old(self),
                    old(self).wf(),
                    forall|b: int| 0 <= b < j ==> ns@[b].id@ !== ns@[k as int].id@,
                decreases k - j,
            {
                if ns[j].id == ns[k].id {
                    return Err(EngineError::InvalidArgument);
                }
                j = j + 1;
            }
            match self.find_asset(&ns[k].id) {
                Some(i) => {
                    proof {
                        lemma_asset_index_unique(self.assets@, ns@[k as int].id@, i as int);
                    }
                    if !self.assets[i].same_as(&ns[k]) {
                        return Err(EngineError::InvalidArgument);
                    }
                },
                None => {
                    if ns[k].prec_save > DECIMAL_SCALE || ns[k].prec_show > DECIMAL_SCALE {
                        return Err(EngineError::InvalidArgument);
                    }
                },
            }
            k = k + 1;
        }
        // Apply pass: push every fresh id.
        let ghost orig = self.assets@;
        let mut k: usize = 0;
        while k < n
            invariant
                n == ns@.len(),
                k <= n,
                assets_wf(orig),
                append_valid(orig, ns@),
                assets_wf(self.assets@),
                orig.len() <= self.assets@.len() <= orig.len() + k,
                forall|i: int| 0 <= i < orig.len() ==> self.assets@[i] == orig[i],
                forall|a: int|
                    0 <= a < k ==> has_asset(self.assets@, ns@[a].id@),
            decreases n - k,
        {
            proof {
                if has_asset(orig, ns@[k as int].id@) {
                    let i = asset_index(orig, ns@[k as int].id@);
                    assert(self.assets@[i] == orig[i]);
                    assert(self.assets@[i].id@ == ns@[k as int].id@);
                }
            }
            match self.find_asset(&ns[k].id) {
                Some(i) => {
                    proof {
                        assert(self.assets@[i as int].id@ == ns@[k as int].id@);
                        assert(has_asset(self.assets@, ns@[k as int].id@));
                    }
                },
                None => {
                    let ghost pre = self.assets@;
                    let dup = ns[k].duplicate();
                    self.assets.push(dup);
                    proof {
                        let l = pre.len() as int;
                        assert(self.assets@[l] == dup);
                        assert(dup.id@ == ns@[k as int].id@);
                        assert(has_asset(self.assets@, ns@[k as int].id@));
                        assert forall|i: int, j: int|
                            0 <= i < j < self.assets@.len() implies self.assets@[i].id@
                            !== self.assets@[j].id@ by {
                            if j == l {
                                assert(self.assets@[i] == pre[i]);
                                if pre[i].id@ == dup.id@ {
                                    assert(has_asset(pre, dup.id@));
                                }
                            } else {
                                assert(self.assets@[i] == pre[i]);
                                assert(self.assets@[j] == pre[j]);
                            }
                        }
                        assert(!has_asset(orig, ns@[k as int].id@)) by {
                            if has_asset(orig, ns@[k as int].id@) {
                                let i = asset_index(orig, ns@[k as int].id@);
                                assert(self.assets@[i] == orig[i]);
                                assert(has_asset(pre, dup.id@));
                            }
                        }
                        assert forall|a: int|
                            0 <= a < k + 1 implies has_asset(self.assets@, ns@[a].id@) by {
                            if a < k {
                                let i = choose|i: int|
                                    0 <= i < pre.len() && pre[i].id@ == ns@[a].id@;
                                assert(self.assets@[i] == pre[i]);
                            }
                        }
                    }
                },
            }
            k = k + 1;
        }
        Ok(())
    }
}

/// Under `assets_wf`, any index holding `id` is `asset_index`.
pub proof fn lemma_asset_index_unique(s: Seq<Asset>, id: Seq<char>, i: int)
    requires
        assets_wf(s),
        0 <= i < s.len(),
        s[i].id@ == id,
    ensures
        asset_index(s, id) == i,
{
    let j = asset_index(s, id);
    assert(0 <= j < s.len() && s[j].id@ == id);
    if i < j {
        assert(s[i].id@ !== s[j].id@);
    } else if j < i {
        assert(s[j].id@ !== s[i].id@);
    }
}

} // verus!
