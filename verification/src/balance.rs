//! The balance ledger: per-(user, asset) available and frozen amounts.
//!
//! Every mutation goes through the primitives here, each of which keeps
//! the ledger invariant: no balance is ever negative, and the two
//! partitions of an entry together stay within the decimal bound.

use vstd::prelude::*;
use crate::asset::AssetManager;
use crate::config::Asset;
use crate::decimal::{lemma_round_nonneg, round_half_at, Decimal, MAX_MANTISSA};
use crate::EngineError;

verus! {

/// The two partitions of a user balance.
#[derive(Clone, Copy, Debug, PartialEq, Eq, Structural)]
pub enum BalanceType {
    AVAILABLE,
    FREEZE,
}

/// One ledger cell: both partitions of one user's holding of one asset.
#[derive(Clone, Copy, Debug, PartialEq, Eq, Structural)]
pub struct BalanceEntry {
    pub user: u32,
    pub asset: u32,
    pub available: Decimal,
    pub frozen: Decimal,
}

pub open spec fn has_entry(s: Seq<BalanceEntry>, u: u32, a: u32) -> bool {
    exists|i: int| 0 <= i < s.len() && s[i].user == u && s[i].asset == a
}

pub open spec fn entry_index(s: Seq<BalanceEntry>, u: u32, a: u32) -> int {
    choose|i: int| 0 <= i < s.len() && s[i].user == u && s[i].asset == a
}

/// The available amount of `(u, a)`: zero when no entry exists.
pub open spec fn avail_of(s: Seq<BalanceEntry>, u: u32, a: u32) -> int {
    if has_entry(s, u, a) {
        s[entry_index(s, u, a)].available.mantissa as int
    } else {
        0
    }
}

/// The frozen amount of `(u, a)`: zero when no entry exists.
pub open spec fn frozen_of(s: Seq<BalanceEntry>, u: u32, a: u32) -> int {
    if has_entry(s, u, a) {
        s[entry_index(s, u, a)].frozen.mantissa as int
    } else {
        0
    }
}

/// The balance of one partition of `(u, a)`.
pub open spec fn balance_of(s: Seq<BalanceEntry>, u: u32, bt: BalanceType, a: u32) -> int {
    match bt {
        BalanceType::AVAILABLE => avail_of(s, u, a),
        BalanceType::FREEZE => frozen_of(s, u, a),
    }
}

/// Keys are pairwise distinct; both partitions are nonnegative and
/// together stay within the decimal bound.
pub open spec fn entries_wf(s: Seq<BalanceEntry>) -> bool {
    &&& forall|i: int, j: int|
        0 <= i < j < s.len() ==> !(s[i].user == s[j].user && s[i].asset == s[j].asset)
    &&& forall|i: int|
        0 <= i < s.len() ==> 0 <= #[trigger] s[i].available.mantissa && 0 <= s[i].frozen.mantissa
            && s[i].available.mantissa + s[i].frozen.mantissa <= MAX_MANTISSA
}

/// Under `entries_wf`, any index holding `(u, a)` is `entry_index`.
pub proof fn lemma_entry_index_unique(s: Seq<BalanceEntry>, u: u32, a: u32, i: int)
    requires
        forall|x: int, y: int|
            0 <= x < y < s.len() ==> !(s[x].user == s[y].user && s[x].asset == s[y].asset),
        0 <= i < s.len(),
        s[i].user == u,
        s[i].asset == a,
    ensures
        has_entry(s, u, a),
        entry_index(s, u, a) == i,
{
    assert(has_entry(s, u, a));
    let j = entry_index(s, u, a);
    assert(0 <= j < s.len() && s[j].user == u && s[j].asset == a);
}

/// Updating index `i` without changing its key moves only the balances
/// of that key; every other key keeps both partitions.
pub proof fn lemma_update_entry(s: Seq<BalanceEntry>, i: int, e: BalanceEntry)
    requires
        forall|x: int, y: int|
            0 <= x < y < s.len() ==> !(s[x].user == s[y].user && s[x].asset == s[y].asset),
        0 <= i < s.len(),
        e.user == s[i].user,
        e.asset == s[i].asset,
    ensures
        forall|u2: u32, a2: u32|
            !(u2 == e.user && a2 == e.asset) ==> #[trigger] avail_of(s.update(i, e), u2, a2)
                == avail_of(s, u2, a2),
        forall|u2: u32, a2: u32|
            !(u2 == e.user && a2 == e.asset) ==> #[trigger] frozen_of(s.update(i, e), u2, a2)
                == frozen_of(s, u2, a2),
        avail_of(s.update(i, e), e.user, e.asset) == e.available.mantissa,
        frozen_of(s.update(i, e), e.user, e.asset) == e.frozen.mantissa,
        forall|x: int, y: int|
            0 <= x < y < s.update(i, e).len() ==> !(s.update(i, e)[x].user == s.update(
                i,
                e,
            )[y].user && s.update(i, e)[x].asset == s.update(i, e)[y].asset),
{
    let t = s.update(i, e);
    assert(forall|j: int| 0 <= j < s.len() ==> t[j].user == s[j].user && t[j].asset == s[j].asset);
    lemma_entry_index_unique(t, e.user, e.asset, i);
    assert forall|u2: u32, a2: u32| !(u2 == e.user && a2 == e.asset) implies #[trigger] avail_of(
        t,
        u2,
        a2,
    ) == avail_of(s, u2, a2) && #[trigger] frozen_of(t, u2, a2) == frozen_of(s, u2, a2) by {
        if has_entry(s, u2, a2) {
            let j = entry_index(s, u2, a2);
            assert(0 <= j < s.len() && s[j].user == u2 && s[j].asset == a2);
            lemma_entry_index_unique(t, u2, a2, j);
            assert(j != i);
        } else {
            if has_entry(t, u2, a2) {
                let j = entry_index(t, u2, a2);
                assert(s[j].user == u2 && s[j].asset == a2);
            }
        }
    }
}

/// Appending a fresh zero entry changes no balance of any key.
pub proof fn lemma_push_zero_entry(s: Seq<BalanceEntry>, e: BalanceEntry)
    requires
        forall|x: int, y: int|
            0 <= x < y < s.len() ==> !(s[x].user == s[y].user && s[x].asset == s[y].asset),
        !has_entry(s, e.user, e.asset),
        e.available.mantissa == 0,
        e.frozen.mantissa == 0,
    ensures
        forall|u2: u32, a2: u32|
            #[trigger] avail_of(s.push(e), u2, a2) == avail_of(s, u2, a2),
        forall|u2: u32, a2: u32|
            #[trigger] frozen_of(s.push(e), u2, a2) == frozen_of(s, u2, a2),
        has_entry(s.push(e), e.user, e.asset),
        entry_index(s.push(e), e.user, e.asset) == s.len(),
        forall|x: int, y: int|
            0 <= x < y < s.push(e).len() ==> !(s.push(e)[x].user == s.push(e)[y].user && s.push(
                e,
            )[x].asset == s.push(e)[y].asset),
{
    let t = s.push(e);
    let l = s.len() as int;
    assert(t[l] == e);
    assert(forall|j: int| 0 <= j < s.len() ==> t[j] == s[j]);
    assert forall|x: int, y: int| 0 <= x < y < t.len() implies !(t[x].user == t[y].user
        && t[x].asset == t[y].asset) by {
        if y == l {
            if t[x].user == e.user && t[x].asset == e.asset {
                assert(has_entry(s, e.user, e.asset));
            }
        }
    }
    lemma_entry_index_unique(t, e.user, e.asset, l);
    assert forall|u2: u32, a2: u32| #[trigger] avail_of(t, u2, a2) == avail_of(s, u2, a2)
        && #[trigger] frozen_of(t, u2, a2) == frozen_of(s, u2, a2) by {
        if has_entry(s, u2, a2) {
            let j = entry_index(s, u2, a2);
            assert(0 <= j < s.len() && s[j].user == u2 && s[j].asset == a2);
            lemma_entry_index_unique(t, u2, a2, j);
        } else {
            if has_entry(t, u2, a2) {
                let j = entry_index(t, u2, a2);
                assert(0 <= j < t.len() && t[j].user == u2 && t[j].asset == a2);
                assert(j == l);
            }
        }
    }
}

/// The single-writer ledger.
pub struct BalanceManager {
    pub asset_manager: AssetManager,
    pub entries: Vec<BalanceEntry>,
}

impl BalanceManager {
    pub open spec fn wf(self) -> bool {
        &&& self.asset_manager.wf()
        &&& entries_wf(self.entries@)
        &&& forall|i: int|
            0 <= i < self.entries@.len() ==> #[trigger] self.entries@[i].asset
                < self.asset_manager.assets@.len()
    }

    /// An empty ledger over the given asset catalog.
    pub fn new(assets: Vec<Asset>) -> (r: Result<BalanceManager, EngineError>)
        ensures
            r is Ok <==> crate::asset::assets_wf(assets@),
            r is Ok ==> r->Ok_0.wf() && r->Ok_0.asset_manager.assets@ == assets@
                && r->Ok_0.entries@.len() == 0,
            r is Err ==> r == Err::<BalanceManager, EngineError>(EngineError::InvalidArgument),
    {
        match AssetManager::new(assets) {
            Ok(am) => Ok(BalanceManager { asset_manager: am, entries: Vec::new() }),
            Err(e) => Err(e),
        }
    }

    /// Index of the ledger cell of `(user, asset)`, if present.
    pub fn find_entry(&self, user: u32, asset: u32) -> (r: Option<usize>)
        ensures
            match r {
                Some(i) => i < self.entries@.len() && self.entries@[i as int].user == user
                    && self.entries@[i as int].asset == asset,
                None => !has_entry(self.entries@, user, asset),
            },
    {
        let n = self.entries.len();
        let mut i: usize = 0;
        while i < n
            invariant
                n == self.entries@.len(),
                i <= n,
                forall|j: int|
                    0 <= j < i ==> !(#[trigger] self.entries@[j].user == user
                        && self.entries@[j].asset == asset),
            decreases n - i,
        {
            if self.entries[i].user == user && self.entries[i].asset == asset {
                return Some(i);
            }
            i = i + 1;
        }
        None
    }

    /// The balance of one partition; zero when the cell does not exist.
    pub fn get(&self, user: u32, balance_type: BalanceType, asset: u32) -> (r: Decimal)
        requires
            self.wf(),
        ensures
            r.mantissa == balance_of(self.entries@, user, balance_type, asset),
            0 <= r.mantissa <= MAX_MANTISSA,
    {
        match self.find_entry(user, asset) {
            Some(i) => {
                proof {
                    lemma_entry_index_unique(self.entries@, user, asset, i as int);
                    assert(0 <= self.entries@[i as int].available.mantissa
                        && self.entries@[i as int].available.mantissa
                        + self.entries@[i as int].frozen.mantissa <= MAX_MANTISSA);
                }
                match balance_type {
                    BalanceType::AVAILABLE => self.entries[i].available,
                    BalanceType::FREEZE => self.entries[i].frozen,
                }
            },
            None => Decimal::zero(),
        }
    }

    /// The balance rounded to the asset's boundary precision.
    pub fn get_with_round(&self, user: u32, balance_type: BalanceType, asset: u32) -> (r: Decimal)
        requires
            self.wf(),
            asset < self.asset_manager.assets@.len(),
        ensures
            r.mantissa == round_half_at(
                balance_of(self.entries@, user, balance_type, asset),
                self.asset_manager.assets@[asset as int].prec_show as nat,
            ),
    {
        let b = self.get(user, balance_type, asset);
        b.round_dp(self.asset_manager.assets[asset as usize].prec_show)
    }

    /// Index of the cell of `(user, asset)`, created at zero if absent.
    /// No balance of any key changes.
    fn ensure_entry(&mut self, user: u32, asset: u32) -> (i: usize)
        requires
            old(self).wf(),
            asset < old(self).asset_manager.assets@.len(),
        ensures
            final(self).wf(),
            final(self).asset_manager == old(self).asset_manager,
            i < final(self).entries@.len(),
            final(self).entries@[i as int].user == user,
            final(self).entries@[i as int].asset == asset,
            entry_index(final(self).entries@, user, asset) == i,
            has_entry(final(self).entries@, user, asset),
            forall|u2: u32, a2: u32|
                #[trigger] avail_of(final(self).entries@, u2, a2) == avail_of(
                    old(self).entries@,
                    u2,
                    a2,
                ),
            forall|u2: u32, a2: u32|
                #[trigger] frozen_of(final(self).entries@, u2, a2) == frozen_of(
                    old(self).entries@,
                    u2,
                    a2,
                ),
    {
        match self.find_entry(user, asset) {
            Some(i) => {
                proof {
                    lemma_entry_index_unique(self.entries@, user, asset, i as int);
                }
                i
            },
            None => {
                let e = BalanceEntry {
                    user,
                    asset,
                    available: Decimal::zero(),
                    frozen: Decimal::zero(),
                };
                let ghost pre = self.entries@;
                proof {
                    lemma_push_zero_entry(pre, e);
                }
                let i = self.entries.len();
                self.entries.push(e);
                proof {
                    let l = pre.len() as int;
                    assert forall|j: int|
                        0 <= j < self.entries@.len() implies 0 <= #[trigger] self.entries@[j].available.mantissa
                        && 0 <= self.entries@[j].frozen.mantissa
                        && self.entries@[j].available.mantissa + self.entries@[j].frozen.mantissa
                        <= MAX_MANTISSA by {
                        if j < l {
                            assert(self.entries@[j] == pre[j]);
                            assert(0 <= pre[j].available.mantissa && pre[j].available.mantissa
                                + pre[j].frozen.mantissa <= MAX_MANTISSA);
                        } else {
                            assert(self.entries@[j] == e);
                        }
                    }
                    assert forall|j: int|
                        0 <= j < self.entries@.len() implies #[trigger] self.entries@[j].asset
                        < self.asset_manager.assets@.len() by {
                        if j < l {
                            assert(self.entries@[j] == pre[j]);
                            assert(pre[j].asset < self.asset_manager.assets@.len());
                        } else {
                            assert(self.entries@[j] == e);
                        }
                    }
                }
                i
            },
        }
    }

    /// Rounds `delta` to the asset's ledger precision and adds it to one
    /// partition; fails with `Internal` when the cell would leave the
    /// decimal bound, touching nothing.  Returns the new balance.
    pub fn add(&mut self, user: u32, balance_type: BalanceType, asset: u32, delta: &Decimal) -> (r:
        Result<Decimal, EngineError>)
        requires
            old(self).wf(),
            asset < old(self).asset_manager.assets@.len(),
            0 <= delta.mantissa <= MAX_MANTISSA,
        ensures
            final(self).wf(),
            final(self).asset_manager == old(self).asset_manager,
            ({
                let rd = round_half_at(
                    delta.mantissa as int,
                    old(self).asset_manager.assets@[asset as int].prec_save as nat,
                );
                &&& (r is Err <==> avail_of(old(self).entries@, user, asset) + frozen_of(
                    old(self).entries@,
                    user,
                    asset,
                ) + rd > MAX_MANTISSA)
                &&& (r is Err ==> final(self).entries@ == old(self).entries@ && r == Err::<
                    Decimal,
                    EngineError,
                >(EngineError::Internal))
                &&& (r is Ok ==> balance_of(final(self).entries@, user, balance_type, asset)
                    == balance_of(old(self).entries@, user, balance_type, asset) + rd)
                &&& (r is Ok ==> r->Ok_0.mantissa == balance_of(
                    final(self).entries@,
                    user,
                    balance_type,
                    asset,
                ))
                &&& (r is Ok ==> balance_of(
                    final(self).entries@,
                    user,
                    other_partition(balance_type),
                    asset,
                ) == balance_of(old(self).entries@, user, other_partition(balance_type), asset))
            }),
            forall|u2: u32, a2: u32|
                !(u2 == user && a2 == asset) ==> #[trigger] avail_of(final(self).entries@, u2, a2)
                    == avail_of(old(self).entries@, u2, a2),
            forall|u2: u32, a2: u32|
                !(u2 == user && a2 == asset) ==> #[trigger] frozen_of(final(self).entries@, u2, a2)
                    == frozen_of(old(self).entries@, u2, a2),
    {
        let prec = self.asset_manager.assets[asset as usize].prec_save;
        let rd = delta.round_dp(prec);
        proof {
            lemma_round_nonneg(delta.mantissa as int, prec as nat);
        }
        let av = self.get(user, BalanceType::AVAILABLE, asset);
        let fr = self.get(user, BalanceType::FREEZE, asset);
        if av.mantissa + fr.mantissa + rd.mantissa > MAX_MANTISSA {
            return Err(EngineError::Internal);
        }
        let i = self.ensure_entry(user, asset);
        let ghost pre = self.entries@;
        let cur = self.entries[i];
        proof {
            assert(avail_of(pre, user, asset) == cur.available.mantissa);
            assert(frozen_of(pre, user, asset) == cur.frozen.mantissa);
        }
        let e = match balance_type {
            BalanceType::AVAILABLE => (BalanceEntry {
                available: Decimal { mantissa: cur.available.mantissa + rd.mantissa },
                ..cur
            }),
            BalanceType::FREEZE => (BalanceEntry {
                frozen: Decimal { mantissa: cur.frozen.mantissa + rd.mantissa },
                ..cur
            }),
        };
        self.entries[i] = e;
        proof {
            lemma_update_entry(pre, i as int, e);
            assert(self.entries@ == pre.update(i as int, e));
            lemma_wf_after_update(pre, i as int, e, old(self).asset_manager);
        }
        match balance_type {
            BalanceType::AVAILABLE => Ok(e.available),
            BalanceType::FREEZE => Ok(e.frozen),
        }
    }

    /// Rounds `delta` to the asset's ledger precision and subtracts it
    /// from one partition; fails with `InsufficientBalance` when the
    /// partition holds less, touching nothing.  Returns the new balance.
    pub fn sub(&mut self, user: u32, balance_type: BalanceType, asset: u32, delta: &Decimal) -> (r:
        Result<Decimal, EngineError>)
        requires
            old(self).wf(),
            asset < old(self).asset_manager.assets@.len(),
            0 <= delta.mantissa <= MAX_MANTISSA,
        ensures
            final(self).wf(),
            final(self).asset_manager == old(self).asset_manager,
            ({
                let rd = round_half_at(
                    delta.mantissa as int,
                    old(self).asset_manager.assets@[asset as int].prec_save as nat,
                );
                &&& (r is Err <==> balance_of(old(self).entries@, user, balance_type, asset) < rd)
                &&& (r is Err ==> final(self).entries@ == old(self).entries@ && r == Err::<
                    Decimal,
                    EngineError,
                >(EngineError::InsufficientBalance))
                &&& (r is Ok ==> balance_of(final(self).entries@, user, balance_type, asset)
                    == balance_of(old(self).entries@, user, balance_type, asset) - rd)
                &&& (r is Ok ==> r->Ok_0.mantissa == balance_of(
                    final(self).entries@,
                    user,
                    balance_type,
                    asset,
                ))
                &&& (r is Ok ==> balance_of(
                    final(self).entries@,
                    user,
                    other_partition(balance_type),
                    asset,
                ) == balance_of(old(self).entries@, user, other_partition(balance_type), asset))
            }),
            forall|u2: u32, a2: u32|
                !(u2 == user && a2 == asset) ==> #[trigger] avail_of(final(self).entries@, u2, a2)
                    == avail_of(old(self).entries@, u2, a2),
            forall|u2: u32, a2: u32|
                !(u2 == user && a2 == asset) ==> #[trigger] frozen_of(final(self).entries@, u2, a2)
                    == frozen_of(old(self).entries@, u2, a2),
    {
        let prec = self.asset_manager.assets[asset as usize].prec_save;
        let rd = delta.round_dp(prec);
        proof {
            lemma_round_nonneg(delta.mantissa as int, prec as nat);
        }
        let bal = self.get(user, balance_type, asset);
        if bal.mantissa < rd.mantissa {
            return Err(EngineError::InsufficientBalance);
        }
        let i = self.ensure_entry(user, asset);
        let ghost pre = self.entries@;
        let cur = self.entries[i];
        proof {
            assert(avail_of(pre, user, asset) == cur.available.mantissa);
            assert(frozen_of(pre, user, asset) == cur.frozen.mantissa);
        }
        let e = match balance_type {
            BalanceType::AVAILABLE => (BalanceEntry {
                available: Decimal { mantissa: cur.available.mantissa - rd.mantissa },
                ..cur
            }),
            BalanceType::FREEZE => (BalanceEntry {
                frozen: Decimal { mantissa: cur.frozen.mantissa - rd.mantissa },
                ..cur
            }),
        };
        self.entries[i] = e;
        proof {
            lemma_update_entry(pre, i as int, e);
            assert(self.entries@ == pre.update(i as int, e));
            lemma_wf_after_update(pre, i as int, e, old(self).asset_manager);
        }
        match balance_type {
            BalanceType::AVAILABLE => Ok(e.available),
            BalanceType::FREEZE => Ok(e.frozen),
        }
    }

    /// Moves `delta` of `(user, asset)` from AVAILABLE to FROZEN in one
    /// step; fails with `InsufficientBalance` when less is available,
    /// touching nothing.
    pub fn freeze(&mut self, user: u32, asset: u32, delta: &Decimal) -> (r: Result<
        (),
        EngineError,
    >)
        requires
            old(self).wf(),
            asset < old(self).asset_manager.assets@.len(),
            0 <= delta.mantissa <= MAX_MANTISSA,
        ensures
            final(self).wf(),
            final(self).asset_manager == old(self).asset_manager,
            r is Err <==> avail_of(old(self).entries@, user, asset) < delta.mantissa,
            r is Err ==> final(self).entries@ == old(self).entries@ && r == Err::<
                (),
                EngineError,
            >(EngineError::InsufficientBalance),
            r is Ok ==> avail_of(final(self).entries@, user, asset) == avail_of(
                old(self).entries@,
                user,
                asset,
            ) - delta.mantissa,
            r is Ok ==> frozen_of(final(self).entries@, user, asset) == frozen_of(
                old(self).entries@,
                user,
                asset,
            ) + delta.mantissa,
            forall|u2: u32, a2: u32|
                !(u2 == user && a2 == asset) ==> #[trigger] avail_of(final(self).entries@, u2, a2)
                    == avail_of(old(self).entries@, u2, a2),
            forall|u2: u32, a2: u32|
                !(u2 == user && a2 == asset) ==> #[trigger] frozen_of(final(self).entries@, u2, a2)
                    == frozen_of(old(self).entries@, u2, a2),
    {
        let av = self.get(user, BalanceType::AVAILABLE, asset);
        if av.mantissa < delta.mantissa {
            return Err(EngineError::InsufficientBalance);
        }
        let i = self.ensure_entry(user, asset);
        let ghost pre = self.entries@;
        let cur = self.entries[i];
        proof {
            assert(avail_of(pre, user, asset) == cur.available.mantissa);
            assert(frozen_of(pre, user, asset) == cur.frozen.mantissa);
        }
        let e = BalanceEntry {
            available: Decimal { mantissa: cur.available.mantissa - delta.mantissa },
            frozen: Decimal { mantissa: cur.frozen.mantissa + delta.mantissa },
            ..cur
        };
        self.entries[i] = e;
        proof {
            lemma_update_entry(pre, i as int, e);
            assert(self.entries@ == pre.update(i as int, e));
            lemma_wf_after_update(pre, i as int, e, old(self).asset_manager);
        }
        Ok(())
    }

    /// Moves `delta` of `(user, asset)` from FROZEN back to AVAILABLE in
    /// one step; fails with `InsufficientBalance` when less is frozen,
    /// touching nothing.
    pub fn unfreeze(&mut self, user: u32, asset: u32, delta: &Decimal) -> (r: Result<
        (),
        EngineError,
    >)
        requires
            old(self).wf(),
            asset < old(self).asset_manager.assets@.len(),
            0 <= delta.mantissa <= MAX_MANTISSA,
        ensures
            final(self).wf(),
            final(self).asset_manager == old(self).asset_manager,
            r is Err <==> frozen_of(old(self).entries@, user, asset) < delta.mantissa,
            r is Err ==> final(self).entries@ == old(self).entries@ && r == Err::<
                (),
                EngineError,
            >(EngineError::InsufficientBalance),
            r is Ok ==> avail_of(final(self).entries@, user, asset) == avail_of(
                old(self).entries@,
                user,
                asset,
            ) + delta.mantissa,
            r is Ok ==> frozen_of(final(self).entries@, user, asset) == frozen_of(
                old(self).entries@,
                user,
                asset,
            ) - delta.mantissa,
            forall|u2: u32, a2: u32|
                !(u2 == user && a2 == asset) ==> #[trigger] avail_of(final(self).entries@, u2, a2)
                    == avail_of(old(self).entries@, u2, a2),
            forall|u2: u32, a2: u32|
                !(u2 == user && a2 == asset) ==> #[trigger] frozen_of(final(self).entries@, u2, a2)
                    == frozen_of(old(self).entries@, u2, a2),
    {
        let fr = self.get(user, BalanceType::FREEZE, asset);
        if fr.mantissa < delta.mantissa {
            return Err(EngineError::InsufficientBalance);
        }
        let i = self.ensure_entry(user, asset);
        let ghost pre = self.entries@;
        let cur = self.entries[i];
        proof {
            assert(avail_of(pre, user, asset) == cur.available.mantissa);
            assert(frozen_of(pre, user, asset) == cur.frozen.mantissa);
        }
        let e = BalanceEntry {
            available: Decimal { mantissa: cur.available.mantissa + delta.mantissa },
            frozen: Decimal { mantissa: cur.frozen.mantissa - delta.mantissa },
            ..cur
        };
        self.entries[i] = e;
        proof {
            lemma_update_entry(pre, i as int, e);
            assert(self.entries@ == pre.update(i as int, e));
            lemma_wf_after_update(pre, i as int, e, old(self).asset_manager);
        }
        Ok(())
    }


    /// Settlement primitive: takes `delta` from one partition of `from`
    /// and credits `delta - fee` to AVAILABLE of `to` (the difference is
    /// the fee withheld).  `from` and `to` may be the same user.  Fails
    /// with `InsufficientBalance` when the payer partition holds less
    /// than `delta`, with `Internal` when the payee cell would leave the
    /// decimal bound; either way nothing changes.
    pub fn transfer_with_fee(
        &mut self,
        from: u32,
        from_type: BalanceType,
        to: u32,
        asset: u32,
        delta: &Decimal,
        fee: &Decimal,
    ) -> (r: Result<(), EngineError>)
        requires
            old(self).wf(),
            asset < old(self).asset_manager.assets@.len(),
            0 <= fee.mantissa <= delta.mantissa <= MAX_MANTISSA,
        ensures
            final(self).wf(),
            final(self).asset_manager == old(self).asset_manager,
            r == Err::<(), EngineError>(EngineError::InsufficientBalance) <==> balance_of(
                old(self).entries@,
                from,
                from_type,
                asset,
            ) < delta.mantissa,
            r is Err ==> final(self).entries@ == old(self).entries@ && (r == Err::<
                (),
                EngineError,
            >(EngineError::InsufficientBalance) || r == Err::<(), EngineError>(
                EngineError::Internal,
            )),
            r == Err::<(), EngineError>(EngineError::Internal) <==> (balance_of(
                old(self).entries@,
                from,
                from_type,
                asset,
            ) >= delta.mantissa && avail_of(old(self).entries@, to, asset) + frozen_of(
                old(self).entries@,
                to,
                asset,
            ) - (if to == from {
                delta.mantissa as int
            } else {
                0
            }) + (delta.mantissa - fee.mantissa) > MAX_MANTISSA),
            r is Ok ==> forall|u2: u32, bt2: BalanceType, a2: u32|
                #[trigger] balance_of(final(self).entries@, u2, bt2, a2) == balance_of(
                    old(self).entries@,
                    u2,
                    bt2,
                    a2,
                ) - (if u2 == from && bt2 == from_type && a2 == asset {
                    delta.mantissa as int
                } else {
                    0
                }) + (if u2 == to && bt2 == BalanceType::AVAILABLE && a2 == asset {
                    delta.mantissa - fee.mantissa
                } else {
                    0
                }),
    {
        let bal = self.get(from, from_type, asset);
        if bal.mantissa < delta.mantissa {
            return Err(EngineError::InsufficientBalance);
        }
        let net: i128 = delta.mantissa - fee.mantissa;
        let to_av = self.get(to, BalanceType::AVAILABLE, asset);
        let to_fr = self.get(to, BalanceType::FREEZE, asset);
        let alias_sub: i128 = if to == from {
            delta.mantissa
        } else {
            0
        };
        if to_av.mantissa + to_fr.mantissa - alias_sub + net > MAX_MANTISSA {
            return Err(EngineError::Internal);
        }
        let i = self.ensure_entry(from, asset);
        let ghost pre = self.entries@;
        let cur = self.entries[i];
        proof {
            assert(avail_of(pre, from, asset) == cur.available.mantissa);
            assert(frozen_of(pre, from, asset) == cur.frozen.mantissa);
        }
        let e = match from_type {
            BalanceType::AVAILABLE => (BalanceEntry {
                available: Decimal { mantissa: cur.available.mantissa - delta.mantissa },
                ..cur
            }),
            BalanceType::FREEZE => (BalanceEntry {
                frozen: Decimal { mantissa: cur.frozen.mantissa - delta.mantissa },
                ..cur
            }),
        };
        self.entries[i] = e;
        proof {
            lemma_update_entry(pre, i as int, e);
            assert(self.entries@ == pre.update(i as int, e));
            lemma_wf_after_update(pre, i as int, e, old(self).asset_manager);
        }
        let ghost mid = self.entries@;
        let j = self.ensure_entry(to, asset);
        let ghost pre2 = self.entries@;
        let cur2 = self.entries[j];
        proof {
            assert(avail_of(pre2, to, asset) == cur2.available.mantissa);
            assert(frozen_of(pre2, to, asset) == cur2.frozen.mantissa);
        }
        let e2 = BalanceEntry {
            available: Decimal { mantissa: cur2.available.mantissa + net },
            ..cur2
        };
        self.entries[j] = e2;
        proof {
            lemma_update_entry(pre2, j as int, e2);
            assert(self.entries@ == pre2.update(j as int, e2));
            lemma_wf_after_update(pre2, j as int, e2, old(self).asset_manager);
            assert forall|u2: u32, bt2: BalanceType, a2: u32|
                #[trigger] balance_of(self.entries@, u2, bt2, a2) == balance_of(
                    old(self).entries@,
                    u2,
                    bt2,
                    a2,
                ) - (if u2 == from && bt2 == from_type && a2 == asset {
                    delta.mantissa as int
                } else {
                    0
                }) + (if u2 == to && bt2 == BalanceType::AVAILABLE && a2 == asset {
                    delta.mantissa - fee.mantissa
                } else {
                    0
                }) by {
                assert(avail_of(mid, u2, a2) == avail_of(pre2, u2, a2));
                assert(frozen_of(mid, u2, a2) == frozen_of(pre2, u2, a2));
                assert(avail_of(pre, u2, a2) == avail_of(old(self).entries@, u2, a2));
                assert(frozen_of(pre, u2, a2) == frozen_of(old(self).entries@, u2, a2));
                if u2 == to && a2 == asset {
                    assert(avail_of(self.entries@, u2, a2) == e2.available.mantissa);
                    assert(frozen_of(self.entries@, u2, a2) == e2.frozen.mantissa);
                } else {
                    assert(avail_of(self.entries@, u2, a2) == avail_of(pre2, u2, a2));
                    assert(frozen_of(self.entries@, u2, a2) == frozen_of(pre2, u2, a2));
                }
                if u2 == from && a2 == asset {
                    assert(avail_of(mid, u2, a2) == e.available.mantissa);
                    assert(frozen_of(mid, u2, a2) == e.frozen.mantissa);
                } else {
                    assert(avail_of(mid, u2, a2) == avail_of(pre, u2, a2));
                    assert(frozen_of(mid, u2, a2) == frozen_of(pre, u2, a2));
                }
            }
        }
        Ok(())
    }


    /// Replaces the ledger's cells with validated rows: keys pairwise
    /// distinct, both partitions nonnegative and jointly bounded, every
    /// asset registered.  On rejection the ledger is untouched.
    pub fn restore_entries(&mut self, entries: Vec<BalanceEntry>) -> (r: Result<(), EngineError>)
        requires
            old(self).wf(),
        ensures
            final(self).wf(),
            final(self).asset_manager == old(self).asset_manager,
            r is Ok ==> final(self).entries@ == entries@,
            r is Err ==> final(self).entries@ == old(self).entries@ && r == Err::<
                (),
                EngineError,
            >(EngineError::InvalidArgument),
    {
        let n = entries.len();
        let mut i: usize = 0;
        while i < n
            invariant
                n == entries@.len(),
                i <= n,
                self == old(self),
                old(self).wf(),
                forall|x: int, y: int|
                    0 <= x < y < i ==> !(entries@[x].user == entries@[y].user && entries@[x].asset
                        == entries@[y].asset),
                forall|x: int|
                    0 <= x < i ==> 0 <= #[trigger] entries@[x].available.mantissa && 0
                        <= entries@[x].frozen.mantissa && entries@[x].available.mantissa
                        + entries@[x].frozen.mantissa <= MAX_MANTISSA,
                forall|x: int|
                    0 <= x < i ==> #[trigger] entries@[x].asset
                        < self.asset_manager.assets@.len(),
            decreases n - i,
        {
            if entries[i].available.mantissa < 0 || entries[i].frozen.mantissa < 0
                || entries[i].available.mantissa > MAX_MANTISSA - entries[i].frozen.mantissa {
                return Err(EngineError::InvalidArgument);
            }
            if entries[i].asset as usize >= self.asset_manager.assets.len() {
                return Err(EngineError::InvalidArgument);
            }
            let mut j: usize = 0;
            while j < i
                invariant
                    i < n,
                    n == entries@.len(),
                    j <= i,
                    self == old(self),
                    old(self).wf(),
                    forall|y: int|
                        0 <= y < j ==> !(entries@[y].user == entries@[i as int].user
                            && entries@[y].asset == entries@[i as int].asset),
                decreases i - j,
            {
                if entries[j].user == entries[i].user && entries[j].asset == entries[i].asset {
                    return Err(EngineError::InvalidArgument);
                }
                j = j + 1;
            }
            i = i + 1;
        }
        self.entries = entries;
        Ok(())
    }

    /// Forgets every balance.
    pub fn reset(&mut self)
        ensures
            final(self).asset_manager == old(self).asset_manager,
            final(self).entries@.len() == 0,
            old(self).wf() ==> final(self).wf(),
    {
        self.entries.clear();
    }
}

/// A ledger stays well formed when one cell changes key-preservingly and
/// its new balances respect the bounds.
proof fn lemma_wf_after_update(
    pre: Seq<BalanceEntry>,
    i: int,
    e: BalanceEntry,
    am: AssetManager,
)
    requires
        entries_wf(pre),
        0 <= i < pre.len(),
        e.user == pre[i].user,
        e.asset == pre[i].asset,
        0 <= e.available.mantissa,
        0 <= e.frozen.mantissa,
        e.available.mantissa + e.frozen.mantissa <= MAX_MANTISSA,
        forall|j: int| 0 <= j < pre.len() ==> #[trigger] pre[j].asset < am.assets@.len(),
    ensures
        entries_wf(pre.update(i, e)),
        forall|j: int|
            0 <= j < pre.update(i, e).len() ==> #[trigger] pre.update(i, e)[j].asset
                < am.assets@.len(),
{
    let t = pre.update(i, e);
    lemma_update_entry(pre, i, e);
    assert forall|j: int|
        0 <= j < t.len() implies 0 <= #[trigger] t[j].available.mantissa && 0
        <= t[j].frozen.mantissa && t[j].available.mantissa + t[j].frozen.mantissa
        <= MAX_MANTISSA by {
        if j != i {
            assert(t[j] == pre[j]);
            assert(0 <= pre[j].available.mantissa && pre[j].available.mantissa
                + pre[j].frozen.mantissa <= MAX_MANTISSA);
        }
    }
    assert forall|j: int| 0 <= j < t.len() implies #[trigger] t[j].asset < am.assets@.len() by {
        if j != i {
            assert(t[j] == pre[j]);
            assert(pre[j].asset < am.assets@.len());
        } else {
            assert(pre[i].asset < am.assets@.len());
        }
    }
}

/// The partition a balance move does not touch.
pub open spec fn other_partition(bt: BalanceType) -> BalanceType {
    match bt {
        BalanceType::AVAILABLE => BalanceType::FREEZE,
        BalanceType::FREEZE => BalanceType::AVAILABLE,
    }
}

} // verus!
