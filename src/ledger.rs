//! The drip ledger: a balance per (account, source) slot and a total supply
//! that always equals the sum of all slot balances.

use crate::error::DripError;
use vstd::prelude::*;

verus! {

/// The key of a ledger slot: an account and, optionally, a source. The `None`
/// source is the account's general slot, attributed to no source.
pub type SlotKey = (Seq<char>, Option<Seq<char>>);

pub open spec fn source_view(o: Option<String>) -> Option<Seq<char>> {
    match o {
        Some(s) => Some(s@),
        None => None,
    }
}

/// What a ledger holds, as mathematics.
pub struct LedgerModel {
    /// The accounts that have been registered.
    pub registered: Set<Seq<char>>,
    /// The balance of every slot that exists.
    pub balances: Map<SlotKey, nat>,
    /// The running total of all balances.
    pub total_supply: nat,
    /// Storage, in bytes, that one account's entry takes.
    pub account_storage_usage: nat,
}

impl LedgerModel {
    /// The balance of a slot; zero where the slot does not exist.
    pub open spec fn balance(self, k: SlotKey) -> nat {
        if self.balances.contains_key(k) {
            self.balances[k]
        } else {
            0
        }
    }

    /// The ledger after `amount` is credited to slot `k`.
    pub open spec fn deposited(self, k: SlotKey, amount: nat) -> LedgerModel {
        LedgerModel {
            balances: self.balances.insert(k, self.balance(k) + amount),
            total_supply: self.total_supply + amount,
            ..self
        }
    }

    /// The ledger after `amount` is debited from slot `k`; a slot that does
    /// not exist is left absent.
    pub open spec fn withdrawn(self, k: SlotKey, amount: nat) -> LedgerModel {
        LedgerModel {
            balances: if self.balances.contains_key(k) {
                self.balances.insert(k, (self.balance(k) - amount) as nat)
            } else {
                self.balances
            },
            total_supply: (self.total_supply - amount) as nat,
            ..self
        }
    }
}

/// One slot of the ledger.
pub struct Slot {
    pub account_id: String,
    pub contract_id: Option<String>,
    pub balance: u128,
}

impl Slot {
    pub open spec fn key(self) -> SlotKey {
        (self.account_id@, source_view(self.contract_id))
    }
}

pub open spec fn slots_map(s: Seq<Slot>) -> Map<SlotKey, nat>
    decreases s.len(),
{
    if s.len() == 0 {
        Map::empty()
    } else {
        slots_map(s.drop_last()).insert(s.last().key(), s.last().balance as nat)
    }
}

pub open spec fn slots_sum(s: Seq<Slot>) -> nat
    decreases s.len(),
{
    if s.len() == 0 {
        0
    } else {
        slots_sum(s.drop_last()) + s.last().balance as nat
    }
}

pub open spec fn keys_unique(s: Seq<Slot>) -> bool {
    forall|i: int, j: int| 0 <= i < j < s.len() ==> s[i].key() != s[j].key()
}

proof fn lemma_slots_map_index(s: Seq<Slot>, i: int)
    requires
        keys_unique(s),
        0 <= i < s.len(),
    ensures
        slots_map(s).contains_key(s[i].key()),
        slots_map(s)[s[i].key()] == s[i].balance,
    decreases s.len(),
{
    if i < s.len() - 1 {
        lemma_slots_map_index(s.drop_last(), i);
    }
}

proof fn lemma_slots_map_absent(s: Seq<Slot>, k: SlotKey)
    requires
        forall|i: int| 0 <= i < s.len() ==> s[i].key() != k,
    ensures
        !slots_map(s).contains_key(k),
    decreases s.len(),
{
    if s.len() > 0 {
        lemma_slots_map_absent(s.drop_last(), k);
    }
}

proof fn lemma_slot_le_sum(s: Seq<Slot>, i: int)
    requires
        0 <= i < s.len(),
    ensures
        s[i].balance <= slots_sum(s),
    decreases s.len(),
{
    if i < s.len() - 1 {
        lemma_slot_le_sum(s.drop_last(), i);
    }
}

proof fn lemma_slots_update(s: Seq<Slot>, i: int, x: Slot)
    requires
        keys_unique(s),
        0 <= i < s.len(),
        x.key() == s[i].key(),
    ensures
        slots_map(s.update(i, x)) == slots_map(s).insert(x.key(), x.balance as nat),
        slots_sum(s.update(i, x)) + s[i].balance == slots_sum(s) + x.balance,
        keys_unique(s.update(i, x)),
    decreases s.len(),
{
    let t = s.update(i, x);
    if i == s.len() - 1 {
        assert(t.drop_last() =~= s.drop_last());
        assert(slots_map(t) =~= slots_map(s).insert(x.key(), x.balance as nat));
    } else {
        assert(t.drop_last() =~= s.drop_last().update(i, x));
        lemma_slots_update(s.drop_last(), i, x);
        assert(slots_map(t) =~= slots_map(s).insert(x.key(), x.balance as nat));
    }
}

/// The ledger. Slots are kept in a vector whose keys are unique; every slot
/// belongs to a registered account.
pub struct FungibleToken {
    registered: Vec<String>,
    slots: Vec<Slot>,
    total_supply: u128,
    account_storage_usage: u64,
}

impl View for FungibleToken {
    type V = LedgerModel;

    closed spec fn view(&self) -> LedgerModel {
        LedgerModel {
            registered: self.registered.deep_view().to_set(),
            balances: slots_map(self.slots@),
            total_supply: self.total_supply as nat,
            account_storage_usage: self.account_storage_usage as nat,
        }
    }
}

impl FungibleToken {
    /// The ledger's invariant: accounts registered once, slot keys unique,
    /// every slot owned by a registered account, and the total supply equal to
    /// the sum of all slot balances.
    pub closed spec fn wf(&self) -> bool {
        &&& self.registered.deep_view().no_duplicates()
        &&& keys_unique(self.slots@)
        &&& forall|i: int|
            0 <= i < self.slots@.len() ==> self.registered.deep_view().contains(
                #[trigger] self.slots@[i].account_id@,
            )
        &&& self.total_supply == slots_sum(self.slots@)
    }

    /// An empty ledger.
    pub fn new(account_storage_usage: u64) -> (r: Self)
        ensures
            r.wf(),
            r@.registered == Set::<Seq<char>>::empty(),
            r@.balances == Map::<SlotKey, nat>::empty(),
            r@.total_supply == 0,
            r@.account_storage_usage == account_storage_usage,
    {
        let r = FungibleToken {
            registered: Vec::new(),
            slots: Vec::new(),
            total_supply: 0,
            account_storage_usage,
        };
        assert(r.registered.deep_view().to_set() =~= Set::<Seq<char>>::empty());
        assert(slots_map(r.slots@) =~= Map::<SlotKey, nat>::empty());
        r
    }

    fn find_account(&self, account_id: &String) -> (r: Option<usize>)
        ensures
            match r {
                Some(i) => i < self.registered@.len() && self.registered@[i as int]@
                    == account_id@ && self.registered.deep_view().contains(account_id@),
                None => !self.registered.deep_view().contains(account_id@),
            },
    {
        let ghost d = self.registered.deep_view();
        let mut i: usize = 0;
        while i < self.registered.len()
            invariant
                i <= self.registered@.len(),
                d == self.registered.deep_view(),
                forall|j: int| 0 <= j < i ==> d[j] != account_id@,
            decreases self.registered@.len() - i,
        {
            if self.registered[i] == *account_id {
                assert(d[i as int] == account_id@);
                return Some(i);
            }
            i = i + 1;
        }
        None
    }

    fn find_slot(&self, account_id: &String, contract_id: &Option<String>) -> (r: Option<usize>)
        ensures
            match r {
                Some(i) => i < self.slots@.len() && self.slots@[i as int].key() == (
                    account_id@,
                    source_view(*contract_id),
                ),
                None => forall|j: int|
                    0 <= j < self.slots@.len() ==> #[trigger] self.slots@[j].key() != (
                        account_id@,
                        source_view(*contract_id),
                    ),
            },
    {
        let mut i: usize = 0;
        while i < self.slots.len()
            invariant
                i <= self.slots@.len(),
                forall|j: int|
                    0 <= j < i ==> #[trigger] self.slots@[j].key() != (
                        account_id@,
                        source_view(*contract_id),
                    ),
            decreases self.slots@.len() - i,
        {
            let slot = &self.slots[i];
            if slot.account_id == *account_id && same_source(&slot.contract_id, contract_id) {
                return Some(i);
            }
            i = i + 1;
        }
        None
    }

    /// Whether the account has been registered.
    pub fn is_registered(&self, account_id: &String) -> (r: bool)
        ensures
            r == self@.registered.contains(account_id@),
    {
        self.find_account(account_id).is_some()
    }

    /// Whether the account has a slot for the source.
    pub fn has_slot(&self, account_id: &String, contract_id: &Option<String>) -> (r: bool)
        requires
            self.wf(),
        ensures
            r == self@.balances.contains_key((account_id@, source_view(*contract_id))),
    {
        match self.find_slot(account_id, contract_id) {
            Some(i) => {
                proof {
                    lemma_slots_map_index(self.slots@, i as int);
                }
                true
            },
            None => {
                proof {
                    lemma_slots_map_absent(self.slots@, (account_id@, source_view(*contract_id)));
                }
                false
            },
        }
    }

    /// Creates the (empty) entry of an account.
    pub fn internal_register_account(&mut self, account_id: &String) -> (r: Result<(), DripError>)
        requires
            old(self).wf(),
        ensures
            final(self).wf(),
            r is Err <==> old(self)@.registered.contains(account_id@),
            match r {
                Ok(()) => final(self)@ == (LedgerModel {
                    registered: old(self)@.registered.insert(account_id@),
                    ..old(self)@
                }),
                Err(e) => e == DripError::AlreadyRegistered && final(self)@ == old(self)@,
            },
            r is Ok ==> forall|s: Option<Seq<char>>|
                !(#[trigger] final(self)@.balances.contains_key((account_id@, s))),
    {
        proof {
            if !self@.registered.contains(account_id@) {
                assert forall|s: Option<Seq<char>>|
                    !(#[trigger] self@.balances.contains_key((account_id@, s))) by {
                    lemma_unregistered_has_no_slot(self, account_id@, s);
                }
            }
        }
        if self.find_account(account_id).is_some() {
            return Err(DripError::AlreadyRegistered);
        }
        let ghost old_d = self.registered.deep_view();
        self.registered.push(account_id.clone());
        proof {
            let d = self.registered.deep_view();
            assert(d =~= old_d.push(account_id@));
            assert forall|x: Seq<char>| d.contains(x) <==> (old_d.contains(x) || x == account_id@) by {
                if d.contains(x) {
                    let k = choose|k: int| 0 <= k < d.len() && d[k] == x;
                    if k < old_d.len() {
                        assert(old_d[k] == x);
                    }
                }
                if old_d.contains(x) {
                    let k = choose|k: int| 0 <= k < old_d.len() && old_d[k] == x;
                    assert(d[k] == x);
                }
                if x == account_id@ {
                    assert(d[old_d.len() as int] == x);
                }
            }
            assert(d.to_set() =~= old_d.to_set().insert(account_id@));
            assert forall|i: int, j: int| 0 <= i < j < d.len() implies d[i] != d[j] by {}
            assert forall|i: int| 0 <= i < self.slots@.len() implies d.contains(
                #[trigger] self.slots@[i].account_id@,
            ) by {
                assert(old_d.contains(old(self).slots@[i].account_id@));
            }
        }
        Ok(())
    }

    /// Credits `amount` to a slot of a registered account, creating the slot
    /// where it does not exist yet. The slot and the total supply change
    /// together or not at all.
    pub fn internal_deposit(&mut self, account_id: &String, amount: u128, contract_id: &Option<String>) -> (r: Result<(), DripError>)
        requires
            old(self).wf(),
        ensures
            final(self).wf(),
            ({
                let k = (account_id@, source_view(*contract_id));
                let m = old(self)@;
                &&& (r == Err::<(), DripError>(DripError::NotRegistered)) <==> !m.registered.contains(k.0)
                &&& (r == Err::<(), DripError>(DripError::BalanceOverflow)) <==> (m.registered.contains(k.0)
                    && m.balance(k) + amount > u128::MAX)
                &&& (r == Err::<(), DripError>(DripError::SupplyOverflow)) <==> (m.registered.contains(k.0)
                    && m.balance(k) + amount <= u128::MAX && m.total_supply + amount > u128::MAX)
                &&& r is Ok <==> (m.registered.contains(k.0) && m.balance(k) + amount <= u128::MAX
                    && m.total_supply + amount <= u128::MAX)
                &&& r is Err ==> final(self)@ == m
                &&& r is Ok ==> final(self)@ == m.deposited(k, amount as nat)
            }),
    {
        if self.find_account(account_id).is_none() {
            return Err(DripError::NotRegistered);
        }
        let ghost k = (account_id@, source_view(*contract_id));
        let ghost old_slots = self.slots@;
        match self.find_slot(account_id, contract_id) {
            Some(i) => {
                proof {
                    lemma_slots_map_index(old_slots, i as int);
                }
                let balance = self.slots[i].balance;
                if balance > u128::MAX - amount {
                    return Err(DripError::BalanceOverflow);
                }
                if self.total_supply > u128::MAX - amount {
                    return Err(DripError::SupplyOverflow);
                }
                let slot = Slot {
                    account_id: self.slots[i].account_id.clone(),
                    contract_id: clone_source(&self.slots[i].contract_id),
                    balance: balance + amount,
                };
                proof {
                    lemma_slots_update(old_slots, i as int, slot);
                }
                self.slots.set(i, slot);
                self.total_supply = self.total_supply + amount;
                proof {
                    assert(self.slots@ == old_slots.update(i as int, slot));
                    assert forall|j: int| 0 <= j < self.slots@.len() implies self.registered.deep_view().contains(
                        #[trigger] self.slots@[j].account_id@,
                    ) by {
                        if j != i {
                            assert(self.slots@[j] == old_slots[j]);
                        }
                    }
                }
                Ok(())
            },
            None => {
                proof {
                    lemma_slots_map_absent(old_slots, k);
                }
                if self.total_supply > u128::MAX - amount {
                    return Err(DripError::SupplyOverflow);
                }
                let slot = Slot {
                    account_id: account_id.clone(),
                    contract_id: clone_source(contract_id),
                    balance: amount,
                };
                self.slots.push(slot);
                self.total_supply = self.total_supply + amount;
                proof {
                    let s = self.slots@;
                    assert(s.drop_last() =~= old_slots);
                    assert forall|a: int, b: int| 0 <= a < b < s.len() implies s[a].key() != s[b].key() by {
                        if b == s.len() - 1 {
                            assert(s[a] == old_slots[a]);
                        } else {
                            assert(s[a] == old_slots[a] && s[b] == old_slots[b]);
                        }
                    }
                    assert forall|j: int| 0 <= j < s.len() implies self.registered.deep_view().contains(
                        #[trigger] s[j].account_id@,
                    ) by {
                        if j < s.len() - 1 {
                            assert(s[j] == old_slots[j]);
                        }
                    }
                }
                Ok(())
            },
        }
    }

    /// Debits `amount` from a slot of a registered account. A slot that does
    /// not exist holds zero. The slot and the total supply change together or
    /// not at all.
    pub fn internal_withdraw(&mut self, account_id: &String, amount: u128, contract_id: &Option<String>) -> (r: Result<(), DripError>)
        requires
            old(self).wf(),
        ensures
            final(self).wf(),
            ({
                let k = (account_id@, source_view(*contract_id));
                let m = old(self)@;
                &&& (r == Err::<(), DripError>(DripError::NotRegistered)) <==> !m.registered.contains(k.0)
                &&& (r == Err::<(), DripError>(DripError::InsufficientBalance)) <==> (m.registered.contains(k.0)
                    && m.balance(k) < amount)
                &&& r is Ok <==> (m.registered.contains(k.0) && m.balance(k) >= amount)
                &&& r is Err ==> final(self)@ == m
                &&& r is Ok ==> m.total_supply >= amount && final(self)@ == m.withdrawn(k, amount as nat)
            }),
    {
        if self.find_account(account_id).is_none() {
            return Err(DripError::NotRegistered);
        }
        let ghost k = (account_id@, source_view(*contract_id));
        let ghost old_slots = self.slots@;
        match self.find_slot(account_id, contract_id) {
            Some(i) => {
                proof {
                    lemma_slots_map_index(old_slots, i as int);
                    lemma_slot_le_sum(old_slots, i as int);
                }
                let balance = self.slots[i].balance;
                if balance < amount {
                    return Err(DripError::InsufficientBalance);
                }
                let slot = Slot {
                    account_id: self.slots[i].account_id.clone(),
                    contract_id: clone_source(&self.slots[i].contract_id),
                    balance: balance - amount,
                };
                proof {
                    lemma_slots_update(old_slots, i as int, slot);
                }
                self.slots.set(i, slot);
                self.total_supply = self.total_supply - amount;
                proof {
                    assert(self.slots@ == old_slots.update(i as int, slot));
                    assert forall|j: int| 0 <= j < self.slots@.len() implies self.registered.deep_view().contains(
                        #[trigger] self.slots@[j].account_id@,
                    ) by {
                        if j != i {
                            assert(self.slots@[j] == old_slots[j]);
                        }
                    }
                }
                Ok(())
            },
            None => {
                proof {
                    lemma_slots_map_absent(old_slots, k);
                }
                if amount > 0 {
                    return Err(DripError::InsufficientBalance);
                }
                Ok(())
            },
        }
    }

    /// Storage, in bytes, that one account's entry takes, as the host measured
    /// it when the ledger was created.
    pub fn account_storage_usage(&self) -> (r: u64)
        ensures
            r == self@.account_storage_usage,
    {
        self.account_storage_usage
    }

    /// The total supply.
    pub fn ft_total_supply(&self) -> (r: u128)
        ensures
            r == self@.total_supply,
    {
        self.total_supply
    }

    /// The balance of one slot of an account; zero for an account that is not
    /// registered or a slot that does not exist.
    pub fn ft_balance_by_contract(&self, account_id: &String, contract_id: &Option<String>) -> (r: u128)
        requires
            self.wf(),
        ensures
            r == self@.balance((account_id@, source_view(*contract_id))),
            !self@.registered.contains(account_id@) ==> r == 0,
    {
        proof {
            if !self@.registered.contains(account_id@) {
                lemma_unregistered_has_no_slot(self, account_id@, source_view(*contract_id));
            }
        }
        match self.find_slot(account_id, contract_id) {
            Some(i) => {
                proof {
                    lemma_slots_map_index(self.slots@, i as int);
                }
                self.slots[i].balance
            },
            None => {
                proof {
                    lemma_slots_map_absent(self.slots@, (account_id@, source_view(*contract_id)));
                }
                0
            },
        }
    }

    /// The balance of an account's general slot, the one attributed to no
    /// source.
    pub fn ft_balance_of(&self, account_id: &String) -> (r: u128)
        requires
            self.wf(),
        ensures
            r == self@.balance((account_id@, None)),
            !self@.registered.contains(account_id@) ==> r == 0,
    {
        self.ft_balance_by_contract(account_id, &None)
    }
}

proof fn lemma_slots_map_contains(s: Seq<Slot>, k: SlotKey) -> (i: int)
    requires
        slots_map(s).contains_key(k),
    ensures
        0 <= i < s.len(),
        s[i].key() == k,
        slots_map(s)[k] == s[i].balance,
    decreases s.len(),
{
    if s.last().key() == k {
        s.len() - 1
    } else {
        lemma_slots_map_contains(s.drop_last(), k)
    }
}

/// No slot of a well-formed ledger holds more than the total supply.
pub proof fn lemma_balance_le_supply(token: &FungibleToken, k: SlotKey)
    requires
        token.wf(),
    ensures
        token@.balance(k) <= token@.total_supply,
{
    if token@.balances.contains_key(k) {
        let i = lemma_slots_map_contains(token.slots@, k);
        lemma_slot_le_sum(token.slots@, i);
    }
}

/// An account that is not registered has no slot, so every balance of it
/// reads zero.
pub proof fn lemma_unregistered_has_no_slot(token: &FungibleToken, account: Seq<char>, source: Option<Seq<char>>)
    requires
        token.wf(),
        !token@.registered.contains(account),
    ensures
        !token@.balances.contains_key((account, source)),
        token@.balance((account, source)) == 0,
{
    if token@.balances.contains_key((account, source)) {
        let i = lemma_slots_map_contains(token.slots@, (account, source));
        assert(token.registered.deep_view().contains(token.slots@[i].account_id@));
    }
}

/// The sum of the balances of all slots of a model, in any order.
pub open spec fn balances_sum(m: Map<SlotKey, nat>) -> nat
    decreases m.dom().len(),
    via balances_sum_decreases
{
    if m.dom().finite() && m.dom().len() > 0 {
        let k = choose|k: SlotKey| m.dom().contains(k);
        m[k] + balances_sum(m.remove(k))
    } else {
        0
    }
}

#[via_fn]
proof fn balances_sum_decreases(m: Map<SlotKey, nat>) {
    if m.dom().finite() && m.dom().len() > 0 {
        if !(exists|k: SlotKey| m.dom().contains(k)) {
            assert(m.dom() =~= Set::<SlotKey>::empty());
        }
        let k = choose|k: SlotKey| m.dom().contains(k);
        assert(m.remove(k).dom() =~= m.dom().remove(k));
        assert(m.dom().remove(k).len() < m.dom().len());
    }
}

proof fn lemma_balances_sum_remove(m: Map<SlotKey, nat>, k: SlotKey)
    requires
        m.dom().finite(),
        m.dom().contains(k),
    ensures
        balances_sum(m) == m[k] + balances_sum(m.remove(k)),
    decreases m.dom().len(),
{
    let k0 = choose|k0: SlotKey| m.dom().contains(k0);
    if k0 != k {
        lemma_balances_sum_remove(m.remove(k0), k);
        lemma_balances_sum_remove(m.remove(k), k0);
        assert(m.remove(k0).remove(k) =~= m.remove(k).remove(k0));
    } else {
        assert(m.remove(k0) =~= m.remove(k));
    }
}

proof fn lemma_slots_sum_is_balances_sum(s: Seq<Slot>)
    requires
        keys_unique(s),
    ensures
        slots_map(s).dom().finite(),
        slots_sum(s) == balances_sum(slots_map(s)),
    decreases s.len(),
{
    if s.len() > 0 {
        let rest = s.drop_last();
        assert(keys_unique(rest));
        lemma_slots_sum_is_balances_sum(rest);
        lemma_slots_map_absent(rest, s.last().key());
        let m = slots_map(s);
        lemma_balances_sum_remove(m, s.last().key());
        assert(m.remove(s.last().key()) =~= slots_map(rest));
    }
}

/// In every well-formed ledger, so after any sequence of successful deposits
/// and withdrawals from `new`, the total supply equals the sum of the balances
/// of all (account, source) slots.
pub proof fn lemma_conservation(token: &FungibleToken)
    requires
        token.wf(),
    ensures
        token@.balances.dom().finite(),
        token@.total_supply == balances_sum(token@.balances),
{
    lemma_slots_sum_is_balances_sum(token.slots@);
}

fn same_source(a: &Option<String>, b: &Option<String>) -> (r: bool)
    ensures
        r == (source_view(*a) == source_view(*b)),
{
    match (a, b) {
        (Some(x), Some(y)) => *x == *y,
        (None, None) => true,
        _ => false,
    }
}

fn clone_source(a: &Option<String>) -> (r: Option<String>)
    ensures
        source_view(r) == source_view(*a),
{
    match a {
        Some(x) => Some(x.clone()),
        None => None,
    }
}

} // verus!
