//! The collection protocol: the contract's state, the checks that run before
//! any remote call is issued, and the settlement of the replies.

use crate::account::{is_trusted, trusted};
use crate::error::DripError;
use crate::ledger::{lemma_balance_le_supply, FungibleToken, LedgerModel};
use crate::reply::{
    credit_of, decode_report, decodes_to, lemma_decoded_credit, reply_credit, report_credit, PromiseOutcome, Report,
    WeightTable,
};
use vstd::arithmetic::div_mod::lemma_fundamental_div_mod;
use vstd::prelude::*;

verus! {

/// Budget kept back for the collecting call itself.
pub const THIS_FUNCTION_CALL_GAS: u64 = 50_000_000_000_000;

/// Budget attached to each remote collection call.
pub const COLLECT_DRIP_GAS: u64 = 10_000_000_000_000;

/// Fixed budget of the reconciliation step.
pub const RESOLVE_COLLECT_DRIP_GAS_BASE: u64 = 3_000_000_000_000;

/// Budget of the reconciliation step for each source.
pub const RESOLVE_COLLECT_DRIP_GAS_X: u64 = 2_000_000_000_000;

/// The contract: the ledger, its owner, its own account id, the owner's
/// allow-list of sources and the weighting table.
pub struct Contract {
    pub token: FungibleToken,
    pub owner_id: String,
    pub current_account_id: String,
    pub white_list: Vec<String>,
    pub coe_map: WeightTable,
}

/// What the host reports about one collection call.
pub struct CollectRequest {
    /// The authenticated caller.
    pub sender_id: String,
    /// The candidate sources, in the caller's order.
    pub collects: Vec<String>,
    /// The payment attached to the call.
    pub attached_deposit: u128,
    /// The caller's unused storage credit, where the caller is registered.
    pub storage_available: u128,
    /// The price of one byte of storage.
    pub storage_byte_cost: u128,
    /// The execution budget attached to the call.
    pub prepaid_gas: u64,
}

/// The batch to issue: one remote call per source, in this order, and the
/// account to credit when the replies come back.
pub struct CollectBatch {
    pub account_id: String,
    pub collects: Vec<String>,
}

/// The candidates that pass the trust check, in their order.
pub open spec fn trusted_sources(collects: Seq<Seq<char>>, own: Seq<char>, allow: Seq<Seq<char>>) -> Seq<Seq<char>>
    decreases collects.len(),
{
    if collects.len() == 0 {
        Seq::empty()
    } else {
        let rest = trusted_sources(collects.drop_last(), own, allow);
        if trusted(collects.last(), own, allow) {
            rest.push(collects.last())
        } else {
            rest
        }
    }
}

/// How many of `sources` (counted with repetition) the account has no slot
/// for yet.
pub open spec fn count_unslotted(sources: Seq<Seq<char>>, m: LedgerModel, account: Seq<char>) -> nat
    decreases sources.len(),
{
    if sources.len() == 0 {
        0
    } else {
        count_unslotted(sources.drop_last(), m, account) + (if m.balances.contains_key(
            (account, Some(sources.last())),
        ) {
            0nat
        } else {
            1nat
        })
    }
}

/// The budget that a batch of `n` calls and its reconciliation need.
pub open spec fn collect_gas_needed(n: nat) -> int {
    n * (COLLECT_DRIP_GAS + RESOLVE_COLLECT_DRIP_GAS_X) + RESOLVE_COLLECT_DRIP_GAS_BASE
}

/// What a collection request comes to, checked in this order: registration
/// payment of a new caller, storage fees for new slots, budget, and an empty
/// batch.
pub open spec fn collect_decision(c: Contract, req: CollectRequest) -> Result<Seq<Seq<char>>, DripError> {
    let m = c.token@;
    let registered = m.registered.contains(req.sender_id@);
    let cost = m.account_storage_usage * req.storage_byte_cost;
    let credit: int = if registered { req.storage_available as int } else { 0 };
    let sources = trusted_sources(req.collects.deep_view(), c.current_account_id@, c.white_list.deep_view());
    if !registered && req.attached_deposit < cost {
        Err(DripError::InsufficientDeposit)
    } else if cost * count_unslotted(sources, m, req.sender_id@) > req.attached_deposit + credit {
        Err(DripError::InsufficientDeposit)
    } else if collect_gas_needed(sources.len()) > req.prepaid_gas - THIS_FUNCTION_CALL_GAS {
        Err(DripError::InsufficientBudget)
    } else if sources.len() == 0 {
        Err(DripError::NothingToCollect)
    } else {
        Ok(sources)
    }
}

/// The (source, amount) that each decoded report credits, in order.
pub open spec fn report_amounts(reports: Seq<(String, Report)>, table: WeightTable) -> Seq<(Seq<char>, nat)> {
    reports.map_values(|p: (String, Report)| (p.0@, credit_of(p.1, table)))
}

/// The (source, amount) that each reply body credits, in order.
pub open spec fn reply_amounts(replies: Seq<(Seq<char>, Seq<u8>)>, table: WeightTable) -> Seq<(Seq<char>, nat)> {
    replies.map_values(|p: (Seq<char>, Seq<u8>)| (p.0, reply_credit(p.1, table)))
}

/// The credits that settlement applies, in order: those with a positive
/// amount and a trusted source.
pub open spec fn credits(items: Seq<(Seq<char>, nat)>, own: Seq<char>, allow: Seq<Seq<char>>) -> Seq<(Seq<char>, nat)>
    decreases items.len(),
{
    if items.len() == 0 {
        Seq::empty()
    } else {
        let rest = credits(items.drop_last(), own, allow);
        if items.last().1 > 0 && trusted(items.last().0, own, allow) {
            rest.push(items.last())
        } else {
            rest
        }
    }
}

pub open spec fn credits_total(cs: Seq<(Seq<char>, nat)>) -> nat
    decreases cs.len(),
{
    if cs.len() == 0 {
        0
    } else {
        credits_total(cs.drop_last()) + cs.last().1
    }
}

/// The ledger after each credit is deposited, in order, to the account's
/// slot for its source.
pub open spec fn apply_credits(m: LedgerModel, account: Seq<char>, cs: Seq<(Seq<char>, nat)>) -> LedgerModel
    decreases cs.len(),
{
    if cs.len() == 0 {
        m
    } else {
        apply_credits(m, account, cs.drop_last()).deposited((account, Some(cs.last().0)), cs.last().1)
    }
}

/// The replies that succeeded, each with the source at its position: the
/// i-th reply belongs to the i-th source; replies beyond the sources, and
/// sources beyond the replies, are dropped.
pub open spec fn successful_replies(sources: Seq<Seq<char>>, results: Seq<PromiseOutcome>) -> Seq<(Seq<char>, Seq<u8>)>
    decreases results.len(),
{
    if results.len() == 0 {
        Seq::empty()
    } else {
        let rest = successful_replies(sources, results.drop_last());
        let i = results.len() - 1;
        match results.last() {
            PromiseOutcome::Successful(b) => if i < sources.len() {
                rest.push((sources[i], b@))
            } else {
                rest
            },
            _ => rest,
        }
    }
}

/// Settlement adds the total of its credits to the supply and registers no
/// one.
pub proof fn lemma_apply_credits_shape(m: LedgerModel, account: Seq<char>, cs: Seq<(Seq<char>, nat)>)
    ensures
        apply_credits(m, account, cs).total_supply == m.total_supply + credits_total(cs),
        apply_credits(m, account, cs).registered == m.registered,
        apply_credits(m, account, cs).account_storage_usage == m.account_storage_usage,
    decreases cs.len(),
{
    if cs.len() > 0 {
        lemma_apply_credits_shape(m, account, cs.drop_last());
    }
}

/// Every credit that settlement applies names a trusted source.
pub proof fn lemma_credits_trusted(items: Seq<(Seq<char>, nat)>, own: Seq<char>, allow: Seq<Seq<char>>)
    ensures
        forall|k: int|
            0 <= k < credits(items, own, allow).len() ==> trusted(
                #[trigger] credits(items, own, allow)[k].0,
                own,
                allow,
            ),
    decreases items.len(),
{
    if items.len() > 0 {
        let rest = credits(items.drop_last(), own, allow);
        let all = credits(items, own, allow);
        lemma_credits_trusted(items.drop_last(), own, allow);
        assert forall|k: int| 0 <= k < all.len() implies trusted(#[trigger] all[k].0, own, allow) by {
            if k < rest.len() {
                assert(all[k] == rest[k]);
            }
        }
    }
}

/// Settlement changes no slot but the settled account's slots for the
/// sources that its credits name: a source left out of the batch, or
/// dropped as untrusted, keeps its balance.
pub proof fn lemma_uncredited_slots_unchanged(
    m: LedgerModel,
    account: Seq<char>,
    cs: Seq<(Seq<char>, nat)>,
    k: (Seq<char>, Option<Seq<char>>),
)
    requires
        forall|i: int| 0 <= i < cs.len() ==> k != (account, Some(#[trigger] cs[i].0)),
    ensures
        apply_credits(m, account, cs).balance(k) == m.balance(k),
    decreases cs.len(),
{
    if cs.len() > 0 {
        assert(k != (account, Some(cs[cs.len() - 1].0)));
        lemma_uncredited_slots_unchanged(m, account, cs.drop_last(), k);
    }
}

/// The body of a successful outcome.
pub open spec fn reply_body(o: PromiseOutcome) -> Seq<u8> {
    match o {
        PromiseOutcome::Successful(b) => b@,
        _ => Seq::empty(),
    }
}

proof fn lemma_all_successful_aligned(sources: Seq<Seq<char>>, results: Seq<PromiseOutcome>)
    requires
        results.len() <= sources.len(),
        forall|i: int| 0 <= i < results.len() ==> #[trigger] results[i] is Successful,
    ensures
        successful_replies(sources, results) == Seq::new(
            results.len(),
            |i: int| (sources[i], reply_body(results[i])),
        ),
    decreases results.len(),
{
    if results.len() > 0 {
        let rest = results.drop_last();
        assert forall|i: int| 0 <= i < rest.len() implies #[trigger] rest[i] is Successful by {
            assert(rest[i] == results[i]);
        }
        lemma_all_successful_aligned(sources, rest);
        assert(results.last() is Successful);
        assert(successful_replies(sources, results) =~= Seq::new(
            results.len(),
            |i: int| (sources[i], reply_body(results[i])),
        ));
    }
}

proof fn lemma_credits_keep_all(items: Seq<(Seq<char>, nat)>, own: Seq<char>, allow: Seq<Seq<char>>)
    requires
        forall|i: int| 0 <= i < items.len() ==> #[trigger] items[i].1 > 0 && trusted(items[i].0, own, allow),
    ensures
        credits(items, own, allow) == items,
    decreases items.len(),
{
    if items.len() > 0 {
        let rest = items.drop_last();
        assert forall|i: int| 0 <= i < rest.len() implies #[trigger] rest[i].1 > 0 && trusted(rest[i].0, own, allow) by {
            assert(rest[i] == items[i]);
        }
        lemma_credits_keep_all(rest, own, allow);
        assert(items[items.len() - 1].1 > 0);
        assert(rest.push(items.last()) =~= items);
    }
}

proof fn lemma_credits_to_distinct_sources(m: LedgerModel, account: Seq<char>, cs: Seq<(Seq<char>, nat)>)
    requires
        forall|i: int, j: int| 0 <= i < j < cs.len() ==> cs[i].0 != cs[j].0,
    ensures
        forall|i: int|
            0 <= i < cs.len() ==> #[trigger] apply_credits(m, account, cs).balance((account, Some(cs[i].0)))
                == m.balance((account, Some(cs[i].0))) + cs[i].1,
    decreases cs.len(),
{
    if cs.len() > 0 {
        let rest = cs.drop_last();
        let last = cs.last();
        let before = apply_credits(m, account, rest);
        lemma_credits_to_distinct_sources(m, account, rest);
        assert forall|i: int| 0 <= i < rest.len() implies rest[i].0 != last.0 by {
            assert(rest[i] == cs[i]);
        }
        lemma_uncredited_slots_unchanged(m, account, rest, (account, Some(last.0)));
        assert forall|i: int| 0 <= i < cs.len() implies #[trigger] apply_credits(m, account, cs).balance(
            (account, Some(cs[i].0)),
        ) == m.balance((account, Some(cs[i].0))) + cs[i].1 by {
            if i < cs.len() - 1 {
                assert(rest[i] == cs[i]);
                assert(cs[i].0 != last.0);
                assert(before.balance((account, Some(rest[i].0))) == m.balance((account, Some(rest[i].0))) + rest[i].1);
            }
        }
    }
}

/// Fan-out alignment: when the calls of a batch of distinct trusted sources
/// all succeed, each with a positive amount, settlement credits every source
/// the amount of the reply at that source's position, adds their total to the
/// supply, and leaves every other slot as it was. The host lists results by
/// position, so the order in which the calls completed plays no part.
pub proof fn lemma_fan_out_alignment(
    m: LedgerModel,
    account: Seq<char>,
    sources: Seq<Seq<char>>,
    results: Seq<PromiseOutcome>,
    table: WeightTable,
    own: Seq<char>,
    allow: Seq<Seq<char>>,
)
    requires
        results.len() == sources.len(),
        sources.no_duplicates(),
        forall|i: int| 0 <= i < sources.len() ==> trusted(#[trigger] sources[i], own, allow),
        forall|i: int| 0 <= i < results.len() ==> #[trigger] results[i] is Successful,
        forall|i: int| 0 <= i < results.len() ==> reply_credit(reply_body(#[trigger] results[i]), table) > 0,
    ensures
        ({
            let cs = credits(reply_amounts(successful_replies(sources, results), table), own, allow);
            let after = apply_credits(m, account, cs);
            &&& forall|i: int|
                0 <= i < sources.len() ==> after.balance((account, Some(#[trigger] sources[i])))
                    == m.balance((account, Some(sources[i]))) + reply_credit(reply_body(results[i]), table)
            &&& forall|k: (Seq<char>, Option<Seq<char>>)|
                (forall|i: int| 0 <= i < sources.len() ==> k != (account, Some(#[trigger] sources[i])))
                    ==> after.balance(k) == m.balance(k)
            &&& after.total_supply == m.total_supply + credits_total(cs)
            &&& after.registered == m.registered
        }),
{
    lemma_all_successful_aligned(sources, results);
    let replies = successful_replies(sources, results);
    let items = reply_amounts(replies, table);
    assert forall|i: int| 0 <= i < items.len() implies #[trigger] items[i].1 > 0 && trusted(items[i].0, own, allow) by {
        assert(items[i] == (sources[i], reply_credit(reply_body(results[i]), table)));
        assert(results[i] is Successful);
        assert(trusted(sources[i], own, allow));
    }
    lemma_credits_keep_all(items, own, allow);
    let cs = items;
    assert forall|i: int, j: int| 0 <= i < j < cs.len() implies cs[i].0 != cs[j].0 by {
        assert(cs[i].0 == sources[i] && cs[j].0 == sources[j]);
    }
    lemma_credits_to_distinct_sources(m, account, cs);
    lemma_apply_credits_shape(m, account, cs);
    let after = apply_credits(m, account, cs);
    assert forall|i: int| 0 <= i < sources.len() implies after.balance((account, Some(#[trigger] sources[i])))
        == m.balance((account, Some(sources[i]))) + reply_credit(reply_body(results[i]), table) by {
        assert(cs[i].0 == sources[i]);
        assert(cs[i].1 == reply_credit(reply_body(results[i]), table));
    }
    assert forall|k: (Seq<char>, Option<Seq<char>>)|
        (forall|i: int| 0 <= i < sources.len() ==> k != (account, Some(#[trigger] sources[i]))) implies after.balance(k)
        == m.balance(k) by {
        assert forall|i: int| 0 <= i < cs.len() implies k != (account, Some(#[trigger] cs[i].0)) by {
            assert(cs[i].0 == sources[i]);
        }
        lemma_uncredited_slots_unchanged(m, account, cs, k);
    }
}

proof fn lemma_credits_total_prefix(cs: Seq<(Seq<char>, nat)>, i: int)
    requires
        0 <= i <= cs.len(),
    ensures
        credits_total(cs.take(i)) <= credits_total(cs),
    decreases cs.len() - i,
{
    if i < cs.len() {
        lemma_credits_total_prefix(cs, i + 1);
        assert(cs.take(i + 1).drop_last() =~= cs.take(i));
    } else {
        assert(cs.take(i) =~= cs);
    }
}

impl Contract {
    /// The contract's invariant: its ledger is well formed.
    pub open spec fn wf(&self) -> bool {
        self.token.wf()
    }

    /// A contract with an empty ledger.
    pub fn new(
        owner_id: String,
        current_account_id: String,
        coe_map: WeightTable,
        account_storage_usage: u64,
    ) -> (r: Self)
        ensures
            r.wf(),
            r.token@.registered == Set::<Seq<char>>::empty(),
            r.token@.balances == Map::<(Seq<char>, Option<Seq<char>>), nat>::empty(),
            r.token@.total_supply == 0,
            r.token@.account_storage_usage == account_storage_usage,
            r.owner_id == owner_id,
            r.current_account_id == current_account_id,
            r.white_list@.len() == 0,
            r.coe_map == coe_map,
    {
        Contract {
            token: FungibleToken::new(account_storage_usage),
            owner_id,
            current_account_id,
            white_list: Vec::new(),
            coe_map,
        }
    }

    /// Adds a source to the allow-list, or removes it where `del` is set.
    /// Only the owner may do so.
    pub fn set_white_list(&mut self, caller: &String, contract_id: String, del: bool) -> (r: Result<(), DripError>)
        ensures
            r is Err <==> caller@ != old(self).owner_id@,
            r is Err ==> r == Err::<(), DripError>(DripError::Unauthorized) && *final(self) == *old(self),
            r is Ok ==> final(self).white_list.deep_view().to_set() == (if del {
                old(self).white_list.deep_view().to_set().remove(contract_id@)
            } else {
                old(self).white_list.deep_view().to_set().insert(contract_id@)
            }),
            final(self).token == old(self).token,
            final(self).owner_id == old(self).owner_id,
            final(self).current_account_id == old(self).current_account_id,
            final(self).coe_map == old(self).coe_map,
    {
        if *caller != self.owner_id {
            return Err(DripError::Unauthorized);
        }
        let ghost old_list = self.white_list.deep_view();
        let mut kept: Vec<String> = Vec::new();
        let mut i: usize = 0;
        while i < self.white_list.len()
            invariant
                i <= self.white_list@.len(),
                old_list == self.white_list.deep_view(),
                forall|x: Seq<char>|
                    kept.deep_view().contains(x) <==> (x != contract_id@ && exists|j: int|
                        0 <= j < i && old_list[j] == x),
            decreases self.white_list@.len() - i,
        {
            let item = &self.white_list[i];
            let ghost before = kept.deep_view();
            if *item != contract_id {
                kept.push(item.clone());
                proof {
                    let after = kept.deep_view();
                    assert(after =~= before.push(item@));
                    assert forall|x: Seq<char>| after.contains(x) <==> (before.contains(x) || x == item@) by {
                        if after.contains(x) {
                            let k = choose|k: int| 0 <= k < after.len() && after[k] == x;
                            if k < before.len() {
                                assert(before[k] == x);
                            }
                        }
                        if before.contains(x) {
                            let k = choose|k: int| 0 <= k < before.len() && before[k] == x;
                            assert(after[k] == x);
                        }
                        if x == item@ {
                            assert(after[before.len() as int] == x);
                        }
                    }
                }
            }
            proof {
                assert(old_list[i as int] == item@);
                assert forall|x: Seq<char>|
                    kept.deep_view().contains(x) <==> (x != contract_id@ && exists|j: int|
                        0 <= j < i + 1 && old_list[j] == x) by {
                    if x != contract_id@ && exists|j: int| 0 <= j < i + 1 && old_list[j] == x {
                        let j = choose|j: int| 0 <= j < i + 1 && old_list[j] == x;
                        if j < i {
                            assert(exists|j2: int| 0 <= j2 < i && old_list[j2] == x);
                        }
                    }
                }
            }
            i = i + 1;
        }
        if !del {
            let ghost before = kept.deep_view();
            kept.push(contract_id);
            proof {
                let after = kept.deep_view();
                assert(after =~= before.push(contract_id@));
                assert forall|x: Seq<char>| after.contains(x) <==> (before.contains(x) || x == contract_id@) by {
                    if after.contains(x) {
                        let k = choose|k: int| 0 <= k < after.len() && after[k] == x;
                        if k < before.len() {
                            assert(before[k] == x);
                        }
                    }
                    if before.contains(x) {
                        let k = choose|k: int| 0 <= k < before.len() && before[k] == x;
                        assert(after[k] == x);
                    }
                    if x == contract_id@ {
                        assert(after[before.len() as int] == x);
                    }
                }
            }
        }
        self.white_list = kept;
        proof {
            let target = if del {
                old_list.to_set().remove(contract_id@)
            } else {
                old_list.to_set().insert(contract_id@)
            };
            assert(self.white_list.deep_view().to_set() =~= target);
        }
        Ok(())
    }

    /// The weighting table, as (metric, coefficient) pairs.
    pub fn get_coe_map(&self) -> (r: Vec<(String, u128)>)
        ensures
            crate::reply::pairs_view(r@) == crate::reply::pairs_view(self.coe_map.coefficients@),
    {
        let mut out: Vec<(String, u128)> = Vec::new();
        let mut i: usize = 0;
        while i < self.coe_map.coefficients.len()
            invariant
                i <= self.coe_map.coefficients@.len(),
                out@.len() == i,
                forall|j: int|
                    0 <= j < i ==> out@[j].0@ == self.coe_map.coefficients@[j].0@ && out@[j].1
                        == self.coe_map.coefficients@[j].1,
            decreases self.coe_map.coefficients@.len() - i,
        {
            let entry = &self.coe_map.coefficients[i];
            out.push((entry.0.clone(), entry.1));
            i = i + 1;
        }
        assert(crate::reply::pairs_view(out@) =~= crate::reply::pairs_view(self.coe_map.coefficients@));
        out
    }
}


proof fn lemma_pairs_unchanged(
    out: Seq<(String, Report)>,
    prev: Seq<(Seq<char>, Seq<u8>)>,
    cur: Seq<(Seq<char>, Seq<u8>)>,
)
    requires
        cur == prev,
        out.len() == prev.len(),
        forall|j: int| 0 <= j < out.len() ==> out[j].0@ == prev[j].0 && decodes_to(prev[j].1, (#[trigger] out[j]).1),
    ensures
        forall|j: int| 0 <= j < out.len() ==> out[j].0@ == cur[j].0 && decodes_to(cur[j].1, (#[trigger] out[j]).1),
{
    assert forall|j: int| 0 <= j < out.len() implies out[j].0@ == cur[j].0 && decodes_to(cur[j].1, (#[trigger] out[j]).1) by {
        assert(cur[j] == prev[j]);
        assert(out[j].0@ == prev[j].0);
        assert(decodes_to(prev[j].1, out[j].1));
    }
}

/// Pairs each successful reply with the source at its position and decodes
/// its body. Positions, not completion order, decide which source a reply
/// belongs to.
pub fn pair_replies(collects: &Vec<String>, results: &Vec<PromiseOutcome>) -> (r: Vec<(String, Report)>)
    ensures
        ({
            let replies = successful_replies(collects.deep_view(), results@);
            &&& r@.len() == replies.len()
            &&& forall|j: int|
                0 <= j < r@.len() ==> r@[j].0@ == replies[j].0 && decodes_to(replies[j].1, (#[trigger] r@[j]).1)
        }),
{
    let ghost srcs = collects.deep_view();
    let mut out: Vec<(String, Report)> = Vec::new();
    let mut i: usize = 0;
    while i < results.len()
        invariant
            i <= results@.len(),
            srcs == collects.deep_view(),
            ({
                let replies = successful_replies(srcs, results@.take(i as int));
                &&& out@.len() == replies.len()
                &&& forall|j: int|
                    0 <= j < out@.len() ==> out@[j].0@ == replies[j].0 && decodes_to(
                        replies[j].1,
                        (#[trigger] out@[j]).1,
                    )
            }),
        decreases results@.len() - i,
    {
        proof {
            assert(results@.take(i + 1).drop_last() =~= results@.take(i as int));
            assert(results@.take(i + 1).last() == results@[i as int]);
            if i < collects@.len() {
                assert(srcs[i as int] == collects@[i as int]@);
            }
        }
        let ghost old_out = out@;
        let ghost prev = successful_replies(srcs, results@.take(i as int));
        let ghost cur = successful_replies(srcs, results@.take(i + 1));
        match &results[i] {
            PromiseOutcome::Successful(body) => {
                if i < collects.len() {
                    let report = decode_report(body);
                    out.push((collects[i].clone(), report));
                    proof {
                        assert(cur == prev.push((srcs[i as int], body@)));
                        assert forall|j: int| 0 <= j < out@.len() implies out@[j].0@ == cur[j].0
                            && decodes_to(cur[j].1, (#[trigger] out@[j]).1) by {
                            if j < old_out.len() {
                                assert(out@[j] == old_out[j]);
                                assert(cur[j] == prev[j]);
                                assert(decodes_to(prev[j].1, old_out[j].1));
                            } else {
                                assert(out@[j].0@ == srcs[i as int]);
                                assert(cur[j] == (srcs[i as int], body@));
                            }
                        }
                    }
                } else {
                    proof {
                        lemma_pairs_unchanged(old_out, prev, cur);
                    }
                }
            },
            _ => {
                proof {
                    lemma_pairs_unchanged(old_out, prev, cur);
                }
            },
        }
        i = i + 1;
    }
    proof {
        assert(results@.take(i as int) =~= results@);
    }
    out
}


proof fn lemma_mul_le_iff(x: int, b: int, q: int, rem: int)
    requires
        x > 0,
        0 <= rem < x,
    ensures
        (x * b <= q * x + rem) == (b <= q),
{
    if b <= q {
        assert(x * b <= x * q) by (nonlinear_arith)
            requires
                x > 0,
                b <= q,
        ;
    } else {
        assert(x * b >= x * q + x) by (nonlinear_arith)
            requires
                x > 0,
                b >= q + 1,
        ;
    }
}

/// Whether `x * b`, taken without bound, is at most `a + c`.
fn fee_covered(x: u128, b: u128, a: u128, c: u128) -> (r: bool)
    ensures
        r == (x * b <= a + c),
{
    match x.checked_mul(b) {
        Some(f) => {
            if f <= c {
                true
            } else {
                f - c <= a
            }
        },
        None => {
            proof {
                if x <= 1 {
                    assert(x * b <= b) by (nonlinear_arith)
                        requires
                            x <= 1,
                            x >= 0,
                            b >= 0,
                    ;
                }
            }
            let qa = a / x;
            let ra = a % x;
            let qc = c / x;
            let rc = c % x;
            let carry: u128 = if ra >= x - rc {
                1
            } else {
                0
            };
            proof {
                lemma_fundamental_div_mod(a as int, x as int);
                lemma_fundamental_div_mod(c as int, x as int);
                assert(2 * qa <= a) by (nonlinear_arith)
                    requires
                        x >= 2,
                        qa >= 0,
                        x * qa <= a,
                ;
                assert(2 * qc <= c) by (nonlinear_arith)
                    requires
                        x >= 2,
                        qc >= 0,
                        x * qc <= c,
                ;
            }
            let q = qa + qc + carry;
            proof {
                let rem = ra + rc - carry * x;
                assert(a + c == q * x + rem) by (nonlinear_arith)
                    requires
                        a == x * qa + ra,
                        c == x * qc + rc,
                        q == qa + qc + carry,
                        rem == ra + rc - carry * x,
                ;
                lemma_mul_le_iff(x as int, b as int, q as int, rem);
            }
            b <= q
        },
    }
}

impl Contract {
    /// Checks a collection request and returns the batch of remote calls to
    /// issue. Every check runs before anything changes: where one fails the
    /// contract is left as it was and no call is to be issued. A caller that
    /// is not registered yet is registered when the request succeeds. A batch
    /// left empty by the trust check is refused with `NothingToCollect`
    /// rather than accepted as a no-op.
    pub fn ft_collect(&mut self, req: &CollectRequest) -> (r: Result<CollectBatch, DripError>)
        requires
            old(self).wf(),
        ensures
            final(self).wf(),
            final(self).owner_id == old(self).owner_id,
            final(self).current_account_id == old(self).current_account_id,
            final(self).white_list == old(self).white_list,
            final(self).coe_map == old(self).coe_map,
            match r {
                Ok(batch) => {
                    &&& collect_decision(*old(self), *req) == Ok::<Seq<Seq<char>>, DripError>(
                        batch.collects.deep_view(),
                    )
                    &&& batch.account_id@ == req.sender_id@
                    &&& final(self).token@ == (LedgerModel {
                        registered: old(self).token@.registered.insert(req.sender_id@),
                        ..old(self).token@
                    })
                },
                Err(e) => collect_decision(*old(self), *req) == Err::<Seq<Seq<char>>, DripError>(e)
                    && final(self).token@ == old(self).token@,
            },
    {
        let ghost m = self.token@;
        let ghost own = self.current_account_id@;
        let ghost allow = self.white_list.deep_view();
        let ghost cands = req.collects.deep_view();
        let registered = self.token.is_registered(&req.sender_id);
        let usage = self.token.account_storage_usage() as u128;
        let cost = usage.checked_mul(req.storage_byte_cost);
        if !registered {
            match cost {
                Some(c) => {
                    if req.attached_deposit < c {
                        return Err(DripError::InsufficientDeposit);
                    }
                },
                None => {
                    return Err(DripError::InsufficientDeposit);
                },
            }
        }
        let credit: u128 = if registered {
            req.storage_available
        } else {
            0
        };
        let mut sources: Vec<String> = Vec::new();
        let mut unslotted: usize = 0;
        let mut i: usize = 0;
        while i < req.collects.len()
            invariant
                i <= req.collects@.len(),
                cands == req.collects.deep_view(),
                self.token@ == m,
                self.token.wf(),
                own == self.current_account_id@,
                allow == self.white_list.deep_view(),
                sources.deep_view() == trusted_sources(cands.take(i as int), own, allow),
                unslotted == count_unslotted(sources.deep_view(), m, req.sender_id@),
                unslotted <= sources@.len() <= i,
            decreases req.collects@.len() - i,
        {
            proof {
                assert(cands.take(i + 1).drop_last() =~= cands.take(i as int));
            }
            let c = &req.collects[i];
            if is_trusted(c, &self.current_account_id, &self.white_list) {
                let ghost before = sources.deep_view();
                let fresh = !self.token.has_slot(&req.sender_id, &Some(c.clone()));
                if fresh {
                    unslotted = unslotted + 1;
                }
                sources.push(c.clone());
                proof {
                    assert(sources.deep_view() =~= before.push(c@));
                    assert(sources.deep_view().drop_last() =~= before);
                }
            }
            i = i + 1;
        }
        proof {
            assert(cands.take(i as int) =~= cands);
        }
        let ghost n_new = unslotted as int;
        let ghost per_slot = m.account_storage_usage * req.storage_byte_cost;
        proof {
            assert(usage * unslotted <= 0xffff_ffff_ffff_ffffu128 * 0xffff_ffff_ffff_ffffu128) by (nonlinear_arith)
                requires
                    usage <= 0xffff_ffff_ffff_ffffu128,
                    unslotted <= 0xffff_ffff_ffff_ffffu128,
            ;
            assert(per_slot * n_new == (usage * unslotted) * req.storage_byte_cost) by (nonlinear_arith)
                requires
                    per_slot == usage * req.storage_byte_cost,
                    n_new == unslotted,
            ;
        }
        let covered = fee_covered(usage * unslotted as u128, req.storage_byte_cost, req.attached_deposit, credit);
        if !covered {
            return Err(DripError::InsufficientDeposit);
        }
        let n = sources.len() as u128;
        proof {
            assert(n * 12_000_000_000_000 <= 0x1_0000_0000_0000_0000u128 * 12_000_000_000_000) by (
            nonlinear_arith)
                requires
                    n <= 0x1_0000_0000_0000_0000u128,
            ;
        }
        let needed: u128 = n * 12_000_000_000_000 + RESOLVE_COLLECT_DRIP_GAS_BASE as u128;
        if req.prepaid_gas < THIS_FUNCTION_CALL_GAS || needed > (req.prepaid_gas - THIS_FUNCTION_CALL_GAS) as u128 {
            return Err(DripError::InsufficientBudget);
        }
        if sources.len() == 0 {
            return Err(DripError::NothingToCollect);
        }
        if !registered {
            let done = self.token.internal_register_account(&req.sender_id);
        } else {
            assert(m.registered.insert(req.sender_id@) =~= m.registered);
        }
        Ok(CollectBatch { account_id: req.sender_id.clone(), collects: sources })
    }

    /// Credits `balance` to the account's slot for the source, where the
    /// source is trusted; an untrusted source is ignored.
    pub fn internal_set_drip(&mut self, balance: u128, contract_id: &String, account_id: &String) -> (r: Result<(), DripError>)
        requires
            old(self).wf(),
        ensures
            final(self).wf(),
            final(self).owner_id == old(self).owner_id,
            final(self).current_account_id == old(self).current_account_id,
            final(self).white_list == old(self).white_list,
            final(self).coe_map == old(self).coe_map,
            ({
                let k = (account_id@, Some(contract_id@));
                let m = old(self).token@;
                if trusted(contract_id@, old(self).current_account_id@, old(self).white_list.deep_view()) {
                    &&& (r == Err::<(), DripError>(DripError::NotRegistered)) <==> !m.registered.contains(k.0)
                    &&& (r == Err::<(), DripError>(DripError::BalanceOverflow)) <==> (m.registered.contains(k.0)
                        && m.balance(k) + balance > u128::MAX)
                    &&& (r == Err::<(), DripError>(DripError::SupplyOverflow)) <==> (m.registered.contains(k.0)
                        && m.balance(k) + balance <= u128::MAX && m.total_supply + balance > u128::MAX)
                    &&& r is Ok <==> (m.registered.contains(k.0) && m.balance(k) + balance <= u128::MAX
                        && m.total_supply + balance <= u128::MAX)
                    &&& r is Err ==> final(self).token@ == m
                    &&& r is Ok ==> final(self).token@ == m.deposited(k, balance as nat)
                } else {
                    r is Ok && final(self).token@ == m
                }
            }),
    {
        if is_trusted(contract_id, &self.current_account_id, &self.white_list) {
            let source = Some(contract_id.clone());
            self.token.internal_deposit(account_id, balance, &source)
        } else {
            Ok(())
        }
    }

    /// Settles decoded replies for an account: each report with a positive
    /// amount and a trusted source is credited to the account's slot for
    /// that source. Either every credit is applied or, where one would fail,
    /// none is.
    pub fn settle_collect(&mut self, account_id: &String, reports: &Vec<(String, Report)>) -> (r: Result<(), DripError>)
        requires
            old(self).wf(),
        ensures
            final(self).wf(),
            final(self).owner_id == old(self).owner_id,
            final(self).current_account_id == old(self).current_account_id,
            final(self).white_list == old(self).white_list,
            final(self).coe_map == old(self).coe_map,
            ({
                let cs = credits(
                    report_amounts(reports@, old(self).coe_map),
                    old(self).current_account_id@,
                    old(self).white_list.deep_view(),
                );
                let m = old(self).token@;
                &&& (r == Err::<(), DripError>(DripError::NotRegistered)) <==> (cs.len() > 0
                    && !m.registered.contains(account_id@))
                &&& (r == Err::<(), DripError>(DripError::SupplyOverflow)) <==> ((cs.len() == 0
                    || m.registered.contains(account_id@)) && m.total_supply + credits_total(cs)
                    > u128::MAX)
                &&& r is Err ==> r == Err::<(), DripError>(DripError::NotRegistered) || r == Err::<
                    (),
                    DripError,
                >(DripError::SupplyOverflow)
                &&& r is Err ==> final(self).token@ == m
                &&& r is Ok ==> final(self).token@ == apply_credits(m, account_id@, cs)
            }),
    {
        let ghost m = self.token@;
        let ghost own = self.current_account_id@;
        let ghost allow = self.white_list.deep_view();
        let ghost items = report_amounts(reports@, self.coe_map);
        let mut plan: Vec<(String, u128)> = Vec::new();
        let mut sum: u128 = 0;
        let mut overflowed = false;
        let mut i: usize = 0;
        while i < reports.len()
            invariant
                i <= reports@.len(),
                items == report_amounts(reports@, self.coe_map),
                own == self.current_account_id@,
                allow == self.white_list.deep_view(),
                plan@.map_values(|p: (String, u128)| (p.0@, p.1 as nat)) == credits(
                    items.take(i as int),
                    own,
                    allow,
                ),
                !overflowed ==> sum == credits_total(
                    plan@.map_values(|p: (String, u128)| (p.0@, p.1 as nat)),
                ),
                overflowed ==> credits_total(plan@.map_values(|p: (String, u128)| (p.0@, p.1 as nat)))
                    > u128::MAX,
                overflowed ==> plan@.len() > 0,
            decreases reports@.len() - i,
        {
            proof {
                assert(items.take(i + 1).drop_last() =~= items.take(i as int));
            }
            let source = &reports[i].0;
            let amount = report_credit(&reports[i].1, &self.coe_map);
            if amount > 0 && is_trusted(source, &self.current_account_id, &self.white_list) {
                let ghost before = plan@.map_values(|p: (String, u128)| (p.0@, p.1 as nat));
                plan.push((source.clone(), amount));
                proof {
                    let after = plan@.map_values(|p: (String, u128)| (p.0@, p.1 as nat));
                    assert(after =~= before.push((source@, amount as nat)));
                    assert(after.drop_last() =~= before);
                }
                if !overflowed {
                    if sum > u128::MAX - amount {
                        overflowed = true;
                    } else {
                        sum = sum + amount;
                    }
                }
            }
            i = i + 1;
        }
        let ghost cs = plan@.map_values(|p: (String, u128)| (p.0@, p.1 as nat));
        proof {
            assert(items.take(i as int) =~= items);
            lemma_credits_trusted(items, own, allow);
        }
        if plan.len() > 0 && !self.token.is_registered(account_id) {
            return Err(DripError::NotRegistered);
        }
        if overflowed || self.token.ft_total_supply() > u128::MAX - sum {
            return Err(DripError::SupplyOverflow);
        }
        let mut j: usize = 0;
        while j < plan.len()
            invariant
                j <= plan@.len(),
                cs == plan@.map_values(|p: (String, u128)| (p.0@, p.1 as nat)),
                cs == credits(items, own, allow),
                plan@.len() > 0 ==> m.registered.contains(account_id@),
                m.total_supply + credits_total(cs) <= u128::MAX,
                self.token.wf(),
                self.token@ == apply_credits(m, account_id@, cs.take(j as int)),
                own == self.current_account_id@,
                allow == self.white_list.deep_view(),
                self.owner_id == old(self).owner_id,
                self.current_account_id == old(self).current_account_id,
                self.white_list == old(self).white_list,
                self.coe_map == old(self).coe_map,
                forall|k: int| 0 <= k < cs.len() ==> trusted(#[trigger] cs[k].0, own, allow),
            decreases plan@.len() - j,
        {
            proof {
                assert(cs.take(j + 1).drop_last() =~= cs.take(j as int));
                lemma_apply_credits_shape(m, account_id@, cs.take(j as int));
                lemma_credits_total_prefix(cs, j + 1);
                lemma_balance_le_supply(&self.token, (account_id@, Some(cs[j as int].0)));
                assert(cs.take(j + 1).last() == cs[j as int]);
                assert(plan@[j as int].0@ == cs[j as int].0 && plan@[j as int].1 == cs[j as int].1);
            }
            proof {
                let mj = self.token@;
                let k = (account_id@, Some(cs[j as int].0));
                assert(trusted(cs[j as int].0, own, allow));
                assert(mj.registered.contains(account_id@));
                assert(credits_total(cs.take(j + 1)) == credits_total(cs.take(j as int)) + cs[j as int].1);
                assert(mj.total_supply + cs[j as int].1 <= u128::MAX);
                assert(mj.balance(k) + cs[j as int].1 <= u128::MAX);
            }
            let r = self.internal_set_drip(plan[j].1, &plan[j].0, account_id);
            assert(r is Ok);
            j = j + 1;
        }
        proof {
            assert(cs.take(j as int) =~= cs);
        }
        Ok(())
    }

    /// Reconciles a collection batch once its calls have all resolved: the
    /// i-th result belongs to the i-th source of the batch; failed or
    /// unresolved calls credit nothing; each successful reply is decoded and
    /// credited as `settle_collect` does.
    pub fn resolve_collect(&mut self, collects: &Vec<String>, account_id: &String, results: &Vec<PromiseOutcome>) -> (r: Result<(), DripError>)
        requires
            old(self).wf(),
        ensures
            final(self).wf(),
            final(self).owner_id == old(self).owner_id,
            final(self).current_account_id == old(self).current_account_id,
            final(self).white_list == old(self).white_list,
            final(self).coe_map == old(self).coe_map,
            ({
                let cs = credits(
                    reply_amounts(successful_replies(collects.deep_view(), results@), old(self).coe_map),
                    old(self).current_account_id@,
                    old(self).white_list.deep_view(),
                );
                let m = old(self).token@;
                &&& (r == Err::<(), DripError>(DripError::NotRegistered)) <==> (cs.len() > 0
                    && !m.registered.contains(account_id@))
                &&& (r == Err::<(), DripError>(DripError::SupplyOverflow)) <==> ((cs.len() == 0
                    || m.registered.contains(account_id@)) && m.total_supply + credits_total(cs)
                    > u128::MAX)
                &&& r is Err ==> r == Err::<(), DripError>(DripError::NotRegistered) || r == Err::<
                    (),
                    DripError,
                >(DripError::SupplyOverflow)
                &&& r is Err ==> final(self).token@ == m
                &&& r is Ok ==> final(self).token@ == apply_credits(m, account_id@, cs)
            }),
    {
        let reports = pair_replies(collects, results);
        proof {
            let replies = successful_replies(collects.deep_view(), results@);
            assert forall|j: int| 0 <= j < reports@.len() implies report_amounts(reports@, self.coe_map)[j]
                == reply_amounts(replies, self.coe_map)[j] by {
                lemma_decoded_credit(replies[j].1, reports@[j].1, self.coe_map);
            }
            assert(report_amounts(reports@, self.coe_map) =~= reply_amounts(replies, self.coe_map));
        }
        self.settle_collect(account_id, &reports)
    }
}

} // verus!
