//! The redemption protocol: debit a slot before one remote call, then refund
//! what the remote party did not accept.

use crate::error::DripError;
use crate::ledger::{FungibleToken, LedgerModel, SlotKey};
use crate::reply::{decode_u128, json_u128, PromiseOutcome};
use vstd::prelude::*;

verus! {

/// Budget of the reconciliation step of a redemption.
pub const GAS_FOR_RESOLVE_TRANSFER: u64 = 5_000_000_000_000;

/// Budget that a redemption keeps back for itself and its reconciliation.
pub const GAS_FOR_FT_TRANSFER_CALL: u64 = 30_000_000_000_000;

/// The remote call to issue for a redemption: `ft_on_burn(owner_id, amount,
/// msg)` on `contract_id`, with `gas`, then the reconciliation.
pub struct BurnCall {
    pub contract_id: String,
    pub owner_id: String,
    pub amount: u128,
    pub msg: String,
    pub gas: u64,
}

/// The remote party's answer to a redemption, decoded.
#[derive(Debug, Clone, Copy, PartialEq, Eq, Structural)]
pub enum BurnReply {
    /// It reports this amount unused.
    Unused(u128),
    /// It replied with an empty body.
    Empty,
    /// Its reply could not be read as an amount.
    Unreadable,
    /// The call failed or did not resolve.
    Failed,
}

/// Where a redemption ends.
#[derive(Debug, Clone, Copy, PartialEq, Eq, Structural)]
pub enum RedemptionState {
    /// Nothing was refunded.
    Finalized,
    /// The whole amount was refunded.
    Refunded,
    /// Part of the amount was refunded.
    PartiallyRefunded,
}

/// What the outcome of the acceptance call decodes to.
pub open spec fn burn_reply_of(outcome: PromiseOutcome) -> BurnReply {
    match outcome {
        PromiseOutcome::Successful(b) => if b@.len() == 0 {
            BurnReply::Empty
        } else {
            match json_u128(b@) {
                Some(n) => BurnReply::Unused(n),
                None => BurnReply::Unreadable,
            }
        },
        _ => BurnReply::Failed,
    }
}

/// The amount refunded for a redemption of `amount`: what the remote party
/// reports unused, at most `amount`; nothing for an empty reply; everything
/// where the reply is unreadable or the call failed.
pub open spec fn refund_for(amount: nat, reply: BurnReply) -> nat {
    match reply {
        BurnReply::Unused(n) => if n < amount {
            n as nat
        } else {
            amount
        },
        BurnReply::Empty => 0,
        BurnReply::Unreadable => amount,
        BurnReply::Failed => amount,
    }
}

pub open spec fn state_for(amount: nat, refund: nat) -> RedemptionState {
    if refund == 0 {
        RedemptionState::Finalized
    } else if refund == amount {
        RedemptionState::Refunded
    } else {
        RedemptionState::PartiallyRefunded
    }
}

/// The ledger after a redemption of `amount` from slot `k` is debited and
/// then reconciled with `reply`.
pub open spec fn redeemed(m: LedgerModel, k: SlotKey, amount: nat, reply: BurnReply) -> LedgerModel {
    let refund = refund_for(amount, reply);
    if refund > 0 {
        m.withdrawn(k, amount).deposited(k, refund)
    } else {
        m.withdrawn(k, amount)
    }
}

/// Decodes the outcome of the acceptance call.
pub fn decode_burn_reply(outcome: &PromiseOutcome) -> (r: BurnReply)
    ensures
        r == burn_reply_of(*outcome),
{
    match outcome {
        PromiseOutcome::Successful(body) => {
            if body.len() == 0 {
                BurnReply::Empty
            } else {
                match decode_u128(body) {
                    Some(n) => BurnReply::Unused(n),
                    None => BurnReply::Unreadable,
                }
            }
        },
        _ => BurnReply::Failed,
    }
}

/// The amount to refund for a redemption of `amount` answered by `reply`.
pub fn refund_amount(amount: u128, reply: &BurnReply) -> (r: u128)
    ensures
        r == refund_for(amount as nat, *reply),
{
    match reply {
        BurnReply::Unused(n) => if *n < amount {
            *n
        } else {
            amount
        },
        BurnReply::Empty => 0,
        BurnReply::Unreadable => amount,
        BurnReply::Failed => amount,
    }
}

/// The state in which a redemption of `amount` ends after refunding `refund`.
pub fn redemption_state(amount: u128, refund: u128) -> (r: RedemptionState)
    ensures
        r == state_for(amount as nat, refund as nat),
{
    if refund == 0 {
        RedemptionState::Finalized
    } else if refund == amount {
        RedemptionState::Refunded
    } else {
        RedemptionState::PartiallyRefunded
    }
}

impl FungibleToken {
    /// Starts a redemption: checks the one-unit authorization payment and the
    /// budget, debits `amount` from the sender's slot for the source before
    /// any remote call, and returns the call to issue.
    pub fn ft_burn_call(
        &mut self,
        sender_id: &String,
        contract_id: String,
        amount: u128,
        msg: String,
        attached_deposit: u128,
        prepaid_gas: u64,
    ) -> (r: Result<BurnCall, DripError>)
        requires
            old(self).wf(),
        ensures
            final(self).wf(),
            ({
                let k = (sender_id@, Some(contract_id@));
                let m = old(self)@;
                let pays = attached_deposit == 1;
                let budget = prepaid_gas > GAS_FOR_FT_TRANSFER_CALL;
                &&& r is Ok <==> (pays && budget && m.registered.contains(k.0) && m.balance(k) >= amount)
                &&& (r == Err::<BurnCall, DripError>(DripError::InsufficientDeposit)) <==> !pays
                &&& (r == Err::<BurnCall, DripError>(DripError::InsufficientBudget)) <==> (pays && !budget)
                &&& (r == Err::<BurnCall, DripError>(DripError::NotRegistered)) <==> (pays && budget
                    && !m.registered.contains(k.0))
                &&& (r == Err::<BurnCall, DripError>(DripError::InsufficientBalance)) <==> (pays && budget
                    && m.registered.contains(k.0) && m.balance(k) < amount)
                &&& r is Err ==> final(self)@ == m
                &&& match r {
                    Ok(call) => {
                        &&& final(self)@ == m.withdrawn(k, amount as nat)
                        &&& call.contract_id@ == contract_id@
                        &&& call.owner_id@ == sender_id@
                        &&& call.amount == amount
                        &&& call.msg@ == msg@
                        &&& call.gas == prepaid_gas - GAS_FOR_FT_TRANSFER_CALL
                    },
                    Err(_) => true,
                }
            }),
    {
        if attached_deposit != 1 {
            return Err(DripError::InsufficientDeposit);
        }
        if prepaid_gas <= GAS_FOR_FT_TRANSFER_CALL {
            return Err(DripError::InsufficientBudget);
        }
        let source = Some(contract_id.clone());
        match self.internal_withdraw(sender_id, amount, &source) {
            Ok(()) => Ok(
                BurnCall {
                    contract_id,
                    owner_id: sender_id.clone(),
                    amount,
                    msg,
                    gas: prepaid_gas - GAS_FOR_FT_TRANSFER_CALL,
                },
            ),
            Err(e) => Err(e),
        }
    }

    /// Reconciles a redemption of `amount` from the owner's slot for the
    /// source, given the remote party's decoded answer: refunds what it did
    /// not accept and returns (used amount, burned amount).
    pub fn internal_ft_resolve_burn(
        &mut self,
        owner_id: &String,
        amount: u128,
        contract_id: &String,
        reply: &BurnReply,
    ) -> (r: Result<(u128, u128), DripError>)
        requires
            old(self).wf(),
        ensures
            final(self).wf(),
            ({
                let k = (owner_id@, Some(contract_id@));
                let m = old(self)@;
                let refund = refund_for(amount as nat, *reply);
                if refund == 0 {
                    r == Ok::<(u128, u128), DripError>((amount, 0u128)) && final(self)@ == m
                } else {
                    &&& r is Ok <==> (m.registered.contains(k.0) && m.balance(k) + refund <= u128::MAX
                        && m.total_supply + refund <= u128::MAX)
                    &&& (r == Err::<(u128, u128), DripError>(DripError::NotRegistered)) <==> !m.registered.contains(k.0)
                    &&& (r == Err::<(u128, u128), DripError>(DripError::BalanceOverflow)) <==> (
                    m.registered.contains(k.0) && m.balance(k) + refund > u128::MAX)
                    &&& (r == Err::<(u128, u128), DripError>(DripError::SupplyOverflow)) <==> (
                    m.registered.contains(k.0) && m.balance(k) + refund <= u128::MAX && m.total_supply
                        + refund > u128::MAX)
                    &&& r is Err ==> final(self)@ == m
                    &&& r is Ok ==> r == Ok::<(u128, u128), DripError>(((amount - refund) as u128, 0u128))
                        && final(self)@ == m.deposited(k, refund)
                }
            }),
    {
        let refund = refund_amount(amount, reply);
        if refund > 0 {
            let source = Some(contract_id.clone());
            match self.internal_deposit(owner_id, refund, &source) {
                Ok(()) => Ok((amount - refund, 0)),
                Err(e) => Err(e),
            }
        } else {
            Ok((amount, 0))
        }
    }

    /// The reconciliation step of a redemption: decodes the outcome of the
    /// acceptance call, refunds as `internal_ft_resolve_burn` does, and
    /// returns the amount used.
    pub fn ft_resolve_burn(
        &mut self,
        owner_id: &String,
        amount: u128,
        contract_id: &String,
        outcome: &PromiseOutcome,
    ) -> (r: Result<u128, DripError>)
        requires
            old(self).wf(),
        ensures
            final(self).wf(),
            ({
                let k = (owner_id@, Some(contract_id@));
                let m = old(self)@;
                let refund = refund_for(amount as nat, burn_reply_of(*outcome));
                &&& r is Err ==> refund > 0 && final(self)@ == m
                &&& r is Ok ==> r == Ok::<u128, DripError>((amount - refund) as u128) && final(self)@ == (
                if refund > 0 {
                    m.deposited(k, refund)
                } else {
                    m
                })
                &&& refund > 0 ==> (r is Ok <==> (m.registered.contains(k.0) && m.balance(k) + refund
                    <= u128::MAX && m.total_supply + refund <= u128::MAX))
                &&& refund == 0 ==> r is Ok
            }),
    {
        let reply = decode_burn_reply(outcome);
        match self.internal_ft_resolve_burn(owner_id, amount, contract_id, &reply) {
            Ok((used, _)) => Ok(used),
            Err(e) => Err(e),
        }
    }
}

/// A redemption that is debited and then reconciled leaves the slot at its
/// old balance less the amount the remote party kept (`amount - refund`),
/// and the total supply likewise.
pub proof fn lemma_redemption_net(m: LedgerModel, k: SlotKey, amount: nat, reply: BurnReply)
    requires
        m.balance(k) >= amount,
        m.total_supply >= amount,
    ensures
        ({
            let after = redeemed(m, k, amount, reply);
            let refund = refund_for(amount, reply);
            &&& refund <= amount
            &&& after.balance(k) == m.balance(k) - amount + refund
            &&& after.total_supply == m.total_supply - amount + refund
            &&& after.registered == m.registered
        }),
{
}

/// A redemption whose acceptance call fails, or whose reply cannot be read,
/// restores the ledger exactly as it was before the debit.
pub proof fn lemma_redemption_failure_restores(m: LedgerModel, k: SlotKey, amount: nat, reply: BurnReply)
    requires
        m.balance(k) >= amount,
        m.total_supply >= amount,
        reply == BurnReply::Failed || reply == BurnReply::Unreadable,
    ensures
        redeemed(m, k, amount, reply) == m,
{
    assert(redeemed(m, k, amount, reply).balances =~= m.balances);
}

} // verus!
