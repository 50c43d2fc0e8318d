//! A ledger of "drip" balances kept per account and per source, with the
//! decision logic of the two asynchronous protocols built on it: collecting
//! drip from many sources at once, and redeeming drip against one source.
//!
//! The host (the chain runtime) is not part of the library: whatever it reports
//! (the caller, the attached payment, the budget, the outcome of each remote
//! call) comes in as plain values, and what it is to do comes back as plain
//! values (`CollectBatch`, `BurnCall`).

pub mod account;
pub mod collect;
pub mod error;
pub mod ledger;
pub mod redeem;
pub mod reply;

pub use account::{expect_register, get_root_id, is_trusted};
pub use collect::{pair_replies, CollectBatch, CollectRequest, Contract};
pub use error::DripError;
pub use ledger::FungibleToken;
pub use redeem::{decode_burn_reply, redemption_state, refund_amount, BurnCall, BurnReply, RedemptionState};
pub use reply::{
    coefficient_of, decode_report, report_credit, weighted_amount, MissingCoefficient, PromiseOutcome, Report,
    WeightTable,
};
