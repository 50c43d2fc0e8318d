//! Replies of remote calls: their outcome as the host reports it, how a reply
//! body decodes, and the weighting that turns a metric report into one amount.

use vstd::prelude::*;

verus! {

/// What one remote call came to, as the host reports it.
#[derive(Debug, Clone)]
pub enum PromiseOutcome {
    /// The call returned; its reply body.
    Successful(Vec<u8>),
    /// The call failed.
    Failed,
    /// The call has not resolved.
    NotReady,
}

/// A collection reply, decoded: a single amount first, else a mapping from
/// metric name to amount, else nothing usable.
#[derive(Debug, Clone)]
pub enum Report {
    Amount(u128),
    Metrics(Vec<(String, u128)>),
    Unreadable,
}

/// Which coefficient a metric gets when the weighting table does not list it.
#[derive(Debug, Clone, Copy, PartialEq, Eq, Structural)]
pub enum MissingCoefficient {
    /// Coefficient 0: the metric is ignored.
    Ignore,
    /// Coefficient 1: the metric counts unweighted.
    PassThrough,
}

/// Coefficients by metric name. Where a name is listed twice, its first entry
/// counts.
#[derive(Debug, Clone)]
pub struct WeightTable {
    pub coefficients: Vec<(String, u128)>,
    pub missing: MissingCoefficient,
}

pub open spec fn pairs_view(s: Seq<(String, u128)>) -> Seq<(Seq<char>, u128)> {
    s.map_values(|p: (String, u128)| (p.0@, p.1))
}

/// The amount that a reply body holds as a JSON string whose text parses as a
/// base-10 `u128`.
pub uninterp spec fn json_u128(b: Seq<u8>) -> Option<u128>;

/// The metric mapping that a reply body holds as a JSON object of numbers,
/// in ascending order of name.
pub uninterp spec fn json_metric_map(b: Seq<u8>) -> Option<Seq<(Seq<char>, u128)>>;

/// Relies on serde_json::from_slice into near_sdk::json_types::U128, which
/// reads a JSON string and parses it as a base-10 `u128`.
#[verifier::external_body]
pub(crate) fn decode_u128(bytes: &Vec<u8>) -> (r: Option<u128>)
    ensures
        r == json_u128(bytes@),
{
    serde_json::from_slice::<near_sdk::json_types::U128>(bytes).ok().map(|v| v.0)
}

/// Relies on serde_json::from_slice into a `BTreeMap<String, u128>`, which
/// reads a JSON object whose values are integers; the entries come out in
/// ascending order of name.
#[verifier::external_body]
fn decode_metric_map(bytes: &Vec<u8>) -> (r: Option<Vec<(String, u128)>>)
    ensures
        match r {
            Some(v) => json_metric_map(bytes@) == Some(pairs_view(v@)),
            None => json_metric_map(bytes@) is None,
        },
{
    serde_json::from_slice::<std::collections::BTreeMap<String, u128>>(bytes).ok().map(
        |m| m.into_iter().collect(),
    )
}

/// `r` is what the reply body `b` decodes to.
pub open spec fn decodes_to(b: Seq<u8>, r: Report) -> bool {
    match json_u128(b) {
        Some(n) => r == Report::Amount(n),
        None => match json_metric_map(b) {
            Some(m) => r is Metrics && pairs_view(r->Metrics_0@) == m,
            None => r is Unreadable,
        },
    }
}

/// Decodes a collection reply: a single amount where the body is one, else a
/// metric mapping where it is one, else `Unreadable`.
pub fn decode_report(bytes: &Vec<u8>) -> (r: Report)
    ensures
        decodes_to(bytes@, r),
{
    match decode_u128(bytes) {
        Some(n) => Report::Amount(n),
        None => match decode_metric_map(bytes) {
            Some(m) => Report::Metrics(m),
            None => Report::Unreadable,
        },
    }
}

/// The first coefficient listed for `name`.
pub open spec fn lookup(table: Seq<(Seq<char>, u128)>, name: Seq<char>) -> Option<u128>
    decreases table.len(),
{
    if table.len() == 0 {
        None
    } else if table[0].0 == name {
        Some(table[0].1)
    } else {
        lookup(table.drop_first(), name)
    }
}

pub open spec fn default_coefficient(missing: MissingCoefficient) -> nat {
    match missing {
        MissingCoefficient::Ignore => 0,
        MissingCoefficient::PassThrough => 1,
    }
}

/// The coefficient that `name` gets under the table.
pub open spec fn coefficient(table: Seq<(Seq<char>, u128)>, missing: MissingCoefficient, name: Seq<char>) -> nat {
    match lookup(table, name) {
        Some(c) => c as nat,
        None => default_coefficient(missing),
    }
}

/// The sum, over the entries of a metric report, of the metric's coefficient
/// times its value.
pub open spec fn weighted_sum(
    report: Seq<(Seq<char>, u128)>,
    table: Seq<(Seq<char>, u128)>,
    missing: MissingCoefficient,
) -> nat
    decreases report.len(),
{
    if report.len() == 0 {
        0
    } else {
        weighted_sum(report.drop_last(), table, missing) + coefficient(table, missing, report.last().0)
            * (report.last().1 as nat)
    }
}

proof fn lemma_lookup_skip(table: Seq<(Seq<char>, u128)>, name: Seq<char>, i: int)
    requires
        0 <= i <= table.len(),
        forall|j: int| 0 <= j < i ==> table[j].0 != name,
    ensures
        lookup(table, name) == lookup(table.subrange(i, table.len() as int), name),
    decreases i,
{
    if i > 0 {
        lemma_lookup_skip(table.drop_first(), name, i - 1);
        assert(table.drop_first().subrange(i - 1, table.drop_first().len() as int) =~= table.subrange(
            i,
            table.len() as int,
        ));
    } else {
        assert(table.subrange(0, table.len() as int) =~= table);
    }
}

proof fn lemma_weighted_prefix_le(
    report: Seq<(Seq<char>, u128)>,
    table: Seq<(Seq<char>, u128)>,
    missing: MissingCoefficient,
    i: int,
)
    requires
        0 <= i <= report.len(),
    ensures
        weighted_sum(report.take(i), table, missing) <= weighted_sum(report, table, missing),
    decreases report.len() - i,
{
    if i < report.len() {
        lemma_weighted_prefix_le(report, table, missing, i + 1);
        assert(report.take(i + 1).drop_last() =~= report.take(i));
    } else {
        assert(report.take(i) =~= report);
    }
}

/// The coefficient of `name` under the table.
pub fn coefficient_of(table: &WeightTable, name: &String) -> (r: u128)
    ensures
        r == coefficient(pairs_view(table.coefficients@), table.missing, name@),
{
    let ghost t = pairs_view(table.coefficients@);
    let mut i: usize = 0;
    while i < table.coefficients.len()
        invariant
            i <= table.coefficients@.len(),
            t == pairs_view(table.coefficients@),
            forall|j: int| 0 <= j < i ==> t[j].0 != name@,
        decreases table.coefficients@.len() - i,
    {
        if table.coefficients[i].0 == *name {
            proof {
                lemma_lookup_skip(t, name@, i as int);
            }
            return table.coefficients[i].1;
        }
        i = i + 1;
    }
    proof {
        lemma_lookup_skip(t, name@, i as int);
    }
    match table.missing {
        MissingCoefficient::Ignore => 0,
        MissingCoefficient::PassThrough => 1,
    }
}

/// The weighted amount of a metric report, or `None` where it exceeds
/// `u128::MAX`.
pub fn weighted_amount(report: &Vec<(String, u128)>, table: &WeightTable) -> (r: Option<u128>)
    ensures
        ({
            let w = weighted_sum(pairs_view(report@), pairs_view(table.coefficients@), table.missing);
            match r {
                Some(n) => n == w,
                None => w > u128::MAX,
            }
        }),
{
    let ghost rep = pairs_view(report@);
    let ghost tab = pairs_view(table.coefficients@);
    let mut total: u128 = 0;
    let mut i: usize = 0;
    while i < report.len()
        invariant
            i <= report@.len(),
            rep == pairs_view(report@),
            tab == pairs_view(table.coefficients@),
            total == weighted_sum(rep.take(i as int), tab, table.missing),
        decreases report@.len() - i,
    {
        let c = coefficient_of(table, &report[i].0);
        let v = report[i].1;
        proof {
            assert(rep.take(i + 1).drop_last() =~= rep.take(i as int));
            lemma_weighted_prefix_le(rep, tab, table.missing, i + 1);
        }
        match c.checked_mul(v) {
            Some(term) => match total.checked_add(term) {
                Some(t) => {
                    total = t;
                },
                None => {
                    return None;
                },
            },
            None => {
                return None;
            },
        }
        i = i + 1;
    }
    proof {
        assert(rep.take(i as int) =~= rep);
    }
    Some(total)
}

/// The amount that a decoded report credits: the amount itself, the
/// weighted sum of a metric report where it fits in a `u128`, and zero
/// otherwise.
pub open spec fn credit_of(report: Report, table: WeightTable) -> nat {
    match report {
        Report::Amount(n) => n as nat,
        Report::Metrics(m) => {
            let w = weighted_sum(pairs_view(m@), pairs_view(table.coefficients@), table.missing);
            if w <= u128::MAX {
                w
            } else {
                0
            }
        },
        Report::Unreadable => 0,
    }
}

/// The amount that a reply body credits under the table, read through the
/// same decoding as `decode_report`.
pub open spec fn reply_credit(b: Seq<u8>, table: WeightTable) -> nat {
    match json_u128(b) {
        Some(n) => n as nat,
        None => match json_metric_map(b) {
            Some(m) => {
                let w = weighted_sum(m, pairs_view(table.coefficients@), table.missing);
                if w <= u128::MAX {
                    w
                } else {
                    0
                }
            },
            None => 0,
        },
    }
}

/// A decoded report credits what its reply body credits.
pub proof fn lemma_decoded_credit(b: Seq<u8>, r: Report, table: WeightTable)
    requires
        decodes_to(b, r),
    ensures
        credit_of(r, table) == reply_credit(b, table),
{
}

/// The amount that a decoded report credits under the table.
pub fn report_credit(report: &Report, table: &WeightTable) -> (r: u128)
    ensures
        r == credit_of(*report, *table),
{
    match report {
        Report::Amount(n) => *n,
        Report::Metrics(m) => match weighted_amount(m, table) {
            Some(w) => w,
            None => 0,
        },
        Report::Unreadable => 0,
    }
}

} // verus!
