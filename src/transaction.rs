//! Ledger records: one parsed line of the transaction log.
use vstd::prelude::*;

verus! {

/// Kind of a ledger record, as named in the log's `type` column.
#[derive(Clone, Copy, Debug, PartialEq, Eq, Structural)]
pub enum TransactionType {
    Deposit,
    Withdrawal,
    Dispute,
    Resolve,
    Chargeback,
}

/// One validated ledger record. Deposits and withdrawals carry an amount
/// in ten-thousandths; the dispute family refers to an earlier record by
/// its transaction id.
#[derive(Clone, Copy, Debug, PartialEq, Eq, Structural)]
pub enum TransactionLog {
    Deposit { client_id: u16, tx_id: u32, amount: u128 },
    Withdrawal { client_id: u16, tx_id: u32, amount: u128 },
    Dispute { client_id: u16, tx_id: u32 },
    Resolve { client_id: u16, tx_id: u32 },
    Chargeback { client_id: u16, tx_id: u32 },
}

/// Dispute state of a transaction id within one account.
#[derive(Clone, Copy, Debug, PartialEq, Eq, Structural)]
pub enum DisputeState {
    Undisputed,
    /// Currently disputed; the amount held for it.
    Disputed(u128),
    /// Disputed and charged back: final.
    Chargeback,
}

impl TransactionLog {
    pub open spec fn spec_transaction_type(&self) -> TransactionType {
        match *self {
            TransactionLog::Deposit { .. } => TransactionType::Deposit,
            TransactionLog::Withdrawal { .. } => TransactionType::Withdrawal,
            TransactionLog::Dispute { .. } => TransactionType::Dispute,
            TransactionLog::Resolve { .. } => TransactionType::Resolve,
            TransactionLog::Chargeback { .. } => TransactionType::Chargeback,
        }
    }

    pub open spec fn spec_client_id(&self) -> u16 {
        match *self {
            TransactionLog::Deposit { client_id, .. } => client_id,
            TransactionLog::Withdrawal { client_id, .. } => client_id,
            TransactionLog::Dispute { client_id, .. } => client_id,
            TransactionLog::Resolve { client_id, .. } => client_id,
            TransactionLog::Chargeback { client_id, .. } => client_id,
        }
    }

    pub open spec fn spec_transaction_id(&self) -> u32 {
        match *self {
            TransactionLog::Deposit { tx_id, .. } => tx_id,
            TransactionLog::Withdrawal { tx_id, .. } => tx_id,
            TransactionLog::Dispute { tx_id, .. } => tx_id,
            TransactionLog::Resolve { tx_id, .. } => tx_id,
            TransactionLog::Chargeback { tx_id, .. } => tx_id,
        }
    }

    pub open spec fn spec_amount(&self) -> Option<u128> {
        match *self {
            TransactionLog::Deposit { amount, .. } => Some(amount),
            TransactionLog::Withdrawal { amount, .. } => Some(amount),
            _ => None,
        }
    }

    #[verifier::when_used_as_spec(spec_transaction_type)]
    pub fn transaction_type(&self) -> (r: TransactionType)
        ensures
            r == self.spec_transaction_type(),
    {
        match self {
            TransactionLog::Deposit { .. } => TransactionType::Deposit,
            TransactionLog::Withdrawal { .. } => TransactionType::Withdrawal,
            TransactionLog::Dispute { .. } => TransactionType::Dispute,
            TransactionLog::Resolve { .. } => TransactionType::Resolve,
            TransactionLog::Chargeback { .. } => TransactionType::Chargeback,
        }
    }

    #[verifier::when_used_as_spec(spec_client_id)]
    pub fn client_id(&self) -> (r: u16)
        ensures
            r == self.spec_client_id(),
    {
        match self {
            TransactionLog::Deposit { client_id, .. } => *client_id,
            TransactionLog::Withdrawal { client_id, .. } => *client_id,
            TransactionLog::Dispute { client_id, .. } => *client_id,
            TransactionLog::Resolve { client_id, .. } => *client_id,
            TransactionLog::Chargeback { client_id, .. } => *client_id,
        }
    }

    #[verifier::when_used_as_spec(spec_transaction_id)]
    pub fn transaction_id(&self) -> (r: u32)
        ensures
            r == self.spec_transaction_id(),
    {
        match self {
            TransactionLog::Deposit { tx_id, .. } => *tx_id,
            TransactionLog::Withdrawal { tx_id, .. } => *tx_id,
            TransactionLog::Dispute { tx_id, .. } => *tx_id,
            TransactionLog::Resolve { tx_id, .. } => *tx_id,
            TransactionLog::Chargeback { tx_id, .. } => *tx_id,
        }
    }

    #[verifier::when_used_as_spec(spec_amount)]
    pub fn amount(&self) -> (r: Option<u128>)
        ensures
            r == self.spec_amount(),
    {
        match self {
            TransactionLog::Deposit { amount, .. } => Some(*amount),
            TransactionLog::Withdrawal { amount, .. } => Some(*amount),
            _ => None,
        }
    }
}


/// Largest amount or balance, in ten-thousandths: the largest mantissa of a
/// 96-bit decimal.
pub const MAX_UNITS: u128 = 79228162514264337593543950335;

/// Largest number of fractional digits a decimal written in the log carries.
pub const MAX_SCALE: u32 = 28;

pub open spec fn pow10(n: nat) -> nat
    decreases n,
{
    if n == 0 {
        1
    } else {
        10 * pow10((n - 1) as nat)
    }
}

/// `units` ten-thousandths are exactly the decimal `mantissa / 10^scale`.
pub open spec fn denotes(units: nat, mantissa: int, scale: nat) -> bool {
    units * pow10(scale) == mantissa * 10000
}

pub proof fn lemma_pow10_add(a: nat, b: nat)
    ensures
        pow10(a + b) == pow10(a) * pow10(b),
        pow10(a) > 0,
    decreases a,
{
    if a > 0 {
        lemma_pow10_add((a - 1) as nat, b);
        assert(((a - 1) as nat + b) == (a + b - 1) as nat);
        assert(pow10(a + b) == 10 * pow10((a + b - 1) as nat));
        assert(pow10(a) == 10 * pow10((a - 1) as nat));
        assert(10 * (pow10((a - 1) as nat) * pow10(b)) == (10 * pow10((a - 1) as nat)) * pow10(b))
            by (nonlinear_arith);
        assert(pow10(a + b) == pow10(a) * pow10(b));
    } else {
        assert(pow10(a) == 1);
        assert(a + b == b);
    }
}

fn pow10_exec(n: u32) -> (r: u128)
    requires
        n <= MAX_SCALE,
    ensures
        r == pow10(n as nat),
{
    let mut r: u128 = 1;
    let mut i: u32 = 0;
    while i < n
        invariant
            i <= n <= MAX_SCALE,
            r == pow10(i as nat),
            r <= 10000000000000000000000000000u128,
        decreases n - i,
    {
        proof {
            lemma_pow10_add(i as nat, 1);
            assert(pow10(1) == 10) by {
                reveal_with_fuel(pow10, 2);
            }
            lemma_pow10_add(i as nat, (MAX_SCALE - i - 1) as nat);
            lemma_pow10_add((i + 1) as nat, (MAX_SCALE - i - 1) as nat);
            lemma_pow10_max();
            assert(pow10((i + 1) as nat) <= pow10(MAX_SCALE as nat)) by (nonlinear_arith)
                requires
                    pow10((i + 1) as nat) * pow10((MAX_SCALE - i - 1) as nat) == pow10(MAX_SCALE as nat),
                    pow10((MAX_SCALE - i - 1) as nat) > 0,
            ;
        }
        r = r * 10;
        i = i + 1;
    }
    r
}

proof fn lemma_pow10_max()
    ensures
        pow10(MAX_SCALE as nat) == 10000000000000000000000000000nat,
{
    reveal_with_fuel(pow10, 29);
}

/// Converts the decimal `mantissa / 10^scale` to ten-thousandths. The result
/// is `Some` exactly when the decimal is a non-negative multiple of 0.0001 no
/// larger than `MAX_UNITS` ten-thousandths.
pub fn units_from_decimal(mantissa: i128, scale: u32) -> (r: Option<u128>)
    requires
        scale <= MAX_SCALE,
    ensures
        r matches Some(u) ==> u <= MAX_UNITS && denotes(u as nat, mantissa as int, scale as nat),
        r is None ==> forall|u: nat| u <= MAX_UNITS ==> !denotes(u, mantissa as int, scale as nat),
{
    if mantissa < 0 {
        proof {
            assert forall|u: nat| u <= MAX_UNITS implies !denotes(u, mantissa as int, scale as nat) by {
                lemma_pow10_add(scale as nat, 0);
                assert(u * pow10(scale as nat) >= 0) by (nonlinear_arith)
                    requires
                        pow10(scale as nat) > 0,
                ;
            }
        }
        return None;
    }
    let m = mantissa as u128;
    if scale <= 4 {
        let f = pow10_exec(4 - scale);
        proof {
            lemma_pow10_add(scale as nat, (4 - scale) as nat);
            lemma_pow10_add((4 - scale) as nat, 0);
            assert(pow10(4) == 10000) by {
                reveal_with_fuel(pow10, 5);
            }
            assert(((scale as nat) + ((4 - scale) as nat)) == 4);
        }
        let ghost p = pow10(scale as nat);
        if m > MAX_UNITS / f {
            proof {
                assert forall|u: nat| u <= MAX_UNITS implies !denotes(u, mantissa as int, scale as nat) by {
                    assert(u * p == (m * f) * p ==> u == m * f) by (nonlinear_arith)
                        requires
                            p > 0,
                    ;
                    assert(m * f > MAX_UNITS) by (nonlinear_arith)
                        requires
                            m > MAX_UNITS / f,
                            f > 0,
                    ;
                    assert(mantissa * 10000 == (m * f) * p) by (nonlinear_arith)
                        requires
                            p * f == 10000,
                            mantissa == m,
                    ;
                }
            }
            None
        } else {
            proof {
                assert(m * f <= MAX_UNITS) by (nonlinear_arith)
                    requires
                        m <= MAX_UNITS / f,
                        f > 0,
                ;
                assert(mantissa * 10000 == (m * f) * p) by (nonlinear_arith)
                    requires
                        p * f == 10000,
                        mantissa == m,
                ;
            }
            let u = m * f;
            Some(u)
        }
    } else {
        let d = pow10_exec(scale - 4);
        let ghost p = pow10(scale as nat);
        proof {
            lemma_pow10_add((scale - 4) as nat, 4);
            assert(pow10(4) == 10000) by {
                reveal_with_fuel(pow10, 5);
            }
            assert(((scale - 4) as nat) + 4 == scale as nat);
        }
        if m % d != 0 {
            proof {
                assert forall|u: nat| u <= MAX_UNITS implies !denotes(u, mantissa as int, scale as nat) by {
                    if denotes(u, mantissa as int, scale as nat) {
                        assert(u * d == m) by (nonlinear_arith)
                            requires
                                u * (d * 10000) == m * 10000,
                        ;
                        assert((u * d) % (d as int) == 0) by (nonlinear_arith)
                            requires
                                d > 0,
                        ;
                    }
                }
            }
            None
        } else {
            let u = m / d;
            proof {
                assert(u * d == m) by (nonlinear_arith)
                    requires
                        m % d == 0,
                        d > 0,
                        u == m / d,
                ;
                assert(u * p == mantissa * 10000) by (nonlinear_arith)
                    requires
                        u * d == m,
                        p == d * 10000,
                        mantissa == m,
                ;
            }
            if u > MAX_UNITS {
                proof {
                    assert forall|v: nat| v <= MAX_UNITS implies !denotes(v, mantissa as int, scale as nat) by {
                        assert(v * p == u * p ==> v == u) by (nonlinear_arith)
                            requires
                                p > 0,
                        ;
                    }
                }
                None
            } else {
                Some(u)
            }
        }
    }
}


/// A log row as read from the input, before validation: the kind, both ids
/// and, when the amount column is filled, the amount as the decimal
/// `mantissa / 10^scale`.
#[derive(Clone, Copy, Debug, PartialEq, Eq)]
pub struct TransactionLogCsv {
    pub type_: TransactionType,
    pub client_id: u16,
    pub tx_id: u32,
    pub amount: Option<(i128, u32)>,
}

/// Why a row is not a valid ledger record.
#[derive(Clone, Copy, Debug, PartialEq, Eq, Structural)]
pub enum RecordError {
    /// A deposit or withdrawal without an amount.
    MissingAmount,
    /// An amount that is negative, finer than 0.0001, or larger than `MAX_UNITS`
    /// ten-thousandths.
    InvalidAmount,
}

/// The amount of a row is a valid amount.
pub open spec fn valid_amount(mantissa: int, scale: nat) -> bool {
    scale <= MAX_SCALE && exists|u: nat| u <= MAX_UNITS && denotes(u, mantissa, scale)
}

/// `r` is the outcome of validating `row`: the dispute family keeps its ids
/// and drops any amount; deposits and withdrawals need a valid amount.
pub open spec fn validated(row: TransactionLogCsv, r: Result<TransactionLog, RecordError>) -> bool {
    match row.type_ {
        TransactionType::Dispute => r == Ok::<TransactionLog, RecordError>(
            TransactionLog::Dispute { client_id: row.client_id, tx_id: row.tx_id },
        ),
        TransactionType::Resolve => r == Ok::<TransactionLog, RecordError>(
            TransactionLog::Resolve { client_id: row.client_id, tx_id: row.tx_id },
        ),
        TransactionType::Chargeback => r == Ok::<TransactionLog, RecordError>(
            TransactionLog::Chargeback { client_id: row.client_id, tx_id: row.tx_id },
        ),
        _ => match row.amount {
            None => r == Err::<TransactionLog, RecordError>(RecordError::MissingAmount),
            Some((m, sc)) => if valid_amount(m as int, sc as nat) {
                &&& r is Ok
                &&& r->Ok_0.spec_transaction_type() == row.type_
                &&& r->Ok_0.spec_client_id() == row.client_id
                &&& r->Ok_0.spec_transaction_id() == row.tx_id
                &&& r->Ok_0.spec_amount() matches Some(u) && denotes(u as nat, m as int, sc as nat)
            } else {
                r == Err::<TransactionLog, RecordError>(RecordError::InvalidAmount)
            },
        },
    }
}

impl TransactionLog {
    /// Validates a row read from the log.
    pub fn try_from_csv(row: TransactionLogCsv) -> (r: Result<TransactionLog, RecordError>)
        ensures
            validated(row, r),
    {
        let client_id = row.client_id;
        let tx_id = row.tx_id;
        match row.type_ {
            TransactionType::Dispute => Ok(TransactionLog::Dispute { client_id, tx_id }),
            TransactionType::Resolve => Ok(TransactionLog::Resolve { client_id, tx_id }),
            TransactionType::Chargeback => Ok(TransactionLog::Chargeback { client_id, tx_id }),
            TransactionType::Deposit | TransactionType::Withdrawal => match row.amount {
                None => Err(RecordError::MissingAmount),
                Some((mantissa, scale)) => {
                    if scale > MAX_SCALE {
                        return Err(RecordError::InvalidAmount);
                    }
                    match units_from_decimal(mantissa, scale) {
                        None => Err(RecordError::InvalidAmount),
                        Some(amount) => {
                            if row.type_ == TransactionType::Deposit {
                                Ok(TransactionLog::Deposit { client_id, tx_id, amount })
                            } else {
                                Ok(TransactionLog::Withdrawal { client_id, tx_id, amount })
                            }
                        },
                    }
                },
            },
        }
    }
}

} // verus!
