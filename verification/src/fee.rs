use vstd::prelude::*;

use crate::tx::TxOutV;

verus! {

/// Virtual size of a transaction's fixed framing: version, lock time and
/// the input/output counts.
pub const TX_BASE_VSIZE: u64 = 10;

/// Virtual size one wallet-owned input adds: outpoint, sequence and the
/// estimated segwit satisfaction data.
pub const OWNED_INPUT_VSIZE: u64 = 68;

/// Virtual size a foreign input adds before its declared satisfaction
/// data: outpoint, sequence and framing.
pub const FOREIGN_INPUT_BASE_VSIZE: u64 = 41;

/// Virtual size an output adds beyond its script: the amount and the
/// script length prefix.
pub const OUTPUT_BASE_VSIZE: u64 = 9;

/// Ceiling on the virtual size of a transaction this engine will build;
/// beyond it the fee cannot be resolved to a meaningful value.
pub const MAX_TX_VSIZE: u64 = 1_000_000;

/// Fee rate assumed when the caller gives neither a rate nor an absolute
/// fee, in satoshis per virtual byte.
pub const DEFAULT_FEE_RATE: u64 = 1;

/// The absolute fee owed by a transaction of the given virtual size under
/// the given policy: a fixed absolute fee wins over a rate; with neither,
/// the default rate applies.
pub open spec fn spec_fee(fee_rate: Option<u64>, fee_absolute: Option<u64>, vsize: int) -> int {
    match fee_absolute {
        Some(f) => f as int,
        None => match fee_rate {
            Some(r) => r * vsize,
            None => DEFAULT_FEE_RATE * vsize,
        },
    }
}

/// The fee never falls when the transaction grows.
pub proof fn lemma_fee_monotone(fee_rate: Option<u64>, fee_absolute: Option<u64>, v1: int, v2: int)
    requires
        0 <= v1 <= v2,
    ensures
        spec_fee(fee_rate, fee_absolute, v1) <= spec_fee(fee_rate, fee_absolute, v2),
{
    if fee_absolute is None {
        let r = match fee_rate {
            Some(r) => r as int,
            None => DEFAULT_FEE_RATE as int,
        };
        assert(r * v1 <= r * v2) by (nonlinear_arith)
            requires
                0 <= r,
                0 <= v1 <= v2,
        ;
    }
}

/// The fee of a transaction under the size ceiling fits the arithmetic
/// the engine performs.
pub proof fn lemma_fee_bound(fee_rate: Option<u64>, fee_absolute: Option<u64>, v: int)
    requires
        0 <= v <= MAX_TX_VSIZE,
    ensures
        spec_fee(fee_rate, fee_absolute, v) <= (u64::MAX as int) * (MAX_TX_VSIZE as int),
{
    assert((u64::MAX as int) * (MAX_TX_VSIZE as int) >= u64::MAX as int) by (nonlinear_arith);
    if fee_absolute is None {
        let r = match fee_rate {
            Some(r) => r as int,
            None => DEFAULT_FEE_RATE as int,
        };
        assert(r * v <= (u64::MAX as int) * (MAX_TX_VSIZE as int)) by (nonlinear_arith)
            requires
                0 <= r <= u64::MAX as int,
                0 <= v <= MAX_TX_VSIZE as int,
        ;
    }
}

/// The fee is never negative.
pub proof fn lemma_fee_nonneg(fee_rate: Option<u64>, fee_absolute: Option<u64>, v: int)
    requires
        0 <= v,
    ensures
        0 <= spec_fee(fee_rate, fee_absolute, v),
{
    if fee_absolute is None {
        let r = match fee_rate {
            Some(r) => r as int,
            None => DEFAULT_FEE_RATE as int,
        };
        assert(0 <= r * v) by (nonlinear_arith)
            requires
                0 <= r,
                0 <= v,
        ;
    }
}

/// Resolve the fee for a transaction of `vsize` virtual bytes.
pub fn fee_for(fee_rate: Option<u64>, fee_absolute: Option<u64>, vsize: u64) -> (r: u128)
    requires
        vsize <= MAX_TX_VSIZE,
    ensures
        r == spec_fee(fee_rate, fee_absolute, vsize as int),
{
    match fee_absolute {
        Some(f) => f as u128,
        None => {
            let rate: u64 = match fee_rate {
                Some(r) => r,
                None => DEFAULT_FEE_RATE,
            };
            proof {
                assert((rate as int) * (vsize as int) <= (u64::MAX as int) * (MAX_TX_VSIZE as int))
                    by (nonlinear_arith)
                    requires
                        rate as int <= u64::MAX as int,
                        0 <= vsize as int <= MAX_TX_VSIZE as int,
                ;
            }
            (rate as u128) * (vsize as u128)
        },
    }
}

/// Total value carried by a list of outputs.
pub open spec fn sum_out_value(s: Seq<TxOutV>) -> int
    decreases s.len(),
{
    if s.len() == 0 {
        0
    } else {
        s[0].value + sum_out_value(s.drop_first())
    }
}

/// Total virtual size of a list of outputs.
pub open spec fn sum_out_vsize(s: Seq<TxOutV>) -> int
    decreases s.len(),
{
    if s.len() == 0 {
        0
    } else {
        OUTPUT_BASE_VSIZE + s[0].script_pubkey.len() + sum_out_vsize(s.drop_first())
    }
}

pub proof fn lemma_sum_out_value_concat(a: Seq<TxOutV>, b: Seq<TxOutV>)
    ensures
        sum_out_value(a + b) == sum_out_value(a) + sum_out_value(b),
    decreases a.len(),
{
    if a.len() == 0 {
        assert(a + b =~= b);
    } else {
        assert((a + b).drop_first() =~= a.drop_first() + b);
        lemma_sum_out_value_concat(a.drop_first(), b);
    }
}

pub proof fn lemma_sum_out_vsize_concat(a: Seq<TxOutV>, b: Seq<TxOutV>)
    ensures
        sum_out_vsize(a + b) == sum_out_vsize(a) + sum_out_vsize(b),
    decreases a.len(),
{
    if a.len() == 0 {
        assert(a + b =~= b);
    } else {
        assert((a + b).drop_first() =~= a.drop_first() + b);
        lemma_sum_out_vsize_concat(a.drop_first(), b);
    }
}

pub proof fn lemma_sum_out_value_nonneg(s: Seq<TxOutV>)
    ensures
        0 <= sum_out_value(s),
    decreases s.len(),
{
    if s.len() > 0 {
        lemma_sum_out_value_nonneg(s.drop_first());
    }
}

pub proof fn lemma_sum_out_vsize_nonneg(s: Seq<TxOutV>)
    ensures
        0 <= sum_out_vsize(s),
    decreases s.len(),
{
    if s.len() > 0 {
        lemma_sum_out_vsize_nonneg(s.drop_first());
    }
}

/// One more output extends the prefix totals by that output's value and
/// size.
pub proof fn lemma_sum_out_take_step(s: Seq<TxOutV>, i: int)
    requires
        0 <= i < s.len(),
    ensures
        sum_out_value(s.take(i + 1)) == sum_out_value(s.take(i)) + s[i].value,
        sum_out_vsize(s.take(i + 1)) == sum_out_vsize(s.take(i)) + OUTPUT_BASE_VSIZE
            + s[i].script_pubkey.len(),
{
    assert(s.take(i + 1) =~= s.take(i) + seq![s[i]]);
    lemma_sum_out_value_concat(s.take(i), seq![s[i]]);
    lemma_sum_out_vsize_concat(s.take(i), seq![s[i]]);
    assert(seq![s[i]].drop_first() =~= Seq::<TxOutV>::empty());
    assert(seq![s[i]][0] == s[i]);
    assert(sum_out_value(Seq::<TxOutV>::empty()) == 0);
    assert(sum_out_vsize(Seq::<TxOutV>::empty()) == 0);
}

/// A prefix never exceeds the whole.
pub proof fn lemma_sum_out_prefix(s: Seq<TxOutV>, i: int)
    requires
        0 <= i <= s.len(),
    ensures
        sum_out_value(s.take(i)) <= sum_out_value(s),
        sum_out_vsize(s.take(i)) <= sum_out_vsize(s),
{
    assert(s =~= s.take(i) + s.skip(i));
    lemma_sum_out_value_concat(s.take(i), s.skip(i));
    lemma_sum_out_vsize_concat(s.take(i), s.skip(i));
    lemma_sum_out_value_nonneg(s.skip(i));
    lemma_sum_out_vsize_nonneg(s.skip(i));
}

/// No list of outputs can carry more than one maximal amount per entry.
pub proof fn lemma_sum_out_value_bound(s: Seq<TxOutV>)
    ensures
        sum_out_value(s) <= s.len() * (u64::MAX as int),
    decreases s.len(),
{
    if s.len() == 0 {
    } else {
        lemma_sum_out_value_bound(s.drop_first());
        assert(s.len() * (u64::MAX as int) == (s.len() - 1) * (u64::MAX as int) + (
        u64::MAX as int)) by (nonlinear_arith);
    }
}

/// Each output accounts for at least its framing, so the count of outputs
/// is bounded by the total size.
pub proof fn lemma_sum_out_vsize_count(s: Seq<TxOutV>)
    ensures
        sum_out_vsize(s) >= OUTPUT_BASE_VSIZE * s.len(),
    decreases s.len(),
{
    if s.len() > 0 {
        lemma_sum_out_vsize_count(s.drop_first());
    }
}

} // verus!
