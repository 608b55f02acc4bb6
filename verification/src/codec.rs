use vstd::prelude::*;

use crate::errors::Error;
use crate::psbt::{
    inaux_view, outaux_view, sigs_view, witness_view, InputAux, InputAuxV, OutputAux, OutputAuxV,
    PartialSig, PartialSigV, Psbt, PsbtV,
};
use crate::tx::{txins_view, txouts_view, Transaction, TransactionV, TxIn, TxInV, TxOut, TxOutV};

verus! {

/// Little-endian bytes of a 64-bit integer.
pub open spec fn ser_u64(v: u64) -> Seq<u8> {
    seq![
        (v as int % 256) as u8,
        (v as int / 256 % 256) as u8,
        (v as int / 65536 % 256) as u8,
        (v as int / 16777216 % 256) as u8,
        (v as int / 4294967296 % 256) as u8,
        (v as int / 1099511627776 % 256) as u8,
        (v as int / 281474976710656 % 256) as u8,
        (v as int / 72057594037927936 % 256) as u8,
    ]
}

/// The integer eight little-endian bytes of `s` encode, starting at `i`.
pub open spec fn de_u64(s: Seq<u8>, i: int) -> int {
    s[i] + 256 * s[i + 1] + 65536 * s[i + 2] + 16777216 * s[i + 3] + 4294967296 * s[i + 4]
        + 1099511627776 * s[i + 5] + 281474976710656 * s[i + 6] + 72057594037927936 * s[i + 7]
}

/// Reading eight bytes back yields the encoded integer.
pub proof fn lemma_u64_round(v: u64, s: Seq<u8>, i: int)
    requires
        0 <= i,
        i + 8 <= s.len(),
        s.subrange(i, i + 8) == ser_u64(v),
    ensures
        de_u64(s, i) == v,
{
    let x = v as int;
    assert(s[i] == (x % 256) as u8);
    assert(s[i + 1] == (x / 256 % 256) as u8);
    assert(s[i + 2] == (x / 65536 % 256) as u8);
    assert(s[i + 3] == (x / 16777216 % 256) as u8);
    assert(s[i + 4] == (x / 4294967296 % 256) as u8);
    assert(s[i + 5] == (x / 1099511627776 % 256) as u8);
    assert(s[i + 6] == (x / 281474976710656 % 256) as u8);
    assert(s[i + 7] == (x / 72057594037927936 % 256) as u8);
    vstd::arithmetic::div_mod::lemma_fundamental_div_mod(x, 256);
    vstd::arithmetic::div_mod::lemma_div_denominator(x, 256, 256);
    vstd::arithmetic::div_mod::lemma_fundamental_div_mod(x / 256, 256);
    vstd::arithmetic::div_mod::lemma_div_denominator(x, 65536, 256);
    vstd::arithmetic::div_mod::lemma_fundamental_div_mod(x / 65536, 256);
    vstd::arithmetic::div_mod::lemma_div_denominator(x, 16777216, 256);
    vstd::arithmetic::div_mod::lemma_fundamental_div_mod(x / 16777216, 256);
    vstd::arithmetic::div_mod::lemma_div_denominator(x, 4294967296, 256);
    vstd::arithmetic::div_mod::lemma_fundamental_div_mod(x / 4294967296, 256);
    vstd::arithmetic::div_mod::lemma_div_denominator(x, 1099511627776, 256);
    vstd::arithmetic::div_mod::lemma_fundamental_div_mod(x / 1099511627776, 256);
    vstd::arithmetic::div_mod::lemma_div_denominator(x, 281474976710656, 256);
    vstd::arithmetic::div_mod::lemma_fundamental_div_mod(x / 281474976710656, 256);
    vstd::arithmetic::div_mod::lemma_div_denominator(x, 72057594037927936, 256);
    vstd::arithmetic::div_mod::lemma_fundamental_div_mod(x / 72057594037927936, 256);
    vstd::arithmetic::div_mod::lemma_basic_div(x, 18446744073709551616);
    assert(x / 72057594037927936 / 256 == 0);
    assert(x % 256 + 256 * (x / 256 % 256) + 65536 * (x / 65536 % 256) + 16777216 * (x / 16777216
        % 256) + 4294967296 * (x / 4294967296 % 256) + 1099511627776 * (x / 1099511627776 % 256)
        + 281474976710656 * (x / 281474976710656 % 256) + 72057594037927936 * (x
        / 72057594037927936 % 256) == x);
}

/// Append the little-endian encoding of `v`.
pub fn write_u64(out: &mut Vec<u8>, v: u64)
    ensures
        final(out)@ == old(out)@ + ser_u64(v),
{
    let ghost pre = out@;
    out.push((v % 256) as u8);
    out.push((v / 256 % 256) as u8);
    out.push((v / 65536 % 256) as u8);
    out.push((v / 16777216 % 256) as u8);
    out.push((v / 4294967296 % 256) as u8);
    out.push((v / 1099511627776 % 256) as u8);
    out.push((v / 281474976710656 % 256) as u8);
    out.push((v / 72057594037927936 % 256) as u8);
    proof {
        assert(out@ =~= pre + ser_u64(v));
    }
}

/// How the parser reports a 64-bit integer at `i`.
pub open spec fn rd_u64(s: Seq<u8>, i: int) -> Option<(u64, int)> {
    if 0 <= i && i + 8 <= s.len() && 0 <= de_u64(s, i) <= u64::MAX {
        Some(((de_u64(s, i)) as u64, i + 8))
    } else {
        None
    }
}

/// Read a 64-bit integer.
pub fn read_u64(buf: &Vec<u8>, pos: usize) -> (r: Option<(u64, usize)>)
    ensures
        (match rd_u64(buf@, pos as int) {
            Some((v, j)) => r matches Some(p) && p.0 == v && p.1 == j,
            None => r is None,
        }),
{
    if buf.len() < 8 || pos > buf.len() - 8 {
        proof {
            assert(rd_u64(buf@, pos as int) is None);
        }
        return None;
    }
    let b0 = buf[pos] as u64;
    let b1 = buf[pos + 1] as u64;
    let b2 = buf[pos + 2] as u64;
    let b3 = buf[pos + 3] as u64;
    let b4 = buf[pos + 4] as u64;
    let b5 = buf[pos + 5] as u64;
    let b6 = buf[pos + 6] as u64;
    let b7 = buf[pos + 7] as u64;
    let v = b0 + 256 * b1 + 65536 * b2 + 16777216 * b3 + 4294967296 * b4 + 1099511627776 * b5
        + 281474976710656 * b6 + 72057594037927936 * b7;
    proof {
        assert(v == de_u64(buf@, pos as int));
    }
    Some((v, pos + 8))
}

/// Serialized form of a length-prefixed byte string.
pub open spec fn ser_bytes(b: Seq<u8>) -> Seq<u8> {
    ser_u64(b.len() as u64) + b
}

pub open spec fn rd_bytes(s: Seq<u8>, i: int) -> Option<(Seq<u8>, int)> {
    match rd_u64(s, i) {
        None => None,
        Some((n, j)) => if j + n <= s.len() {
            Some((s.subrange(j, j + n), j + n))
        } else {
            None
        },
    }
}

/// Read a length-prefixed byte string.
pub fn read_bytes(buf: &Vec<u8>, pos: usize) -> (r: Option<(Vec<u8>, usize)>)
    ensures
        (match rd_bytes(buf@, pos as int) {
            Some((b, j)) => r matches Some(p) && p.0@ == b && p.1 == j,
            None => r is None,
        }),
{
    let n_j = match read_u64(buf, pos) {
        Some(p) => p,
        None => {
            return None;
        },
    };
    let n = n_j.0;
    let j = n_j.1;
    if n > (buf.len() - j) as u64 {
        return None;
    }
    let n_us = n as usize;
    let blen = buf.len();
    let mut b: Vec<u8> = Vec::new();
    let mut k: usize = 0;
    while k < n_us
        invariant
            k <= n_us,
            blen == buf@.len(),
            j + n_us <= blen,
            b@ == buf@.subrange(j as int, j + k),
        decreases n_us - k,
    {
        b.push(buf[j + k]);
        proof {
            assert(buf@.subrange(j as int, j + k).push(buf@[j + k]) =~= buf@.subrange(
                j as int,
                j + k + 1,
            ));
        }
        k += 1;
    }
    Some((b, j + n_us))
}

/// Reading back a written byte string yields it exactly.
pub proof fn lemma_bytes_round(b: Seq<u8>, s: Seq<u8>, i: int)
    requires
        0 <= i,
        b.len() <= u64::MAX,
        i + ser_bytes(b).len() <= s.len(),
        s.subrange(i, i + ser_bytes(b).len()) == ser_bytes(b),
    ensures
        rd_bytes(s, i) == Some((b, i + ser_bytes(b).len())),
{
    let n = b.len() as u64;
    assert(ser_bytes(b).len() == 8 + b.len());
    assert(s.subrange(i, i + 8) =~= ser_u64(n)) by {
        assert(forall|k: int|
            0 <= k < 8 ==> #[trigger] s.subrange(i, i + 8)[k] == s.subrange(
                i,
                i + ser_bytes(b).len(),
            )[k]);
    }
    lemma_u64_round(n, s, i);
    assert(rd_u64(s, i) == Some((n, i + 8)));
    assert(s.subrange(i + 8, i + 8 + b.len()) =~= b) by {
        assert(forall|k: int|
            0 <= k < b.len() ==> #[trigger] s.subrange(i + 8, i + 8 + b.len() as int)[k]
                == s.subrange(i, i + ser_bytes(b).len())[8 + k]);
    }
}

/// Write a length-prefixed byte string.
pub fn write_bytes(out: &mut Vec<u8>, b: &Vec<u8>)
    ensures
        final(out)@ == old(out)@ + ser_bytes(b@),
{
    let ghost pre = out@;
    write_u64(out, b.len() as u64);
    crate::bytes::append_bytes(out, b);
    proof {
        assert(out@ =~= pre + ser_bytes(b@));
    }
}

/// Splitting a concatenation at its seam recovers both parts.
pub proof fn lemma_subrange_concat(s: Seq<u8>, i: int, a: Seq<u8>, b: Seq<u8>)
    requires
        0 <= i,
        i + a.len() + b.len() <= s.len(),
        s.subrange(i, i + a.len() + b.len()) == a + b,
    ensures
        s.subrange(i, i + a.len()) == a,
        s.subrange(i + a.len(), i + a.len() + b.len()) == b,
{
    assert(s.subrange(i, i + a.len() as int) =~= a) by {
        assert(forall|k: int|
            0 <= k < a.len() ==> #[trigger] s.subrange(i, i + a.len() as int)[k] == s.subrange(
                i,
                i + a.len() + b.len(),
            )[k]);
    }
    assert(s.subrange(i + a.len(), i + a.len() + b.len()) =~= b) by {
        assert(forall|k: int|
            0 <= k < b.len() ==> #[trigger] s.subrange(i + a.len(), i + a.len() + b.len())[k]
                == s.subrange(i, i + a.len() + b.len())[a.len() + k]);
    }
}


/// A 32-bit field travels as its 64-bit encoding.
pub open spec fn ser_u32(v: u32) -> Seq<u8> {
    ser_u64(v as u64)
}

pub open spec fn rd_u32(s: Seq<u8>, i: int) -> Option<(u32, int)> {
    match rd_u64(s, i) {
        None => None,
        Some((v, j)) => if v <= u32::MAX as u64 {
            Some((v as u32, j))
        } else {
            None
        },
    }
}

pub fn read_u32(buf: &Vec<u8>, pos: usize) -> (r: Option<(u32, usize)>)
    ensures
        (match rd_u32(buf@, pos as int) {
            Some((v, j)) => r matches Some(p) && p.0 == v && p.1 == j,
            None => r is None,
        }),
{
    match read_u64(buf, pos) {
        None => None,
        Some(p) => if p.0 <= u32::MAX as u64 {
            Some((p.0 as u32, p.1))
        } else {
            None
        },
    }
}

pub proof fn lemma_u32_round(v: u32, s: Seq<u8>, i: int)
    requires
        0 <= i,
        i + 8 <= s.len(),
        s.subrange(i, i + 8) == ser_u32(v),
    ensures
        rd_u32(s, i) == Some((v, i + 8)),
{
    lemma_u64_round(v as u64, s, i);
}

/// An optional field travels as a presence tag and then the value.
pub open spec fn ser_opt_bytes(o: Option<Seq<u8>>) -> Seq<u8> {
    match o {
        None => ser_u64(0),
        Some(b) => ser_u64(1) + ser_bytes(b),
    }
}

pub open spec fn rd_opt_bytes(s: Seq<u8>, i: int) -> Option<(Option<Seq<u8>>, int)> {
    match rd_u64(s, i) {
        None => None,
        Some((t, j)) => if t == 0 {
            Some((None, j))
        } else if t == 1 {
            match rd_bytes(s, j) {
                None => None,
                Some((b, k)) => Some((Some(b), k)),
            }
        } else {
            None
        },
    }
}

pub fn read_opt_bytes(buf: &Vec<u8>, pos: usize) -> (r: Option<(Option<Vec<u8>>, usize)>)
    ensures
        (match rd_opt_bytes(buf@, pos as int) {
            Some((o, j)) => r matches Some(p) && p.1 == j && (match o {
                None => p.0 is None,
                Some(b) => p.0 matches Some(v) && v@ == b,
            }),
            None => r is None,
        }),
{
    match read_u64(buf, pos) {
        None => None,
        Some(t) => if t.0 == 0 {
            Some((None, t.1))
        } else if t.0 == 1 {
            match read_bytes(buf, t.1) {
                None => None,
                Some(b) => Some((Some(b.0), b.1)),
            }
        } else {
            None
        },
    }
}

pub fn write_opt_bytes(out: &mut Vec<u8>, o: &Option<Vec<u8>>)
    ensures
        final(out)@ == old(out)@ + ser_opt_bytes(
            match o {
                Some(b) => Some(b@),
                None => None,
            },
        ),
{
    let ghost pre = out@;
    match o {
        None => {
            write_u64(out, 0);
        },
        Some(b) => {
            write_u64(out, 1);
            write_bytes(out, b);
            proof {
                assert(out@ =~= pre + (ser_u64(1) + ser_bytes(b@)));
            }
        },
    }
}

pub proof fn lemma_opt_bytes_round(o: Option<Seq<u8>>, s: Seq<u8>, i: int)
    requires
        0 <= i,
        (o matches Some(b) ==> b.len() <= u64::MAX),
        i + ser_opt_bytes(o).len() <= s.len(),
        s.subrange(i, i + ser_opt_bytes(o).len()) == ser_opt_bytes(o),
    ensures
        rd_opt_bytes(s, i) == Some((o, i + ser_opt_bytes(o).len())),
{
    match o {
        None => {
            lemma_u64_round(0, s, i);
        },
        Some(b) => {
            lemma_subrange_concat(s, i, ser_u64(1), ser_bytes(b));
            lemma_u64_round(1, s, i);
            lemma_bytes_round(b, s, i + 8);
        },
    }
}

pub open spec fn ser_opt_u32(o: Option<u32>) -> Seq<u8> {
    match o {
        None => ser_u64(0),
        Some(v) => ser_u64(1) + ser_u32(v),
    }
}

pub open spec fn rd_opt_u32(s: Seq<u8>, i: int) -> Option<(Option<u32>, int)> {
    match rd_u64(s, i) {
        None => None,
        Some((t, j)) => if t == 0 {
            Some((None, j))
        } else if t == 1 {
            match rd_u32(s, j) {
                None => None,
                Some((v, k)) => Some((Some(v), k)),
            }
        } else {
            None
        },
    }
}

pub fn read_opt_u32(buf: &Vec<u8>, pos: usize) -> (r: Option<(Option<u32>, usize)>)
    ensures
        (match rd_opt_u32(buf@, pos as int) {
            Some((o, j)) => r matches Some(p) && p.1 == j && p.0 == o,
            None => r is None,
        }),
{
    match read_u64(buf, pos) {
        None => None,
        Some(t) => if t.0 == 0 {
            Some((None, t.1))
        } else if t.0 == 1 {
            match read_u32(buf, t.1) {
                None => None,
                Some(v) => Some((Some(v.0), v.1)),
            }
        } else {
            None
        },
    }
}

pub fn write_opt_u32(out: &mut Vec<u8>, o: &Option<u32>)
    ensures
        final(out)@ == old(out)@ + ser_opt_u32(*o),
{
    let ghost pre = out@;
    match o {
        None => {
            write_u64(out, 0);
        },
        Some(v) => {
            write_u64(out, 1);
            write_u64(out, *v as u64);
            proof {
                assert(out@ =~= pre + (ser_u64(1) + ser_u32(*v)));
            }
        },
    }
}

pub proof fn lemma_opt_u32_round(o: Option<u32>, s: Seq<u8>, i: int)
    requires
        0 <= i,
        i + ser_opt_u32(o).len() <= s.len(),
        s.subrange(i, i + ser_opt_u32(o).len()) == ser_opt_u32(o),
    ensures
        rd_opt_u32(s, i) == Some((o, i + ser_opt_u32(o).len())),
{
    match o {
        None => {
            lemma_u64_round(0, s, i);
        },
        Some(v) => {
            lemma_subrange_concat(s, i, ser_u64(1), ser_u32(v));
            lemma_u64_round(1, s, i);
            lemma_u32_round(v, s, i + 8);
        },
    }
}


pub open spec fn ser_txout(o: TxOutV) -> Seq<u8> {
    ser_u64(o.value) + ser_bytes(o.script_pubkey)
}

pub open spec fn rd_txout(s: Seq<u8>, i: int) -> Option<(TxOutV, int)> {
    match rd_u64(s, i) {
        None => None,
        Some((v, j)) => match rd_bytes(s, j) {
            None => None,
            Some((b, k)) => Some((TxOutV { value: v, script_pubkey: b }, k)),
        },
    }
}

pub fn read_txout(buf: &Vec<u8>, pos: usize) -> (r: Option<(TxOut, usize)>)
    ensures
        (match rd_txout(buf@, pos as int) {
            Some((m, j)) => r matches Some(p) && p.0@ == m && p.1 == j,
            None => r is None,
        }),
{
    match read_u64(buf, pos) {
        None => None,
        Some(v) => match read_bytes(buf, v.1) {
            None => None,
            Some(b) => {
                let o = TxOut { value: v.0, script_pubkey: b.0 };
                proof {
                    if rd_txout(buf@, pos as int) is Some {
                        assert(o@ =~= rd_txout(buf@, pos as int)->Some_0.0);
                    }
                }
                Some((o, b.1))
            },
        },
    }
}

pub fn write_txout(out: &mut Vec<u8>, o: &TxOut)
    ensures
        final(out)@ == old(out)@ + ser_txout(o@),
{
    let ghost pre = out@;
    write_u64(out, o.value);
    write_bytes(out, &o.script_pubkey);
    proof {
        assert(out@ =~= pre + ser_txout(o@));
    }
}

pub proof fn lemma_txout_round(m: TxOutV, s: Seq<u8>, i: int)
    requires
        0 <= i,
        m.script_pubkey.len() <= u64::MAX,
        i + ser_txout(m).len() <= s.len(),
        s.subrange(i, i + ser_txout(m).len()) == ser_txout(m),
    ensures
        rd_txout(s, i) == Some((m, i + ser_txout(m).len())),
{
    lemma_subrange_concat(s, i, ser_u64(m.value), ser_bytes(m.script_pubkey));
    lemma_u64_round(m.value, s, i);
    lemma_bytes_round(m.script_pubkey, s, i + 8);
    assert(rd_txout(s, i)->Some_0.0 =~= m);
}

pub open spec fn ser_opt_txout(o: Option<TxOutV>) -> Seq<u8> {
    match o {
        None => ser_u64(0),
        Some(t) => ser_u64(1) + ser_txout(t),
    }
}

pub open spec fn rd_opt_txout(s: Seq<u8>, i: int) -> Option<(Option<TxOutV>, int)> {
    match rd_u64(s, i) {
        None => None,
        Some((t, j)) => if t == 0 {
            Some((None, j))
        } else if t == 1 {
            match rd_txout(s, j) {
                None => None,
                Some((m, k)) => Some((Some(m), k)),
            }
        } else {
            None
        },
    }
}

pub fn read_opt_txout(buf: &Vec<u8>, pos: usize) -> (r: Option<(Option<TxOut>, usize)>)
    ensures
        (match rd_opt_txout(buf@, pos as int) {
            Some((o, j)) => r matches Some(p) && p.1 == j && (match o {
                None => p.0 is None,
                Some(m) => p.0 matches Some(t) && t@ == m,
            }),
            None => r is None,
        }),
{
    match read_u64(buf, pos) {
        None => None,
        Some(t) => if t.0 == 0 {
            Some((None, t.1))
        } else if t.0 == 1 {
            match read_txout(buf, t.1) {
                None => None,
                Some(o) => Some((Some(o.0), o.1)),
            }
        } else {
            None
        },
    }
}

pub fn write_opt_txout(out: &mut Vec<u8>, o: &Option<TxOut>)
    ensures
        final(out)@ == old(out)@ + ser_opt_txout(
            match o {
                Some(t) => Some(t@),
                None => None,
            },
        ),
{
    let ghost pre = out@;
    match o {
        None => {
            write_u64(out, 0);
        },
        Some(t) => {
            write_u64(out, 1);
            write_txout(out, t);
            proof {
                assert(out@ =~= pre + (ser_u64(1) + ser_txout(t@)));
            }
        },
    }
}

pub proof fn lemma_opt_txout_round(o: Option<TxOutV>, s: Seq<u8>, i: int)
    requires
        0 <= i,
        (o matches Some(t) ==> t.script_pubkey.len() <= u64::MAX),
        i + ser_opt_txout(o).len() <= s.len(),
        s.subrange(i, i + ser_opt_txout(o).len()) == ser_opt_txout(o),
    ensures
        rd_opt_txout(s, i) == Some((o, i + ser_opt_txout(o).len())),
{
    match o {
        None => {
            lemma_u64_round(0, s, i);
        },
        Some(t) => {
            lemma_subrange_concat(s, i, ser_u64(1), ser_txout(t));
            lemma_u64_round(1, s, i);
            lemma_txout_round(t, s, i + 8);
        },
    }
}

pub open spec fn ser_txin(x: TxInV) -> Seq<u8> {
    ser_bytes(x.txid) + (ser_u32(x.vout) + ser_u32(x.sequence))
}

pub open spec fn rd_txin(s: Seq<u8>, i: int) -> Option<(TxInV, int)> {
    match rd_bytes(s, i) {
        None => None,
        Some((txid, j)) => match rd_u32(s, j) {
            None => None,
            Some((vout, k)) => match rd_u32(s, k) {
                None => None,
                Some((sq, l)) => Some((TxInV { txid, vout, sequence: sq }, l)),
            },
        },
    }
}

pub fn read_txin(buf: &Vec<u8>, pos: usize) -> (r: Option<(TxIn, usize)>)
    ensures
        (match rd_txin(buf@, pos as int) {
            Some((m, j)) => r matches Some(p) && p.0@ == m && p.1 == j,
            None => r is None,
        }),
{
    match read_bytes(buf, pos) {
        None => None,
        Some(t) => match read_u32(buf, t.1) {
            None => None,
            Some(v) => match read_u32(buf, v.1) {
                None => None,
                Some(q) => {
                    let x = TxIn { txid: t.0, vout: v.0, sequence: q.0 };
                    proof {
                        if rd_txin(buf@, pos as int) is Some {
                            assert(x@ =~= rd_txin(buf@, pos as int)->Some_0.0);
                        }
                    }
                    Some((x, q.1))
                },
            },
        },
    }
}

pub fn write_txin(out: &mut Vec<u8>, x: &TxIn)
    ensures
        final(out)@ == old(out)@ + ser_txin(x@),
{
    let ghost pre = out@;
    write_bytes(out, &x.txid);
    write_u64(out, x.vout as u64);
    write_u64(out, x.sequence as u64);
    proof {
        assert(out@ =~= pre + ser_txin(x@));
    }
}

pub proof fn lemma_txin_round(m: TxInV, s: Seq<u8>, i: int)
    requires
        0 <= i,
        m.txid.len() <= u64::MAX,
        i + ser_txin(m).len() <= s.len(),
        s.subrange(i, i + ser_txin(m).len()) == ser_txin(m),
    ensures
        rd_txin(s, i) == Some((m, i + ser_txin(m).len())),
{
    lemma_subrange_concat(s, i, ser_bytes(m.txid), ser_u32(m.vout) + ser_u32(m.sequence));
    lemma_bytes_round(m.txid, s, i);
    let j = i + ser_bytes(m.txid).len() as int;
    lemma_subrange_concat(s, j, ser_u32(m.vout), ser_u32(m.sequence));
    lemma_u32_round(m.vout, s, j);
    lemma_u32_round(m.sequence, s, j + 8);
    assert(rd_txin(s, i)->Some_0.0 =~= m);
}

pub open spec fn ser_psig(x: PartialSigV) -> Seq<u8> {
    ser_bytes(x.pubkey) + ser_bytes(x.sig)
}

pub open spec fn rd_psig(s: Seq<u8>, i: int) -> Option<(PartialSigV, int)> {
    match rd_bytes(s, i) {
        None => None,
        Some((pk, j)) => match rd_bytes(s, j) {
            None => None,
            Some((sg, k)) => Some((PartialSigV { pubkey: pk, sig: sg }, k)),
        },
    }
}

pub fn read_psig(buf: &Vec<u8>, pos: usize) -> (r: Option<(PartialSig, usize)>)
    ensures
        (match rd_psig(buf@, pos as int) {
            Some((m, j)) => r matches Some(p) && p.0@ == m && p.1 == j,
            None => r is None,
        }),
{
    match read_bytes(buf, pos) {
        None => None,
        Some(pk) => match read_bytes(buf, pk.1) {
            None => None,
            Some(sg) => {
                let x = PartialSig { pubkey: pk.0, sig: sg.0 };
                proof {
                    if rd_psig(buf@, pos as int) is Some {
                        assert(x@ =~= rd_psig(buf@, pos as int)->Some_0.0);
                    }
                }
                Some((x, sg.1))
            },
        },
    }
}

pub fn write_psig(out: &mut Vec<u8>, x: &PartialSig)
    ensures
        final(out)@ == old(out)@ + ser_psig(x@),
{
    let ghost pre = out@;
    write_bytes(out, &x.pubkey);
    write_bytes(out, &x.sig);
    proof {
        assert(out@ =~= pre + ser_psig(x@));
    }
}

pub proof fn lemma_psig_round(m: PartialSigV, s: Seq<u8>, i: int)
    requires
        0 <= i,
        m.pubkey.len() <= u64::MAX,
        m.sig.len() <= u64::MAX,
        i + ser_psig(m).len() <= s.len(),
        s.subrange(i, i + ser_psig(m).len()) == ser_psig(m),
    ensures
        rd_psig(s, i) == Some((m, i + ser_psig(m).len())),
{
    lemma_subrange_concat(s, i, ser_bytes(m.pubkey), ser_bytes(m.sig));
    lemma_bytes_round(m.pubkey, s, i);
    lemma_bytes_round(m.sig, s, i + ser_bytes(m.pubkey).len());
    assert(rd_psig(s, i)->Some_0.0 =~= m);
}


pub open spec fn bytes_b(b: Seq<u8>) -> bool {
    b.len() <= u64::MAX
}

pub open spec fn txout_b(o: TxOutV) -> bool {
    o.script_pubkey.len() <= u64::MAX
}

pub open spec fn txin_b(x: TxInV) -> bool {
    x.txid.len() <= u64::MAX
}

pub open spec fn psig_b(x: PartialSigV) -> bool {
    x.pubkey.len() <= u64::MAX && x.sig.len() <= u64::MAX
}

pub open spec fn ser_txins(s: Seq<TxInV>) -> Seq<u8>
    decreases s.len(),
{
    if s.len() == 0 {
        Seq::empty()
    } else {
        ser_txin(s[0]) + ser_txins(s.drop_first())
    }
}

pub proof fn lemma_ser_txins_snoc(a: Seq<TxInV>, m: TxInV)
    ensures
        ser_txins(a.push(m)) == ser_txins(a) + ser_txin(m),
    decreases a.len(),
{
    if a.len() == 0 {
        assert(a.push(m).drop_first() =~= Seq::<TxInV>::empty());
        assert(a.push(m)[0] == m);
        assert(ser_txins(Seq::<TxInV>::empty()) =~= Seq::<u8>::empty());
        assert(a =~= Seq::<TxInV>::empty());
        assert(ser_txin(m) + Seq::<u8>::empty() =~= ser_txin(m));
        assert(ser_txins(a) + ser_txin(m) =~= ser_txin(m));
    } else {
        assert(a.push(m).drop_first() =~= a.drop_first().push(m));
        assert(a.push(m)[0] == a[0]);
        lemma_ser_txins_snoc(a.drop_first(), m);
        assert(ser_txin(a[0]) + (ser_txins(a.drop_first()) + ser_txin(m)) =~= (ser_txin(a[0])
            + ser_txins(a.drop_first())) + ser_txin(m));
    }
}

pub open spec fn rd_txins_n(s: Seq<u8>, i: int, n: nat) -> Option<(Seq<TxInV>, int)>
    decreases n,
{
    if n == 0 {
        Some((Seq::empty(), i))
    } else {
        match rd_txin(s, i) {
            None => None,
            Some((m, j)) => match rd_txins_n(s, j, (n - 1) as nat) {
                None => None,
                Some((ms, k)) => Some((seq![m] + ms, k)),
            },
        }
    }
}

pub proof fn lemma_txins_round(ms: Seq<TxInV>, s: Seq<u8>, i: int)
    requires
        0 <= i,
        forall|q: int| 0 <= q < ms.len() ==> txin_b(#[trigger] ms[q]),
        i + ser_txins(ms).len() <= s.len(),
        s.subrange(i, i + ser_txins(ms).len()) == ser_txins(ms),
    ensures
        rd_txins_n(s, i, ms.len()) == Some((ms, i + ser_txins(ms).len())),
    decreases ms.len(),
{
    if ms.len() == 0 {
        assert(ms =~= Seq::<TxInV>::empty());
    } else {
        assert(ser_txins(ms) == ser_txin(ms[0]) + ser_txins(ms.drop_first()));
        lemma_subrange_concat(s, i, ser_txin(ms[0]), ser_txins(ms.drop_first()));
        lemma_txin_round(ms[0], s, i);
        assert(forall|q: int|
            0 <= q < ms.drop_first().len() ==> txin_b(#[trigger] ms.drop_first()[q])) by {
            assert(forall|q: int|
                0 <= q < ms.drop_first().len() ==> ms.drop_first()[q] == ms[q + 1]);
        }
        lemma_txins_round(ms.drop_first(), s, i + ser_txin(ms[0]).len());
        assert(seq![ms[0]] + ms.drop_first() =~= ms);
    }
}

pub fn read_txins(buf: &Vec<u8>, pos: usize, n: u64) -> (r: Option<(Vec<TxIn>, usize)>)
    ensures
        (match rd_txins_n(buf@, pos as int, n as nat) {
            Some((ms, j)) => r matches Some(p) && txins_view(p.0@) == ms && p.1 == j,
            None => r is None,
        }),
{
    let mut acc: Vec<TxIn> = Vec::new();
    let mut cur: usize = pos;
    let mut k: u64 = 0;
    proof {
        assert(txins_view(acc@) =~= Seq::<TxInV>::empty());
    }
    while k < n
        invariant
            k <= n,
            (match rd_txins_n(buf@, cur as int, (n - k) as nat) {
                Some((ms, j)) => rd_txins_n(buf@, pos as int, n as nat) matches Some(w) && w.0
                    == txins_view(acc@) + ms && w.1 == j,
                None => rd_txins_n(buf@, pos as int, n as nat) is None,
            }),
        decreases n - k,
    {
        let e = match read_txin(buf, cur) {
            None => {
                return None;
            },
            Some(p) => p,
        };
        proof {
            assert(txins_view(acc@.push(e.0)) =~= txins_view(acc@).push(e.0@));
            let inner = rd_txins_n(buf@, e.1 as int, (n - k - 1) as nat);
            if inner is Some {
                assert(txins_view(acc@).push(e.0@) + inner->Some_0.0 =~= txins_view(acc@) + (seq![e.0@]
                    + inner->Some_0.0));
            }
        }
        acc.push(e.0);
        cur = e.1;
        k = k + 1;
    }
    proof {
        assert(txins_view(acc@) + Seq::<TxInV>::empty() =~= txins_view(acc@));
    }
    Some((acc, cur))
}

pub fn write_txins(out: &mut Vec<u8>, v: &Vec<TxIn>)
    ensures
        final(out)@ == old(out)@ + (ser_u64(v@.len() as u64) + ser_txins(txins_view(v@))),
{
    let ghost pre = out@;
    write_u64(out, v.len() as u64);
    let mut k: usize = 0;
    while k < v.len()
        invariant
            k <= v@.len(),
            out@ == pre + ser_u64(v@.len() as u64) + ser_txins(txins_view(v@).take(k as int)),
        decreases v@.len() - k,
    {
        write_txin(out, &v[k]);
        proof {
            lemma_ser_txins_snoc(txins_view(v@).take(k as int), txins_view(v@)[k as int]);
            assert(txins_view(v@).take(k + 1) =~= txins_view(v@).take(k as int).push(txins_view(v@)[k as int]));
            assert(txins_view(v@)[k as int] == v@[k as int]@);
        }
        k += 1;
    }
    proof {
        assert(txins_view(v@).take(v@.len() as int) =~= txins_view(v@));
        assert(out@ =~= pre + (ser_u64(v@.len() as u64) + ser_txins(txins_view(v@))));
    }
}

pub open spec fn ser_txouts(s: Seq<TxOutV>) -> Seq<u8>
    decreases s.len(),
{
    if s.len() == 0 {
        Seq::empty()
    } else {
        ser_txout(s[0]) + ser_txouts(s.drop_first())
    }
}

pub proof fn lemma_ser_txouts_snoc(a: Seq<TxOutV>, m: TxOutV)
    ensures
        ser_txouts(a.push(m)) == ser_txouts(a) + ser_txout(m),
    decreases a.len(),
{
    if a.len() == 0 {
        assert(a.push(m).drop_first() =~= Seq::<TxOutV>::empty());
        assert(a.push(m)[0] == m);
        assert(ser_txouts(Seq::<TxOutV>::empty()) =~= Seq::<u8>::empty());
        assert(a =~= Seq::<TxOutV>::empty());
        assert(ser_txout(m) + Seq::<u8>::empty() =~= ser_txout(m));
        assert(ser_txouts(a) + ser_txout(m) =~= ser_txout(m));
    } else {
        assert(a.push(m).drop_first() =~= a.drop_first().push(m));
        assert(a.push(m)[0] == a[0]);
        lemma_ser_txouts_snoc(a.drop_first(), m);
        assert(ser_txout(a[0]) + (ser_txouts(a.drop_first()) + ser_txout(m)) =~= (ser_txout(a[0])
            + ser_txouts(a.drop_first())) + ser_txout(m));
    }
}

pub open spec fn rd_txouts_n(s: Seq<u8>, i: int, n: nat) -> Option<(Seq<TxOutV>, int)>
    decreases n,
{
    if n == 0 {
        Some((Seq::empty(), i))
    } else {
        match rd_txout(s, i) {
            None => None,
            Some((m, j)) => match rd_txouts_n(s, j, (n - 1) as nat) {
                None => None,
                Some((ms, k)) => Some((seq![m] + ms, k)),
            },
        }
    }
}

pub proof fn lemma_txouts_round(ms: Seq<TxOutV>, s: Seq<u8>, i: int)
    requires
        0 <= i,
        forall|q: int| 0 <= q < ms.len() ==> txout_b(#[trigger] ms[q]),
        i + ser_txouts(ms).len() <= s.len(),
        s.subrange(i, i + ser_txouts(ms).len()) == ser_txouts(ms),
    ensures
        rd_txouts_n(s, i, ms.len()) == Some((ms, i + ser_txouts(ms).len())),
    decreases ms.len(),
{
    if ms.len() == 0 {
        assert(ms =~= Seq::<TxOutV>::empty());
    } else {
        assert(ser_txouts(ms) == ser_txout(ms[0]) + ser_txouts(ms.drop_first()));
        lemma_subrange_concat(s, i, ser_txout(ms[0]), ser_txouts(ms.drop_first()));
        lemma_txout_round(ms[0], s, i);
        assert(forall|q: int|
            0 <= q < ms.drop_first().len() ==> txout_b(#[trigger] ms.drop_first()[q])) by {
            assert(forall|q: int|
                0 <= q < ms.drop_first().len() ==> ms.drop_first()[q] == ms[q + 1]);
        }
        lemma_txouts_round(ms.drop_first(), s, i + ser_txout(ms[0]).len());
        assert(seq![ms[0]] + ms.drop_first() =~= ms);
    }
}

pub fn read_txouts(buf: &Vec<u8>, pos: usize, n: u64) -> (r: Option<(Vec<TxOut>, usize)>)
    ensures
        (match rd_txouts_n(buf@, pos as int, n as nat) {
            Some((ms, j)) => r matches Some(p) && txouts_view(p.0@) == ms && p.1 == j,
            None => r is None,
        }),
{
    let mut acc: Vec<TxOut> = Vec::new();
    let mut cur: usize = pos;
    let mut k: u64 = 0;
    proof {
        assert(txouts_view(acc@) =~= Seq::<TxOutV>::empty());
    }
    while k < n
        invariant
            k <= n,
            (match rd_txouts_n(buf@, cur as int, (n - k) as nat) {
                Some((ms, j)) => rd_txouts_n(buf@, pos as int, n as nat) matches Some(w) && w.0
                    == txouts_view(acc@) + ms && w.1 == j,
                None => rd_txouts_n(buf@, pos as int, n as nat) is None,
            }),
        decreases n - k,
    {
        let e = match read_txout(buf, cur) {
            None => {
                return None;
            },
            Some(p) => p,
        };
        proof {
            assert(txouts_view(acc@.push(e.0)) =~= txouts_view(acc@).push(e.0@));
            let inner = rd_txouts_n(buf@, e.1 as int, (n - k - 1) as nat);
            if inner is Some {
                assert(txouts_view(acc@).push(e.0@) + inner->Some_0.0 =~= txouts_view(acc@) + (seq![e.0@]
                    + inner->Some_0.0));
            }
        }
        acc.push(e.0);
        cur = e.1;
        k = k + 1;
    }
    proof {
        assert(txouts_view(acc@) + Seq::<TxOutV>::empty() =~= txouts_view(acc@));
    }
    Some((acc, cur))
}

pub fn write_txouts(out: &mut Vec<u8>, v: &Vec<TxOut>)
    ensures
        final(out)@ == old(out)@ + (ser_u64(v@.len() as u64) + ser_txouts(txouts_view(v@))),
{
    let ghost pre = out@;
    write_u64(out, v.len() as u64);
    let mut k: usize = 0;
    while k < v.len()
        invariant
            k <= v@.len(),
            out@ == pre + ser_u64(v@.len() as u64) + ser_txouts(txouts_view(v@).take(k as int)),
        decreases v@.len() - k,
    {
        write_txout(out, &v[k]);
        proof {
            lemma_ser_txouts_snoc(txouts_view(v@).take(k as int), txouts_view(v@)[k as int]);
            assert(txouts_view(v@).take(k + 1) =~= txouts_view(v@).take(k as int).push(txouts_view(v@)[k as int]));
            assert(txouts_view(v@)[k as int] == v@[k as int]@);
        }
        k += 1;
    }
    proof {
        assert(txouts_view(v@).take(v@.len() as int) =~= txouts_view(v@));
        assert(out@ =~= pre + (ser_u64(v@.len() as u64) + ser_txouts(txouts_view(v@))));
    }
}

pub open spec fn ser_psigs(s: Seq<PartialSigV>) -> Seq<u8>
    decreases s.len(),
{
    if s.len() == 0 {
        Seq::empty()
    } else {
        ser_psig(s[0]) + ser_psigs(s.drop_first())
    }
}

pub proof fn lemma_ser_psigs_snoc(a: Seq<PartialSigV>, m: PartialSigV)
    ensures
        ser_psigs(a.push(m)) == ser_psigs(a) + ser_psig(m),
    decreases a.len(),
{
    if a.len() == 0 {
        assert(a.push(m).drop_first() =~= Seq::<PartialSigV>::empty());
        assert(a.push(m)[0] == m);
        assert(ser_psigs(Seq::<PartialSigV>::empty()) =~= Seq::<u8>::empty());
        assert(a =~= Seq::<PartialSigV>::empty());
        assert(ser_psig(m) + Seq::<u8>::empty() =~= ser_psig(m));
        assert(ser_psigs(a) + ser_psig(m) =~= ser_psig(m));
    } else {
        assert(a.push(m).drop_first() =~= a.drop_first().push(m));
        assert(a.push(m)[0] == a[0]);
        lemma_ser_psigs_snoc(a.drop_first(), m);
        assert(ser_psig(a[0]) + (ser_psigs(a.drop_first()) + ser_psig(m)) =~= (ser_psig(a[0])
            + ser_psigs(a.drop_first())) + ser_psig(m));
    }
}

pub open spec fn rd_psigs_n(s: Seq<u8>, i: int, n: nat) -> Option<(Seq<PartialSigV>, int)>
    decreases n,
{
    if n == 0 {
        Some((Seq::empty(), i))
    } else {
        match rd_psig(s, i) {
            None => None,
            Some((m, j)) => match rd_psigs_n(s, j, (n - 1) as nat) {
                None => None,
                Some((ms, k)) => Some((seq![m] + ms, k)),
            },
        }
    }
}

pub proof fn lemma_psigs_round(ms: Seq<PartialSigV>, s: Seq<u8>, i: int)
    requires
        0 <= i,
        forall|q: int| 0 <= q < ms.len() ==> psig_b(#[trigger] ms[q]),
        i + ser_psigs(ms).len() <= s.len(),
        s.subrange(i, i + ser_psigs(ms).len()) == ser_psigs(ms),
    ensures
        rd_psigs_n(s, i, ms.len()) == Some((ms, i + ser_psigs(ms).len())),
    decreases ms.len(),
{
    if ms.len() == 0 {
        assert(ms =~= Seq::<PartialSigV>::empty());
    } else {
        assert(ser_psigs(ms) == ser_psig(ms[0]) + ser_psigs(ms.drop_first()));
        lemma_subrange_concat(s, i, ser_psig(ms[0]), ser_psigs(ms.drop_first()));
        lemma_psig_round(ms[0], s, i);
        assert(forall|q: int|
            0 <= q < ms.drop_first().len() ==> psig_b(#[trigger] ms.drop_first()[q])) by {
            assert(forall|q: int|
                0 <= q < ms.drop_first().len() ==> ms.drop_first()[q] == ms[q + 1]);
        }
        lemma_psigs_round(ms.drop_first(), s, i + ser_psig(ms[0]).len());
        assert(seq![ms[0]] + ms.drop_first() =~= ms);
    }
}

pub fn read_psigs(buf: &Vec<u8>, pos: usize, n: u64) -> (r: Option<(Vec<PartialSig>, usize)>)
    ensures
        (match rd_psigs_n(buf@, pos as int, n as nat) {
            Some((ms, j)) => r matches Some(p) && sigs_view(p.0@) == ms && p.1 == j,
            None => r is None,
        }),
{
    let mut acc: Vec<PartialSig> = Vec::new();
    let mut cur: usize = pos;
    let mut k: u64 = 0;
    proof {
        assert(sigs_view(acc@) =~= Seq::<PartialSigV>::empty());
    }
    while k < n
        invariant
            k <= n,
            (match rd_psigs_n(buf@, cur as int, (n - k) as nat) {
                Some((ms, j)) => rd_psigs_n(buf@, pos as int, n as nat) matches Some(w) && w.0
                    == sigs_view(acc@) + ms && w.1 == j,
                None => rd_psigs_n(buf@, pos as int, n as nat) is None,
            }),
        decreases n - k,
    {
        let e = match read_psig(buf, cur) {
            None => {
                return None;
            },
            Some(p) => p,
        };
        proof {
            assert(sigs_view(acc@.push(e.0)) =~= sigs_view(acc@).push(e.0@));
            let inner = rd_psigs_n(buf@, e.1 as int, (n - k - 1) as nat);
            if inner is Some {
                assert(sigs_view(acc@).push(e.0@) + inner->Some_0.0 =~= sigs_view(acc@) + (seq![e.0@]
                    + inner->Some_0.0));
            }
        }
        acc.push(e.0);
        cur = e.1;
        k = k + 1;
    }
    proof {
        assert(sigs_view(acc@) + Seq::<PartialSigV>::empty() =~= sigs_view(acc@));
    }
    Some((acc, cur))
}

pub fn write_psigs(out: &mut Vec<u8>, v: &Vec<PartialSig>)
    ensures
        final(out)@ == old(out)@ + (ser_u64(v@.len() as u64) + ser_psigs(sigs_view(v@))),
{
    let ghost pre = out@;
    write_u64(out, v.len() as u64);
    let mut k: usize = 0;
    while k < v.len()
        invariant
            k <= v@.len(),
            out@ == pre + ser_u64(v@.len() as u64) + ser_psigs(sigs_view(v@).take(k as int)),
        decreases v@.len() - k,
    {
        write_psig(out, &v[k]);
        proof {
            lemma_ser_psigs_snoc(sigs_view(v@).take(k as int), sigs_view(v@)[k as int]);
            assert(sigs_view(v@).take(k + 1) =~= sigs_view(v@).take(k as int).push(sigs_view(v@)[k as int]));
            assert(sigs_view(v@)[k as int] == v@[k as int]@);
        }
        k += 1;
    }
    proof {
        assert(sigs_view(v@).take(v@.len() as int) =~= sigs_view(v@));
        assert(out@ =~= pre + (ser_u64(v@.len() as u64) + ser_psigs(sigs_view(v@))));
    }
}

pub open spec fn ser_bitems(s: Seq<Seq<u8>>) -> Seq<u8>
    decreases s.len(),
{
    if s.len() == 0 {
        Seq::empty()
    } else {
        ser_bytes(s[0]) + ser_bitems(s.drop_first())
    }
}

pub proof fn lemma_ser_bitems_snoc(a: Seq<Seq<u8>>, m: Seq<u8>)
    ensures
        ser_bitems(a.push(m)) == ser_bitems(a) + ser_bytes(m),
    decreases a.len(),
{
    if a.len() == 0 {
        assert(a.push(m).drop_first() =~= Seq::<Seq<u8>>::empty());
        assert(a.push(m)[0] == m);
        assert(ser_bitems(Seq::<Seq<u8>>::empty()) =~= Seq::<u8>::empty());
        assert(a =~= Seq::<Seq<u8>>::empty());
        assert(ser_bytes(m) + Seq::<u8>::empty() =~= ser_bytes(m));
        assert(ser_bitems(a) + ser_bytes(m) =~= ser_bytes(m));
    } else {
        assert(a.push(m).drop_first() =~= a.drop_first().push(m));
        assert(a.push(m)[0] == a[0]);
        lemma_ser_bitems_snoc(a.drop_first(), m);
        assert(ser_bytes(a[0]) + (ser_bitems(a.drop_first()) + ser_bytes(m)) =~= (ser_bytes(a[0])
            + ser_bitems(a.drop_first())) + ser_bytes(m));
    }
}

pub open spec fn rd_bitems_n(s: Seq<u8>, i: int, n: nat) -> Option<(Seq<Seq<u8>>, int)>
    decreases n,
{
    if n == 0 {
        Some((Seq::empty(), i))
    } else {
        match rd_bytes(s, i) {
            None => None,
            Some((m, j)) => match rd_bitems_n(s, j, (n - 1) as nat) {
                None => None,
                Some((ms, k)) => Some((seq![m] + ms, k)),
            },
        }
    }
}

pub proof fn lemma_bitems_round(ms: Seq<Seq<u8>>, s: Seq<u8>, i: int)
    requires
        0 <= i,
        forall|q: int| 0 <= q < ms.len() ==> bytes_b(#[trigger] ms[q]),
        i + ser_bitems(ms).len() <= s.len(),
        s.subrange(i, i + ser_bitems(ms).len()) == ser_bitems(ms),
    ensures
        rd_bitems_n(s, i, ms.len()) == Some((ms, i + ser_bitems(ms).len())),
    decreases ms.len(),
{
    if ms.len() == 0 {
        assert(ms =~= Seq::<Seq<u8>>::empty());
    } else {
        assert(ser_bitems(ms) == ser_bytes(ms[0]) + ser_bitems(ms.drop_first()));
        lemma_subrange_concat(s, i, ser_bytes(ms[0]), ser_bitems(ms.drop_first()));
        lemma_bytes_round(ms[0], s, i);
        assert(forall|q: int|
            0 <= q < ms.drop_first().len() ==> bytes_b(#[trigger] ms.drop_first()[q])) by {
            assert(forall|q: int|
                0 <= q < ms.drop_first().len() ==> ms.drop_first()[q] == ms[q + 1]);
        }
        lemma_bitems_round(ms.drop_first(), s, i + ser_bytes(ms[0]).len());
        assert(seq![ms[0]] + ms.drop_first() =~= ms);
    }
}

pub fn read_bitems(buf: &Vec<u8>, pos: usize, n: u64) -> (r: Option<(Vec<Vec<u8>>, usize)>)
    ensures
        (match rd_bitems_n(buf@, pos as int, n as nat) {
            Some((ms, j)) => r matches Some(p) && witness_view(p.0@) == ms && p.1 == j,
            None => r is None,
        }),
{
    let mut acc: Vec<Vec<u8>> = Vec::new();
    let mut cur: usize = pos;
    let mut k: u64 = 0;
    proof {
        assert(witness_view(acc@) =~= Seq::<Seq<u8>>::empty());
    }
    while k < n
        invariant
            k <= n,
            (match rd_bitems_n(buf@, cur as int, (n - k) as nat) {
                Some((ms, j)) => rd_bitems_n(buf@, pos as int, n as nat) matches Some(w) && w.0
                    == witness_view(acc@) + ms && w.1 == j,
                None => rd_bitems_n(buf@, pos as int, n as nat) is None,
            }),
        decreases n - k,
    {
        let e = match read_bytes(buf, cur) {
            None => {
                return None;
            },
            Some(p) => p,
        };
        proof {
            assert(witness_view(acc@.push(e.0)) =~= witness_view(acc@).push(e.0@));
            let inner = rd_bitems_n(buf@, e.1 as int, (n - k - 1) as nat);
            if inner is Some {
                assert(witness_view(acc@).push(e.0@) + inner->Some_0.0 =~= witness_view(acc@) + (seq![e.0@]
                    + inner->Some_0.0));
            }
        }
        acc.push(e.0);
        cur = e.1;
        k = k + 1;
    }
    proof {
        assert(witness_view(acc@) + Seq::<Seq<u8>>::empty() =~= witness_view(acc@));
    }
    Some((acc, cur))
}

pub fn write_bitems(out: &mut Vec<u8>, v: &Vec<Vec<u8>>)
    ensures
        final(out)@ == old(out)@ + (ser_u64(v@.len() as u64) + ser_bitems(witness_view(v@))),
{
    let ghost pre = out@;
    write_u64(out, v.len() as u64);
    let mut k: usize = 0;
    while k < v.len()
        invariant
            k <= v@.len(),
            out@ == pre + ser_u64(v@.len() as u64) + ser_bitems(witness_view(v@).take(k as int)),
        decreases v@.len() - k,
    {
        write_bytes(out, &v[k]);
        proof {
            lemma_ser_bitems_snoc(witness_view(v@).take(k as int), witness_view(v@)[k as int]);
            assert(witness_view(v@).take(k + 1) =~= witness_view(v@).take(k as int).push(witness_view(v@)[k as int]));
            assert(witness_view(v@)[k as int] == v@[k as int]@);
        }
        k += 1;
    }
    proof {
        assert(witness_view(v@).take(v@.len() as int) =~= witness_view(v@));
        assert(out@ =~= pre + (ser_u64(v@.len() as u64) + ser_bitems(witness_view(v@))));
    }
}


/// A witness stack travels as an item count and then each item.
pub open spec fn ser_witness(w: Seq<Seq<u8>>) -> Seq<u8> {
    ser_u64(w.len() as u64) + ser_bitems(w)
}

pub open spec fn witness_b(w: Seq<Seq<u8>>) -> bool {
    w.len() <= u64::MAX && forall|q: int| 0 <= q < w.len() ==> bytes_b(#[trigger] w[q])
}

pub open spec fn rd_witness(s: Seq<u8>, i: int) -> Option<(Seq<Seq<u8>>, int)> {
    match rd_u64(s, i) {
        None => None,
        Some((n, j)) => rd_bitems_n(s, j, n as nat),
    }
}

pub fn read_witness(buf: &Vec<u8>, pos: usize) -> (r: Option<(Vec<Vec<u8>>, usize)>)
    ensures
        (match rd_witness(buf@, pos as int) {
            Some((w, j)) => r matches Some(p) && witness_view(p.0@) == w && p.1 == j,
            None => r is None,
        }),
{
    match read_u64(buf, pos) {
        None => None,
        Some(n) => read_bitems(buf, n.1, n.0),
    }
}

pub fn write_witness(out: &mut Vec<u8>, w: &Vec<Vec<u8>>)
    ensures
        final(out)@ == old(out)@ + ser_witness(witness_view(w@)),
{
    write_bitems(out, w);
}

pub proof fn lemma_witness_round(w: Seq<Seq<u8>>, s: Seq<u8>, i: int)
    requires
        0 <= i,
        witness_b(w),
        i + ser_witness(w).len() <= s.len(),
        s.subrange(i, i + ser_witness(w).len()) == ser_witness(w),
    ensures
        rd_witness(s, i) == Some((w, i + ser_witness(w).len())),
{
    lemma_subrange_concat(s, i, ser_u64(w.len() as u64), ser_bitems(w));
    lemma_u64_round(w.len() as u64, s, i);
    lemma_bitems_round(w, s, i + 8);
}

pub open spec fn ser_opt_witness(o: Option<Seq<Seq<u8>>>) -> Seq<u8> {
    match o {
        None => ser_u64(0),
        Some(w) => ser_u64(1) + ser_witness(w),
    }
}

pub open spec fn rd_opt_witness(s: Seq<u8>, i: int) -> Option<(Option<Seq<Seq<u8>>>, int)> {
    match rd_u64(s, i) {
        None => None,
        Some((t, j)) => if t == 0 {
            Some((None, j))
        } else if t == 1 {
            match rd_witness(s, j) {
                None => None,
                Some((w, k)) => Some((Some(w), k)),
            }
        } else {
            None
        },
    }
}

pub fn read_opt_witness(buf: &Vec<u8>, pos: usize) -> (r: Option<(Option<Vec<Vec<u8>>>, usize)>)
    ensures
        (match rd_opt_witness(buf@, pos as int) {
            Some((o, j)) => r matches Some(p) && p.1 == j && (match o {
                None => p.0 is None,
                Some(w) => p.0 matches Some(v) && witness_view(v@) == w,
            }),
            None => r is None,
        }),
{
    match read_u64(buf, pos) {
        None => None,
        Some(t) => if t.0 == 0 {
            Some((None, t.1))
        } else if t.0 == 1 {
            match read_witness(buf, t.1) {
                None => None,
                Some(w) => Some((Some(w.0), w.1)),
            }
        } else {
            None
        },
    }
}

pub fn write_opt_witness(out: &mut Vec<u8>, o: &Option<Vec<Vec<u8>>>)
    ensures
        final(out)@ == old(out)@ + ser_opt_witness(
            match o {
                Some(w) => Some(witness_view(w@)),
                None => None,
            },
        ),
{
    let ghost pre = out@;
    match o {
        None => {
            write_u64(out, 0);
        },
        Some(w) => {
            write_u64(out, 1);
            write_witness(out, w);
            proof {
                assert(out@ =~= pre + (ser_u64(1) + ser_witness(witness_view(w@))));
            }
        },
    }
}

pub proof fn lemma_opt_witness_round(o: Option<Seq<Seq<u8>>>, s: Seq<u8>, i: int)
    requires
        0 <= i,
        (o matches Some(w) ==> witness_b(w)),
        i + ser_opt_witness(o).len() <= s.len(),
        s.subrange(i, i + ser_opt_witness(o).len()) == ser_opt_witness(o),
    ensures
        rd_opt_witness(s, i) == Some((o, i + ser_opt_witness(o).len())),
{
    match o {
        None => {
            lemma_u64_round(0, s, i);
        },
        Some(w) => {
            lemma_subrange_concat(s, i, ser_u64(1), ser_witness(w));
            lemma_u64_round(1, s, i);
            lemma_witness_round(w, s, i + 8);
        },
    }
}

/// One input's auxiliary data, field by field.
pub open spec fn ser_inaux(a: InputAuxV) -> Seq<u8> {
    ser_opt_txout(a.witness_utxo) + ((ser_u64(a.partial_sigs.len() as u64) + ser_psigs(
        a.partial_sigs,
    )) + (ser_opt_bytes(a.witness_script) + (ser_opt_u32(a.sighash_type) + ser_opt_witness(
        a.final_witness,
    ))))
}

pub open spec fn inaux_b(a: InputAuxV) -> bool {
    &&& (a.witness_utxo matches Some(o) ==> txout_b(o))
    &&& a.partial_sigs.len() <= u64::MAX
    &&& (forall|q: int| 0 <= q < a.partial_sigs.len() ==> psig_b(#[trigger] a.partial_sigs[q]))
    &&& (a.witness_script matches Some(b) ==> bytes_b(b))
    &&& (a.final_witness matches Some(w) ==> witness_b(w))
}

pub open spec fn rd_inaux(s: Seq<u8>, i: int) -> Option<(InputAuxV, int)> {
    match rd_opt_txout(s, i) {
        None => None,
        Some((wu, j1)) => match rd_u64(s, j1) {
            None => None,
            Some((n, j2)) => match rd_psigs_n(s, j2, n as nat) {
                None => None,
                Some((sigs, j3)) => match rd_opt_bytes(s, j3) {
                    None => None,
                    Some((ws, j4)) => match rd_opt_u32(s, j4) {
                        None => None,
                        Some((sh, j5)) => match rd_opt_witness(s, j5) {
                            None => None,
                            Some((fw, j6)) => Some(
                                (
                                    InputAuxV {
                                        witness_utxo: wu,
                                        partial_sigs: sigs,
                                        witness_script: ws,
                                        sighash_type: sh,
                                        final_witness: fw,
                                    },
                                    j6,
                                ),
                            ),
                        },
                    },
                },
            },
        },
    }
}

pub fn read_inaux(buf: &Vec<u8>, pos: usize) -> (r: Option<(InputAux, usize)>)
    ensures
        (match rd_inaux(buf@, pos as int) {
            Some((m, j)) => r matches Some(p) && p.0@ == m && p.1 == j,
            None => r is None,
        }),
{
    let wu = match read_opt_txout(buf, pos) {
        None => {
            return None;
        },
        Some(p) => p,
    };
    let n = match read_u64(buf, wu.1) {
        None => {
            return None;
        },
        Some(p) => p,
    };
    let sigs = match read_psigs(buf, n.1, n.0) {
        None => {
            return None;
        },
        Some(p) => p,
    };
    let ws = match read_opt_bytes(buf, sigs.1) {
        None => {
            return None;
        },
        Some(p) => p,
    };
    let sh = match read_opt_u32(buf, ws.1) {
        None => {
            return None;
        },
        Some(p) => p,
    };
    let fw = match read_opt_witness(buf, sh.1) {
        None => {
            return None;
        },
        Some(p) => p,
    };
    let a = InputAux {
        witness_utxo: wu.0,
        partial_sigs: sigs.0,
        witness_script: ws.0,
        sighash_type: sh.0,
        final_witness: fw.0,
    };
    proof {
        if rd_inaux(buf@, pos as int) is Some {
            assert(a@ =~= rd_inaux(buf@, pos as int)->Some_0.0);
        }
    }
    Some((a, fw.1))
}

#[verifier::rlimit(100)]
pub fn write_inaux(out: &mut Vec<u8>, a: &InputAux)
    ensures
        final(out)@ == old(out)@ + ser_inaux(a@),
{
    let ghost pre = out@;
    write_opt_txout(out, &a.witness_utxo);
    write_psigs(out, &a.partial_sigs);
    write_opt_bytes(out, &a.witness_script);
    write_opt_u32(out, &a.sighash_type);
    write_opt_witness(out, &a.final_witness);
    proof {
        assert(out@ =~= pre + ser_inaux(a@));
    }
}

#[verifier::rlimit(100)]
#[verifier::spinoff_prover]
pub proof fn lemma_inaux_round(m: InputAuxV, s: Seq<u8>, i: int)
    requires
        0 <= i,
        inaux_b(m),
        i + ser_inaux(m).len() <= s.len(),
        s.subrange(i, i + ser_inaux(m).len()) == ser_inaux(m),
    ensures
        rd_inaux(s, i) == Some((m, i + ser_inaux(m).len())),
{
    let p1 = ser_opt_txout(m.witness_utxo);
    let p2 = ser_u64(m.partial_sigs.len() as u64) + ser_psigs(m.partial_sigs);
    let p3 = ser_opt_bytes(m.witness_script);
    let p4 = ser_opt_u32(m.sighash_type);
    let p5 = ser_opt_witness(m.final_witness);
    lemma_subrange_concat(s, i, p1, p2 + (p3 + (p4 + p5)));
    lemma_opt_txout_round(m.witness_utxo, s, i);
    let i1 = i + p1.len();
    lemma_subrange_concat(s, i1, p2, p3 + (p4 + p5));
    lemma_subrange_concat(s, i1, ser_u64(m.partial_sigs.len() as u64), ser_psigs(m.partial_sigs));
    lemma_u64_round(m.partial_sigs.len() as u64, s, i1);
    lemma_psigs_round(m.partial_sigs, s, i1 + 8);
    let i2 = i1 + p2.len();
    lemma_subrange_concat(s, i2, p3, p4 + p5);
    lemma_opt_bytes_round(m.witness_script, s, i2);
    let i3 = i2 + p3.len();
    lemma_subrange_concat(s, i3, p4, p5);
    lemma_opt_u32_round(m.sighash_type, s, i3);
    let i4 = i3 + p4.len();
    lemma_opt_witness_round(m.final_witness, s, i4);
    assert(rd_inaux(s, i)->Some_0.0 =~= m);
}

/// One output's auxiliary data.
pub open spec fn ser_outaux(a: OutputAuxV) -> Seq<u8> {
    ser_opt_bytes(a.witness_script)
}

pub open spec fn outaux_b(a: OutputAuxV) -> bool {
    a.witness_script matches Some(b) ==> bytes_b(b)
}

pub open spec fn rd_outaux(s: Seq<u8>, i: int) -> Option<(OutputAuxV, int)> {
    match rd_opt_bytes(s, i) {
        None => None,
        Some((ws, j)) => Some((OutputAuxV { witness_script: ws }, j)),
    }
}

pub fn read_outaux(buf: &Vec<u8>, pos: usize) -> (r: Option<(OutputAux, usize)>)
    ensures
        (match rd_outaux(buf@, pos as int) {
            Some((m, j)) => r matches Some(p) && p.0@ == m && p.1 == j,
            None => r is None,
        }),
{
    match read_opt_bytes(buf, pos) {
        None => None,
        Some(ws) => {
            let a = OutputAux { witness_script: ws.0 };
            proof {
                if rd_outaux(buf@, pos as int) is Some {
                    assert(a@ =~= rd_outaux(buf@, pos as int)->Some_0.0);
                }
            }
            Some((a, ws.1))
        },
    }
}

pub fn write_outaux(out: &mut Vec<u8>, a: &OutputAux)
    ensures
        final(out)@ == old(out)@ + ser_outaux(a@),
{
    write_opt_bytes(out, &a.witness_script);
}

pub proof fn lemma_outaux_round(m: OutputAuxV, s: Seq<u8>, i: int)
    requires
        0 <= i,
        outaux_b(m),
        i + ser_outaux(m).len() <= s.len(),
        s.subrange(i, i + ser_outaux(m).len()) == ser_outaux(m),
    ensures
        rd_outaux(s, i) == Some((m, i + ser_outaux(m).len())),
{
    lemma_opt_bytes_round(m.witness_script, s, i);
    assert(rd_outaux(s, i)->Some_0.0 =~= m);
}

pub open spec fn ser_inauxs(s: Seq<InputAuxV>) -> Seq<u8>
    decreases s.len(),
{
    if s.len() == 0 {
        Seq::empty()
    } else {
        ser_inaux(s[0]) + ser_inauxs(s.drop_first())
    }
}

pub proof fn lemma_ser_inauxs_snoc(a: Seq<InputAuxV>, m: InputAuxV)
    ensures
        ser_inauxs(a.push(m)) == ser_inauxs(a) + ser_inaux(m),
    decreases a.len(),
{
    if a.len() == 0 {
        assert(a.push(m).drop_first() =~= Seq::<InputAuxV>::empty());
        assert(a.push(m)[0] == m);
        assert(ser_inauxs(Seq::<InputAuxV>::empty()) =~= Seq::<u8>::empty());
        assert(a =~= Seq::<InputAuxV>::empty());
        assert(ser_inaux(m) + Seq::<u8>::empty() =~= ser_inaux(m));
        assert(ser_inauxs(a) + ser_inaux(m) =~= ser_inaux(m));
    } else {
        assert(a.push(m).drop_first() =~= a.drop_first().push(m));
        assert(a.push(m)[0] == a[0]);
        lemma_ser_inauxs_snoc(a.drop_first(), m);
        assert(ser_inaux(a[0]) + (ser_inauxs(a.drop_first()) + ser_inaux(m)) =~= (ser_inaux(a[0])
            + ser_inauxs(a.drop_first())) + ser_inaux(m));
    }
}

pub open spec fn rd_inauxs_n(s: Seq<u8>, i: int, n: nat) -> Option<(Seq<InputAuxV>, int)>
    decreases n,
{
    if n == 0 {
        Some((Seq::empty(), i))
    } else {
        match rd_inaux(s, i) {
            None => None,
            Some((m, j)) => match rd_inauxs_n(s, j, (n - 1) as nat) {
                None => None,
                Some((ms, k)) => Some((seq![m] + ms, k)),
            },
        }
    }
}

#[verifier::rlimit(100)]
#[verifier::spinoff_prover]
pub proof fn lemma_inauxs_round(ms: Seq<InputAuxV>, s: Seq<u8>, i: int)
    requires
        0 <= i,
        forall|q: int| 0 <= q < ms.len() ==> inaux_b(#[trigger] ms[q]),
        i + ser_inauxs(ms).len() <= s.len(),
        s.subrange(i, i + ser_inauxs(ms).len()) == ser_inauxs(ms),
    ensures
        rd_inauxs_n(s, i, ms.len()) == Some((ms, i + ser_inauxs(ms).len())),
    decreases ms.len(),
{
    if ms.len() == 0 {
        assert(ms =~= Seq::<InputAuxV>::empty());
    } else {
        assert(ser_inauxs(ms) == ser_inaux(ms[0]) + ser_inauxs(ms.drop_first()));
        lemma_subrange_concat(s, i, ser_inaux(ms[0]), ser_inauxs(ms.drop_first()));
        lemma_inaux_round(ms[0], s, i);
        assert(forall|q: int|
            0 <= q < ms.drop_first().len() ==> inaux_b(#[trigger] ms.drop_first()[q])) by {
            assert(forall|q: int|
                0 <= q < ms.drop_first().len() ==> ms.drop_first()[q] == ms[q + 1]);
        }
        lemma_inauxs_round(ms.drop_first(), s, i + ser_inaux(ms[0]).len());
        assert(seq![ms[0]] + ms.drop_first() =~= ms);
    }
}

#[verifier::rlimit(100)]
pub fn read_inauxs(buf: &Vec<u8>, pos: usize, n: u64) -> (r: Option<(Vec<InputAux>, usize)>)
    ensures
        (match rd_inauxs_n(buf@, pos as int, n as nat) {
            Some((ms, j)) => r matches Some(p) && inaux_view(p.0@) == ms && p.1 == j,
            None => r is None,
        }),
{
    let mut acc: Vec<InputAux> = Vec::new();
    let mut cur: usize = pos;
    let mut k: u64 = 0;
    proof {
        assert(inaux_view(acc@) =~= Seq::<InputAuxV>::empty());
    }
    while k < n
        invariant
            k <= n,
            (match rd_inauxs_n(buf@, cur as int, (n - k) as nat) {
                Some((ms, j)) => rd_inauxs_n(buf@, pos as int, n as nat) matches Some(w) && w.0
                    == inaux_view(acc@) + ms && w.1 == j,
                None => rd_inauxs_n(buf@, pos as int, n as nat) is None,
            }),
        decreases n - k,
    {
        let e = match read_inaux(buf, cur) {
            None => {
                return None;
            },
            Some(p) => p,
        };
        proof {
            assert(inaux_view(acc@.push(e.0)) =~= inaux_view(acc@).push(e.0@));
            let inner = rd_inauxs_n(buf@, e.1 as int, (n - k - 1) as nat);
            if inner is Some {
                assert(inaux_view(acc@).push(e.0@) + inner->Some_0.0 =~= inaux_view(acc@) + (seq![e.0@]
                    + inner->Some_0.0));
            }
        }
        acc.push(e.0);
        cur = e.1;
        k = k + 1;
    }
    proof {
        assert(inaux_view(acc@) + Seq::<InputAuxV>::empty() =~= inaux_view(acc@));
    }
    Some((acc, cur))
}

#[verifier::rlimit(100)]
pub fn write_inauxs(out: &mut Vec<u8>, v: &Vec<InputAux>)
    ensures
        final(out)@ == old(out)@ + (ser_u64(v@.len() as u64) + ser_inauxs(inaux_view(v@))),
{
    let ghost pre = out@;
    write_u64(out, v.len() as u64);
    let mut k: usize = 0;
    while k < v.len()
        invariant
            k <= v@.len(),
            out@ == pre + ser_u64(v@.len() as u64) + ser_inauxs(inaux_view(v@).take(k as int)),
        decreases v@.len() - k,
    {
        write_inaux(out, &v[k]);
        proof {
            lemma_ser_inauxs_snoc(inaux_view(v@).take(k as int), inaux_view(v@)[k as int]);
            assert(inaux_view(v@).take(k + 1) =~= inaux_view(v@).take(k as int).push(inaux_view(v@)[k as int]));
            assert(inaux_view(v@)[k as int] == v@[k as int]@);
        }
        k += 1;
    }
    proof {
        assert(inaux_view(v@).take(v@.len() as int) =~= inaux_view(v@));
        assert(out@ =~= pre + (ser_u64(v@.len() as u64) + ser_inauxs(inaux_view(v@))));
    }
}

pub open spec fn ser_outauxs(s: Seq<OutputAuxV>) -> Seq<u8>
    decreases s.len(),
{
    if s.len() == 0 {
        Seq::empty()
    } else {
        ser_outaux(s[0]) + ser_outauxs(s.drop_first())
    }
}

pub proof fn lemma_ser_outauxs_snoc(a: Seq<OutputAuxV>, m: OutputAuxV)
    ensures
        ser_outauxs(a.push(m)) == ser_outauxs(a) + ser_outaux(m),
    decreases a.len(),
{
    if a.len() == 0 {
        assert(a.push(m).drop_first() =~= Seq::<OutputAuxV>::empty());
        assert(a.push(m)[0] == m);
        assert(ser_outauxs(Seq::<OutputAuxV>::empty()) =~= Seq::<u8>::empty());
        assert(a =~= Seq::<OutputAuxV>::empty());
        assert(ser_outaux(m) + Seq::<u8>::empty() =~= ser_outaux(m));
        assert(ser_outauxs(a) + ser_outaux(m) =~= ser_outaux(m));
    } else {
        assert(a.push(m).drop_first() =~= a.drop_first().push(m));
        assert(a.push(m)[0] == a[0]);
        lemma_ser_outauxs_snoc(a.drop_first(), m);
        assert(ser_outaux(a[0]) + (ser_outauxs(a.drop_first()) + ser_outaux(m)) =~= (ser_outaux(a[0])
            + ser_outauxs(a.drop_first())) + ser_outaux(m));
    }
}

pub open spec fn rd_outauxs_n(s: Seq<u8>, i: int, n: nat) -> Option<(Seq<OutputAuxV>, int)>
    decreases n,
{
    if n == 0 {
        Some((Seq::empty(), i))
    } else {
        match rd_outaux(s, i) {
            None => None,
            Some((m, j)) => match rd_outauxs_n(s, j, (n - 1) as nat) {
                None => None,
                Some((ms, k)) => Some((seq![m] + ms, k)),
            },
        }
    }
}

pub proof fn lemma_outauxs_round(ms: Seq<OutputAuxV>, s: Seq<u8>, i: int)
    requires
        0 <= i,
        forall|q: int| 0 <= q < ms.len() ==> outaux_b(#[trigger] ms[q]),
        i + ser_outauxs(ms).len() <= s.len(),
        s.subrange(i, i + ser_outauxs(ms).len()) == ser_outauxs(ms),
    ensures
        rd_outauxs_n(s, i, ms.len()) == Some((ms, i + ser_outauxs(ms).len())),
    decreases ms.len(),
{
    if ms.len() == 0 {
        assert(ms =~= Seq::<OutputAuxV>::empty());
    } else {
        assert(ser_outauxs(ms) == ser_outaux(ms[0]) + ser_outauxs(ms.drop_first()));
        lemma_subrange_concat(s, i, ser_outaux(ms[0]), ser_outauxs(ms.drop_first()));
        lemma_outaux_round(ms[0], s, i);
        assert(forall|q: int|
            0 <= q < ms.drop_first().len() ==> outaux_b(#[trigger] ms.drop_first()[q])) by {
            assert(forall|q: int|
                0 <= q < ms.drop_first().len() ==> ms.drop_first()[q] == ms[q + 1]);
        }
        lemma_outauxs_round(ms.drop_first(), s, i + ser_outaux(ms[0]).len());
        assert(seq![ms[0]] + ms.drop_first() =~= ms);
    }
}

pub fn read_outauxs(buf: &Vec<u8>, pos: usize, n: u64) -> (r: Option<(Vec<OutputAux>, usize)>)
    ensures
        (match rd_outauxs_n(buf@, pos as int, n as nat) {
            Some((ms, j)) => r matches Some(p) && outaux_view(p.0@) == ms && p.1 == j,
            None => r is None,
        }),
{
    let mut acc: Vec<OutputAux> = Vec::new();
    let mut cur: usize = pos;
    let mut k: u64 = 0;
    proof {
        assert(outaux_view(acc@) =~= Seq::<OutputAuxV>::empty());
    }
    while k < n
        invariant
            k <= n,
            (match rd_outauxs_n(buf@, cur as int, (n - k) as nat) {
                Some((ms, j)) => rd_outauxs_n(buf@, pos as int, n as nat) matches Some(w) && w.0
                    == outaux_view(acc@) + ms && w.1 == j,
                None => rd_outauxs_n(buf@, pos as int, n as nat) is None,
            }),
        decreases n - k,
    {
        let e = match read_outaux(buf, cur) {
            None => {
                return None;
            },
            Some(p) => p,
        };
        proof {
            assert(outaux_view(acc@.push(e.0)) =~= outaux_view(acc@).push(e.0@));
            let inner = rd_outauxs_n(buf@, e.1 as int, (n - k - 1) as nat);
            if inner is Some {
                assert(outaux_view(acc@).push(e.0@) + inner->Some_0.0 =~= outaux_view(acc@) + (seq![e.0@]
                    + inner->Some_0.0));
            }
        }
        acc.push(e.0);
        cur = e.1;
        k = k + 1;
    }
    proof {
        assert(outaux_view(acc@) + Seq::<OutputAuxV>::empty() =~= outaux_view(acc@));
    }
    Some((acc, cur))
}

pub fn write_outauxs(out: &mut Vec<u8>, v: &Vec<OutputAux>)
    ensures
        final(out)@ == old(out)@ + (ser_u64(v@.len() as u64) + ser_outauxs(outaux_view(v@))),
{
    let ghost pre = out@;
    write_u64(out, v.len() as u64);
    let mut k: usize = 0;
    while k < v.len()
        invariant
            k <= v@.len(),
            out@ == pre + ser_u64(v@.len() as u64) + ser_outauxs(outaux_view(v@).take(k as int)),
        decreases v@.len() - k,
    {
        write_outaux(out, &v[k]);
        proof {
            lemma_ser_outauxs_snoc(outaux_view(v@).take(k as int), outaux_view(v@)[k as int]);
            assert(outaux_view(v@).take(k + 1) =~= outaux_view(v@).take(k as int).push(outaux_view(v@)[k as int]));
            assert(outaux_view(v@)[k as int] == v@[k as int]@);
        }
        k += 1;
    }
    proof {
        assert(outaux_view(v@).take(v@.len() as int) =~= outaux_view(v@));
        assert(out@ =~= pre + (ser_u64(v@.len() as u64) + ser_outauxs(outaux_view(v@))));
    }
}


/// The unsigned transaction, field by field.
pub open spec fn ser_tx(t: TransactionV) -> Seq<u8> {
    ser_u32(t.version) + (ser_u32(t.lock_time) + ((ser_u64(t.inputs.len() as u64) + ser_txins(
        t.inputs,
    )) + (ser_u64(t.outputs.len() as u64) + ser_txouts(t.outputs))))
}

pub open spec fn tx_b(t: TransactionV) -> bool {
    &&& t.inputs.len() <= u64::MAX
    &&& t.outputs.len() <= u64::MAX
    &&& (forall|q: int| 0 <= q < t.inputs.len() ==> txin_b(#[trigger] t.inputs[q]))
    &&& (forall|q: int| 0 <= q < t.outputs.len() ==> txout_b(#[trigger] t.outputs[q]))
}

pub open spec fn rd_tx(s: Seq<u8>, i: int) -> Option<(TransactionV, int)> {
    match rd_u32(s, i) {
        None => None,
        Some((ver, j1)) => match rd_u32(s, j1) {
            None => None,
            Some((lt, j2)) => match rd_u64(s, j2) {
                None => None,
                Some((n, j3)) => match rd_txins_n(s, j3, n as nat) {
                    None => None,
                    Some((ins, j4)) => match rd_u64(s, j4) {
                        None => None,
                        Some((m, j5)) => match rd_txouts_n(s, j5, m as nat) {
                            None => None,
                            Some((outs, j6)) => Some(
                                (
                                    TransactionV {
                                        version: ver,
                                        lock_time: lt,
                                        inputs: ins,
                                        outputs: outs,
                                    },
                                    j6,
                                ),
                            ),
                        },
                    },
                },
            },
        },
    }
}

pub fn read_tx(buf: &Vec<u8>, pos: usize) -> (r: Option<(Transaction, usize)>)
    ensures
        (match rd_tx(buf@, pos as int) {
            Some((m, j)) => r matches Some(p) && p.0@ == m && p.1 == j,
            None => r is None,
        }),
{
    let ver = match read_u32(buf, pos) {
        None => {
            return None;
        },
        Some(p) => p,
    };
    let lt = match read_u32(buf, ver.1) {
        None => {
            return None;
        },
        Some(p) => p,
    };
    let n = match read_u64(buf, lt.1) {
        None => {
            return None;
        },
        Some(p) => p,
    };
    let ins = match read_txins(buf, n.1, n.0) {
        None => {
            return None;
        },
        Some(p) => p,
    };
    let m = match read_u64(buf, ins.1) {
        None => {
            return None;
        },
        Some(p) => p,
    };
    let outs = match read_txouts(buf, m.1, m.0) {
        None => {
            return None;
        },
        Some(p) => p,
    };
    let t = Transaction { version: ver.0, lock_time: lt.0, inputs: ins.0, outputs: outs.0 };
    proof {
        if rd_tx(buf@, pos as int) is Some {
            assert(t@ =~= rd_tx(buf@, pos as int)->Some_0.0);
        }
    }
    Some((t, outs.1))
}

#[verifier::rlimit(100)]
pub fn write_tx(out: &mut Vec<u8>, t: &Transaction)
    ensures
        final(out)@ == old(out)@ + ser_tx(t@),
{
    let ghost pre = out@;
    write_u64(out, t.version as u64);
    write_u64(out, t.lock_time as u64);
    write_txins(out, &t.inputs);
    write_txouts(out, &t.outputs);
    proof {
        assert(out@ =~= pre + ser_tx(t@));
    }
}

#[verifier::rlimit(100)]
pub proof fn lemma_tx_round(m: TransactionV, s: Seq<u8>, i: int)
    requires
        0 <= i,
        tx_b(m),
        i + ser_tx(m).len() <= s.len(),
        s.subrange(i, i + ser_tx(m).len()) == ser_tx(m),
    ensures
        rd_tx(s, i) == Some((m, i + ser_tx(m).len())),
{
    let p1 = ser_u32(m.version);
    let p2 = ser_u32(m.lock_time);
    let p3 = ser_u64(m.inputs.len() as u64) + ser_txins(m.inputs);
    let p4 = ser_u64(m.outputs.len() as u64) + ser_txouts(m.outputs);
    lemma_subrange_concat(s, i, p1, p2 + (p3 + p4));
    lemma_u32_round(m.version, s, i);
    let i1 = i + 8;
    lemma_subrange_concat(s, i1, p2, p3 + p4);
    lemma_u32_round(m.lock_time, s, i1);
    let i2 = i1 + 8;
    lemma_subrange_concat(s, i2, p3, p4);
    lemma_subrange_concat(s, i2, ser_u64(m.inputs.len() as u64), ser_txins(m.inputs));
    lemma_u64_round(m.inputs.len() as u64, s, i2);
    lemma_txins_round(m.inputs, s, i2 + 8);
    let i3 = i2 + p3.len();
    lemma_subrange_concat(s, i3, ser_u64(m.outputs.len() as u64), ser_txouts(m.outputs));
    lemma_u64_round(m.outputs.len() as u64, s, i3);
    lemma_txouts_round(m.outputs, s, i3 + 8);
    assert(rd_tx(s, i)->Some_0.0 =~= m);
}

/// The five bytes that open every serialized PSBT.
pub open spec fn magic() -> Seq<u8> {
    seq![112u8, 115u8, 98u8, 116u8, 255u8]
}

/// The serialized form of a whole PSBT: the magic prefix, the unsigned
/// transaction, then the per-input and per-output auxiliary maps.
pub open spec fn ser_psbt(p: PsbtV) -> Seq<u8> {
    magic() + (ser_tx(p.tx) + ((ser_u64(p.inputs.len() as u64) + ser_inauxs(p.inputs)) + (ser_u64(
        p.outputs.len() as u64,
    ) + ser_outauxs(p.outputs))))
}

/// Every length in the PSBT fits its length prefix. Any PSBT held in
/// memory satisfies this.
pub open spec fn psbt_b(p: PsbtV) -> bool {
    &&& tx_b(p.tx)
    &&& p.inputs.len() <= u64::MAX
    &&& p.outputs.len() <= u64::MAX
    &&& (forall|q: int| 0 <= q < p.inputs.len() ==> inaux_b(#[trigger] p.inputs[q]))
    &&& (forall|q: int| 0 <= q < p.outputs.len() ==> outaux_b(#[trigger] p.outputs[q]))
}

/// The parser's view of a byte string: the PSBT it holds and where it
/// ends, or nothing. A parse that disagrees with the embedded
/// transaction's own input or output count is refused.
pub open spec fn rd_psbt(s: Seq<u8>) -> Option<(PsbtV, int)> {
    if s.len() < 5 || s.subrange(0, 5) != magic() {
        None
    } else {
        match rd_tx(s, 5) {
            None => None,
            Some((tx, j1)) => match rd_u64(s, j1) {
                None => None,
                Some((n, j2)) => match rd_inauxs_n(s, j2, n as nat) {
                    None => None,
                    Some((ins, j3)) => match rd_u64(s, j3) {
                        None => None,
                        Some((m, j4)) => match rd_outauxs_n(s, j4, m as nat) {
                            None => None,
                            Some((outs, j5)) => if ins.len() == tx.inputs.len() && outs.len()
                                == tx.outputs.len() {
                                Some((PsbtV { tx, inputs: ins, outputs: outs }, j5))
                            } else {
                                None
                            },
                        },
                    },
                },
            },
        }
    }
}

/// Serialize a PSBT to its byte form.
pub fn serialize(p: &Psbt) -> (r: Vec<u8>)
    ensures
        r@ == ser_psbt(p@),
        psbt_b(p@),
{
    proof {
        lemma_psbt_view_bounded(p);
    }
    let mut out: Vec<u8> = Vec::new();
    out.push(112);
    out.push(115);
    out.push(98);
    out.push(116);
    out.push(255);
    proof {
        assert(out@ =~= magic());
    }
    write_tx(&mut out, &p.unsigned_tx);
    write_inauxs(&mut out, &p.inputs);
    write_outauxs(&mut out, &p.outputs);
    proof {
        assert(out@ =~= ser_psbt(p@));
    }
    out
}

/// A PSBT held in memory has every length within its prefix range.
pub proof fn lemma_psbt_view_bounded(p: &Psbt)
    ensures
        psbt_b(p@),
{
    assert(usize::MAX as int <= u64::MAX as int);
    assert forall|q: int| 0 <= q < p@.tx.inputs.len() implies txin_b(#[trigger] p@.tx.inputs[q]) by {
        assert(p@.tx.inputs[q] == p.unsigned_tx.inputs@[q]@);
        vstd::std_specs::vec::axiom_spec_len(&p.unsigned_tx.inputs@[q].txid);
    }
    assert forall|q: int| 0 <= q < p@.tx.outputs.len() implies txout_b(
        #[trigger] p@.tx.outputs[q],
    ) by {
        assert(p@.tx.outputs[q] == p.unsigned_tx.outputs@[q]@);
        vstd::std_specs::vec::axiom_spec_len(&p.unsigned_tx.outputs@[q].script_pubkey);
    }
    assert forall|q: int| 0 <= q < p@.inputs.len() implies inaux_b(#[trigger] p@.inputs[q]) by {
        let a = p.inputs@[q];
        assert(p@.inputs[q] == a@);
        match a.witness_utxo {
            Some(o) => {
                vstd::std_specs::vec::axiom_spec_len(&o.script_pubkey);
            },
            None => {},
        }
        vstd::std_specs::vec::axiom_spec_len(&a.partial_sigs);
        assert forall|w: int| 0 <= w < a@.partial_sigs.len() implies psig_b(
            #[trigger] a@.partial_sigs[w],
        ) by {
            assert(a@.partial_sigs[w] == a.partial_sigs@[w]@);
            vstd::std_specs::vec::axiom_spec_len(&a.partial_sigs@[w].pubkey);
            vstd::std_specs::vec::axiom_spec_len(&a.partial_sigs@[w].sig);
        }
        match a.witness_script {
            Some(b) => {
                vstd::std_specs::vec::axiom_spec_len(&b);
            },
            None => {},
        }
        match a.final_witness {
            Some(w) => {
                vstd::std_specs::vec::axiom_spec_len(&w);
                assert forall|t: int| 0 <= t < crate::psbt::witness_view(w@).len() implies bytes_b(
                    #[trigger] crate::psbt::witness_view(w@)[t],
                ) by {
                    assert(crate::psbt::witness_view(w@)[t] == w@[t]@);
                    vstd::std_specs::vec::axiom_spec_len(&w@[t]);
                }
            },
            None => {},
        }
    }
    assert forall|q: int| 0 <= q < p@.outputs.len() implies outaux_b(#[trigger] p@.outputs[q]) by {
        let a = p.outputs@[q];
        assert(p@.outputs[q] == a@);
        match a.witness_script {
            Some(b) => {
                vstd::std_specs::vec::axiom_spec_len(&b);
            },
            None => {},
        }
    }
    vstd::std_specs::vec::axiom_spec_len(&p.unsigned_tx.inputs);
    vstd::std_specs::vec::axiom_spec_len(&p.unsigned_tx.outputs);
    vstd::std_specs::vec::axiom_spec_len(&p.inputs);
    vstd::std_specs::vec::axiom_spec_len(&p.outputs);
    assert(p@.tx.inputs.len() == p.unsigned_tx.inputs@.len());
    assert(p@.tx.outputs.len() == p.unsigned_tx.outputs@.len());
    assert(p@.inputs.len() == p.inputs@.len());
    assert(p@.outputs.len() == p.outputs@.len());
}

/// Parse a serialized PSBT. Exactly the byte strings `serialize`
/// produces are accepted: anything else is `InvalidPsbt`, and what comes
/// back views equal to what was serialized — and serializes back to the
/// very bytes given.
pub fn deserialize(buf: &Vec<u8>) -> (r: Result<Psbt, Error>)
    ensures
        (match rd_psbt(buf@) {
            Some((m, end)) => if end == buf@.len() {
                r matches Ok(q) && q@ == m && q@.wf()
            } else {
                r == Err::<Psbt, Error>(Error::InvalidPsbt)
            },
            None => r == Err::<Psbt, Error>(Error::InvalidPsbt),
        }),
        r matches Ok(q) ==> ser_psbt(q@) == buf@,
{
    if buf.len() < 5 {
        return Err(Error::InvalidPsbt);
    }
    if !(buf[0] == 112 && buf[1] == 115 && buf[2] == 98 && buf[3] == 116 && buf[4] == 255) {
        proof {
            assert(buf@.subrange(0, 5) != magic());
        }
        return Err(Error::InvalidPsbt);
    }
    proof {
        assert(buf@.subrange(0, 5) =~= magic());
    }
    let tx = match read_tx(buf, 5) {
        None => {
            return Err(Error::InvalidPsbt);
        },
        Some(p) => p,
    };
    let n = match read_u64(buf, tx.1) {
        None => {
            return Err(Error::InvalidPsbt);
        },
        Some(p) => p,
    };
    let ins = match read_inauxs(buf, n.1, n.0) {
        None => {
            return Err(Error::InvalidPsbt);
        },
        Some(p) => p,
    };
    let m = match read_u64(buf, ins.1) {
        None => {
            return Err(Error::InvalidPsbt);
        },
        Some(p) => p,
    };
    let outs = match read_outauxs(buf, m.1, m.0) {
        None => {
            return Err(Error::InvalidPsbt);
        },
        Some(p) => p,
    };
    if !(ins.0.len() == tx.0.inputs.len() && outs.0.len() == tx.0.outputs.len()) {
        return Err(Error::InvalidPsbt);
    }
    if outs.1 != buf.len() {
        return Err(Error::InvalidPsbt);
    }
    let q = Psbt { unsigned_tx: tx.0, inputs: ins.0, outputs: outs.0 };
    proof {
        if rd_psbt(buf@) is Some {
            assert(q@ =~= rd_psbt(buf@)->Some_0.0);
        }
        lemma_canonical(buf@);
    }
    Ok(q)
}

/// Where each part of a serialized PSBT lies in the byte string.
#[verifier::rlimit(100)]
#[verifier::spinoff_prover]
pub proof fn lemma_psbt_layout(m: PsbtV)
    ensures
        ({
            let s = ser_psbt(m);
            let p1 = ser_tx(m.tx);
            let p2 = ser_u64(m.inputs.len() as u64) + ser_inauxs(m.inputs);
            let p3 = ser_u64(m.outputs.len() as u64) + ser_outauxs(m.outputs);
            let i1 = 5 + p1.len() as int;
            let i2 = i1 + p2.len() as int;
            &&& s.len() == 5 + p1.len() + p2.len() + p3.len()
            &&& s.subrange(0, 5) == magic()
            &&& s.subrange(5, i1) == p1
            &&& s.subrange(i1, i1 + 8) == ser_u64(m.inputs.len() as u64)
            &&& s.subrange(i1 + 8, i2) == ser_inauxs(m.inputs)
            &&& s.subrange(i2, i2 + 8) == ser_u64(m.outputs.len() as u64)
            &&& s.subrange(i2 + 8, s.len() as int) == ser_outauxs(m.outputs)
        }),
{
    let s = ser_psbt(m);
    let p1 = ser_tx(m.tx);
    let p2 = ser_u64(m.inputs.len() as u64) + ser_inauxs(m.inputs);
    let p3 = ser_u64(m.outputs.len() as u64) + ser_outauxs(m.outputs);
    let i1 = 5 + p1.len() as int;
    let i2 = i1 + p2.len() as int;
    assert(s.subrange(0, s.len() as int) =~= s);
    lemma_subrange_concat(s, 0, magic(), p1 + (p2 + p3));
    lemma_subrange_concat(s, 5, p1, p2 + p3);
    lemma_subrange_concat(s, i1, p2, p3);
    lemma_subrange_concat(s, i1, ser_u64(m.inputs.len() as u64), ser_inauxs(m.inputs));
    lemma_subrange_concat(s, i2, ser_u64(m.outputs.len() as u64), ser_outauxs(m.outputs));
}

/// What the parser finds where the unsigned transaction lies.
#[verifier::rlimit(100)]
#[verifier::spinoff_prover]
pub proof fn lemma_reads_tx(m: PsbtV)
    requires
        psbt_b(m),
    ensures
        ser_psbt(m).len() >= 5,
        ser_psbt(m).subrange(0, 5) == magic(),
        rd_tx(ser_psbt(m), 5) == Some((m.tx, 5 + ser_tx(m.tx).len() as int)),
{
    lemma_psbt_layout(m);
    lemma_tx_round(m.tx, ser_psbt(m), 5);
}

/// What the parser finds where the input maps lie.
#[verifier::rlimit(100)]
#[verifier::spinoff_prover]
pub proof fn lemma_reads_inaux(m: PsbtV)
    requires
        psbt_b(m),
    ensures
        ({
            let s = ser_psbt(m);
            let i1 = 5 + ser_tx(m.tx).len() as int;
            let i2 = i1 + 8 + ser_inauxs(m.inputs).len() as int;
            &&& rd_u64(s, i1) == Some((m.inputs.len() as u64, i1 + 8))
            &&& rd_inauxs_n(s, i1 + 8, m.inputs.len()) == Some((m.inputs, i2))
        }),
{
    let s = ser_psbt(m);
    let i1 = 5 + ser_tx(m.tx).len() as int;
    lemma_psbt_layout(m);
    lemma_u64_round(m.inputs.len() as u64, s, i1);
    lemma_inauxs_round(m.inputs, s, i1 + 8);
}

/// What the parser finds where the output maps lie.
#[verifier::rlimit(100)]
#[verifier::spinoff_prover]
pub proof fn lemma_reads_outaux(m: PsbtV)
    requires
        psbt_b(m),
    ensures
        ({
            let s = ser_psbt(m);
            let i2 = 5 + ser_tx(m.tx).len() + 8 + ser_inauxs(m.inputs).len() as int;
            &&& rd_u64(s, i2) == Some((m.outputs.len() as u64, i2 + 8))
            &&& rd_outauxs_n(s, i2 + 8, m.outputs.len()) == Some((m.outputs, s.len() as int))
        }),
{
    let s = ser_psbt(m);
    let i2 = 5 + ser_tx(m.tx).len() + 8 + ser_inauxs(m.inputs).len() as int;
    lemma_psbt_layout(m);
    lemma_u64_round(m.outputs.len() as u64, s, i2);
    lemma_outauxs_round(m.outputs, s, i2 + 8);
}

/// Round trip: parsing a serialized PSBT gives back exactly the PSBT
/// that was serialized, consuming every byte. With `serialize` and
/// `deserialize` this says `deserialize(serialize(p))` returns `Ok` of a
/// PSBT equal to `p`.
#[verifier::rlimit(100)]
#[verifier::spinoff_prover]
pub proof fn lemma_round_trip(m: PsbtV)
    requires
        m.wf(),
        psbt_b(m),
    ensures
        rd_psbt(ser_psbt(m)) == Some((m, ser_psbt(m).len() as int)),
{
    let s = ser_psbt(m);
    let i1 = 5 + ser_tx(m.tx).len() as int;
    let i2 = i1 + 8 + ser_inauxs(m.inputs).len() as int;
    lemma_reads_tx(m);
    lemma_reads_inaux(m);
    lemma_reads_outaux(m);
    assert((m.inputs.len() as u64) as nat == m.inputs.len());
    assert((m.outputs.len() as u64) as nat == m.outputs.len());
    assert(rd_psbt(s) is Some);
    assert(rd_psbt(s)->Some_0.0 =~= m);
    assert(rd_psbt(s)->Some_0.1 == s.len());
}


/// Adjacent subranges join into one.
pub proof fn lemma_subrange_join(s: Seq<u8>, i: int, j: int, k: int)
    requires
        0 <= i <= j <= k <= s.len(),
    ensures
        s.subrange(i, k) == s.subrange(i, j) + s.subrange(j, k),
{
    assert(s.subrange(i, k) =~= s.subrange(i, j) + s.subrange(j, k)) by {
        assert(forall|t: int|
            0 <= t < k - i ==> #[trigger] s.subrange(i, k)[t] == (s.subrange(i, j) + s.subrange(
                j,
                k,
            ))[t]);
    }
}

/// What the parser read at `i` re-serializes to exactly the eight bytes
/// it came from.
pub proof fn lemma_u64_sound(s: Seq<u8>, i: int)
    ensures
        rd_u64(s, i) matches Some(p) ==> p.1 == i + 8 && 0 <= i && i + 8 <= s.len() && s.subrange(
            i,
            i + 8,
        ) == ser_u64(p.0),
{
    if rd_u64(s, i) is Some {
        let v = rd_u64(s, i)->Some_0.0;
        let x0 = s[i] as u64;
        let x1 = s[i + 1] as u64;
        let x2 = s[i + 2] as u64;
        let x3 = s[i + 3] as u64;
        let x4 = s[i + 4] as u64;
        let x5 = s[i + 5] as u64;
        let x6 = s[i + 6] as u64;
        let x7 = s[i + 7] as u64;
        assert(v == x0 + 256 * x1 + 65536 * x2 + 16777216 * x3 + 4294967296 * x4 + 1099511627776
            * x5 + 281474976710656 * x6 + 72057594037927936 * x7);
        assert((v % 256 == x0) && (v / 256 % 256 == x1) && (v / 65536 % 256 == x2) && (v / 16777216
            % 256 == x3) && (v / 4294967296 % 256 == x4) && (v / 1099511627776 % 256 == x5) && (v
            / 281474976710656 % 256 == x6) && (v / 72057594037927936 % 256 == x7))
            by (bit_vector)
            requires
                x0 < 256 && x1 < 256 && x2 < 256 && x3 < 256 && x4 < 256 && x5 < 256 && x6 < 256
                    && x7 < 256,
                v == x0 + 256 * x1 + 65536 * x2 + 16777216 * x3 + 4294967296 * x4 + 1099511627776
                    * x5 + 281474976710656 * x6 + 72057594037927936 * x7,
        ;
        assert(s.subrange(i, i + 8) =~= ser_u64(v));
    }
}

pub proof fn lemma_u32_sound(s: Seq<u8>, i: int)
    ensures
        rd_u32(s, i) matches Some(p) ==> p.1 == i + 8 && 0 <= i && i + 8 <= s.len() && s.subrange(
            i,
            i + 8,
        ) == ser_u32(p.0),
{
    lemma_u64_sound(s, i);
}

pub proof fn lemma_bytes_sound(s: Seq<u8>, i: int)
    ensures
        rd_bytes(s, i) matches Some(p) ==> 0 <= i && i + 8 <= p.1 <= s.len() && p.0.len()
            <= u64::MAX && s.subrange(i, p.1) == ser_bytes(p.0),
{
    if rd_bytes(s, i) is Some {
        let b = rd_bytes(s, i)->Some_0.0;
        let j = rd_bytes(s, i)->Some_0.1;
        let n = rd_u64(s, i)->Some_0.0;
        lemma_u64_sound(s, i);
        assert(b.len() == n);
        assert((b.len() as u64) == n);
        lemma_subrange_join(s, i, i + 8, j);
        assert(s.subrange(i + 8, j) == b);
        assert(s.subrange(i, j) == ser_u64(n) + b);
    }
}

pub proof fn lemma_opt_bytes_sound(s: Seq<u8>, i: int)
    ensures
        rd_opt_bytes(s, i) matches Some(p) ==> 0 <= i && i <= p.1 <= s.len() && (p.0 matches Some(
            b,
        ) ==> b.len() <= u64::MAX) && s.subrange(i, p.1) == ser_opt_bytes(p.0),
{
    if rd_opt_bytes(s, i) is Some {
        let t = rd_u64(s, i)->Some_0.0;
        let j = rd_u64(s, i)->Some_0.1;
        lemma_u64_sound(s, i);
        if t == 1 {
            lemma_bytes_sound(s, j);
            let k = rd_bytes(s, j)->Some_0.1;
            lemma_subrange_join(s, i, j, k);
        }
    }
}

pub proof fn lemma_opt_u32_sound(s: Seq<u8>, i: int)
    ensures
        rd_opt_u32(s, i) matches Some(p) ==> 0 <= i && i <= p.1 <= s.len() && s.subrange(i, p.1)
            == ser_opt_u32(p.0),
{
    if rd_opt_u32(s, i) is Some {
        let t = rd_u64(s, i)->Some_0.0;
        let j = rd_u64(s, i)->Some_0.1;
        lemma_u64_sound(s, i);
        if t == 1 {
            lemma_u32_sound(s, j);
            lemma_subrange_join(s, i, j, j + 8);
        }
    }
}

pub proof fn lemma_txout_sound(s: Seq<u8>, i: int)
    ensures
        rd_txout(s, i) matches Some(p) ==> 0 <= i && i <= p.1 <= s.len()
            && p.0.script_pubkey.len() <= u64::MAX && s.subrange(i, p.1) == ser_txout(p.0),
{
    if rd_txout(s, i) is Some {
        let j = rd_u64(s, i)->Some_0.1;
        lemma_u64_sound(s, i);
        lemma_bytes_sound(s, j);
        let k = rd_bytes(s, j)->Some_0.1;
        lemma_subrange_join(s, i, j, k);
    }
}

pub proof fn lemma_opt_txout_sound(s: Seq<u8>, i: int)
    ensures
        rd_opt_txout(s, i) matches Some(p) ==> 0 <= i && i <= p.1 <= s.len() && (p.0 matches Some(
            o,
        ) ==> o.script_pubkey.len() <= u64::MAX) && s.subrange(i, p.1) == ser_opt_txout(p.0),
{
    if rd_opt_txout(s, i) is Some {
        let t = rd_u64(s, i)->Some_0.0;
        let j = rd_u64(s, i)->Some_0.1;
        lemma_u64_sound(s, i);
        if t == 1 {
            lemma_txout_sound(s, j);
            let k = rd_txout(s, j)->Some_0.1;
            lemma_subrange_join(s, i, j, k);
        }
    }
}

pub proof fn lemma_txin_sound(s: Seq<u8>, i: int)
    ensures
        rd_txin(s, i) matches Some(p) ==> 0 <= i && i <= p.1 <= s.len() && p.0.txid.len()
            <= u64::MAX && s.subrange(i, p.1) == ser_txin(p.0),
{
    if rd_txin(s, i) is Some {
        lemma_bytes_sound(s, i);
        let j = rd_bytes(s, i)->Some_0.1;
        lemma_u32_sound(s, j);
        lemma_u32_sound(s, j + 8);
        lemma_subrange_join(s, j, j + 8, j + 16);
        lemma_subrange_join(s, i, j, j + 16);
    }
}

pub proof fn lemma_psig_sound(s: Seq<u8>, i: int)
    ensures
        rd_psig(s, i) matches Some(p) ==> 0 <= i && i <= p.1 <= s.len() && p.0.pubkey.len()
            <= u64::MAX && p.0.sig.len() <= u64::MAX && s.subrange(i, p.1) == ser_psig(p.0),
{
    if rd_psig(s, i) is Some {
        lemma_bytes_sound(s, i);
        let j = rd_bytes(s, i)->Some_0.1;
        lemma_bytes_sound(s, j);
        let k = rd_bytes(s, j)->Some_0.1;
        lemma_subrange_join(s, i, j, k);
    }
}


pub proof fn lemma_txins_sound(s: Seq<u8>, i: int, n: nat)
    requires
        0 <= i <= s.len(),
    ensures
        rd_txins_n(s, i, n) matches Some(p) ==> i <= p.1 <= s.len() && p.0.len() == n
            && s.subrange(i, p.1) == ser_txins(p.0) && (forall|q: int|
            0 <= q < p.0.len() ==> txin_b(#[trigger] p.0[q])),
    decreases n,
{
    if rd_txins_n(s, i, n) is Some {
        if n == 0 {
            assert(s.subrange(i, i) =~= Seq::<u8>::empty());
            assert(ser_txins(Seq::<TxInV>::empty()) =~= Seq::<u8>::empty());
            assert(rd_txins_n(s, i, n)->Some_0.0 =~= Seq::<TxInV>::empty());
        } else {
            lemma_txin_sound(s, i);
            let m0 = rd_txin(s, i)->Some_0.0;
            let j = rd_txin(s, i)->Some_0.1;
            lemma_txins_sound(s, j, (n - 1) as nat);
            let ms = rd_txins_n(s, j, (n - 1) as nat)->Some_0.0;
            let k = rd_txins_n(s, j, (n - 1) as nat)->Some_0.1;
            lemma_subrange_join(s, i, j, k);
            let whole = seq![m0] + ms;
            assert(whole.drop_first() =~= ms);
            assert(whole[0] == m0);
            assert(ser_txins(whole) == ser_txin(m0) + ser_txins(ms));
            assert(forall|q: int| 1 <= q < whole.len() ==> whole[q] == ms[q - 1]);
        }
    }
}

pub proof fn lemma_txouts_sound(s: Seq<u8>, i: int, n: nat)
    requires
        0 <= i <= s.len(),
    ensures
        rd_txouts_n(s, i, n) matches Some(p) ==> i <= p.1 <= s.len() && p.0.len() == n
            && s.subrange(i, p.1) == ser_txouts(p.0) && (forall|q: int|
            0 <= q < p.0.len() ==> txout_b(#[trigger] p.0[q])),
    decreases n,
{
    if rd_txouts_n(s, i, n) is Some {
        if n == 0 {
            assert(s.subrange(i, i) =~= Seq::<u8>::empty());
            assert(ser_txouts(Seq::<TxOutV>::empty()) =~= Seq::<u8>::empty());
            assert(rd_txouts_n(s, i, n)->Some_0.0 =~= Seq::<TxOutV>::empty());
        } else {
            lemma_txout_sound(s, i);
            let m0 = rd_txout(s, i)->Some_0.0;
            let j = rd_txout(s, i)->Some_0.1;
            lemma_txouts_sound(s, j, (n - 1) as nat);
            let ms = rd_txouts_n(s, j, (n - 1) as nat)->Some_0.0;
            let k = rd_txouts_n(s, j, (n - 1) as nat)->Some_0.1;
            lemma_subrange_join(s, i, j, k);
            let whole = seq![m0] + ms;
            assert(whole.drop_first() =~= ms);
            assert(whole[0] == m0);
            assert(ser_txouts(whole) == ser_txout(m0) + ser_txouts(ms));
            assert(forall|q: int| 1 <= q < whole.len() ==> whole[q] == ms[q - 1]);
        }
    }
}

pub proof fn lemma_psigs_sound(s: Seq<u8>, i: int, n: nat)
    requires
        0 <= i <= s.len(),
    ensures
        rd_psigs_n(s, i, n) matches Some(p) ==> i <= p.1 <= s.len() && p.0.len() == n
            && s.subrange(i, p.1) == ser_psigs(p.0) && (forall|q: int|
            0 <= q < p.0.len() ==> psig_b(#[trigger] p.0[q])),
    decreases n,
{
    if rd_psigs_n(s, i, n) is Some {
        if n == 0 {
            assert(s.subrange(i, i) =~= Seq::<u8>::empty());
            assert(ser_psigs(Seq::<PartialSigV>::empty()) =~= Seq::<u8>::empty());
            assert(rd_psigs_n(s, i, n)->Some_0.0 =~= Seq::<PartialSigV>::empty());
        } else {
            lemma_psig_sound(s, i);
            let m0 = rd_psig(s, i)->Some_0.0;
            let j = rd_psig(s, i)->Some_0.1;
            lemma_psigs_sound(s, j, (n - 1) as nat);
            let ms = rd_psigs_n(s, j, (n - 1) as nat)->Some_0.0;
            let k = rd_psigs_n(s, j, (n - 1) as nat)->Some_0.1;
            lemma_subrange_join(s, i, j, k);
            let whole = seq![m0] + ms;
            assert(whole.drop_first() =~= ms);
            assert(whole[0] == m0);
            assert(ser_psigs(whole) == ser_psig(m0) + ser_psigs(ms));
            assert(forall|q: int| 1 <= q < whole.len() ==> whole[q] == ms[q - 1]);
        }
    }
}

pub proof fn lemma_bitems_sound(s: Seq<u8>, i: int, n: nat)
    requires
        0 <= i <= s.len(),
    ensures
        rd_bitems_n(s, i, n) matches Some(p) ==> i <= p.1 <= s.len() && p.0.len() == n
            && s.subrange(i, p.1) == ser_bitems(p.0) && (forall|q: int|
            0 <= q < p.0.len() ==> bytes_b(#[trigger] p.0[q])),
    decreases n,
{
    if rd_bitems_n(s, i, n) is Some {
        if n == 0 {
            assert(s.subrange(i, i) =~= Seq::<u8>::empty());
            assert(ser_bitems(Seq::<Seq<u8>>::empty()) =~= Seq::<u8>::empty());
            assert(rd_bitems_n(s, i, n)->Some_0.0 =~= Seq::<Seq<u8>>::empty());
        } else {
            lemma_bytes_sound(s, i);
            let m0 = rd_bytes(s, i)->Some_0.0;
            let j = rd_bytes(s, i)->Some_0.1;
            lemma_bitems_sound(s, j, (n - 1) as nat);
            let ms = rd_bitems_n(s, j, (n - 1) as nat)->Some_0.0;
            let k = rd_bitems_n(s, j, (n - 1) as nat)->Some_0.1;
            lemma_subrange_join(s, i, j, k);
            let whole = seq![m0] + ms;
            assert(whole.drop_first() =~= ms);
            assert(whole[0] == m0);
            assert(ser_bitems(whole) == ser_bytes(m0) + ser_bitems(ms));
            assert(forall|q: int| 1 <= q < whole.len() ==> whole[q] == ms[q - 1]);
        }
    }
}

pub proof fn lemma_witness_sound(s: Seq<u8>, i: int)
    ensures
        rd_witness(s, i) matches Some(p) ==> 0 <= i && i <= p.1 <= s.len() && witness_b(p.0)
            && s.subrange(i, p.1) == ser_witness(p.0),
{
    if rd_witness(s, i) is Some {
        let n = rd_u64(s, i)->Some_0.0;
        let j = rd_u64(s, i)->Some_0.1;
        lemma_u64_sound(s, i);
        lemma_bitems_sound(s, j, n as nat);
        let w = rd_bitems_n(s, j, n as nat)->Some_0.0;
        let k = rd_bitems_n(s, j, n as nat)->Some_0.1;
        lemma_subrange_join(s, i, j, k);
        assert((w.len() as u64) == n);
    }
}

pub proof fn lemma_opt_witness_sound(s: Seq<u8>, i: int)
    ensures
        rd_opt_witness(s, i) matches Some(p) ==> 0 <= i && i <= p.1 <= s.len() && (p.0 matches
            Some(w) ==> witness_b(w)) && s.subrange(i, p.1) == ser_opt_witness(p.0),
{
    if rd_opt_witness(s, i) is Some {
        let t = rd_u64(s, i)->Some_0.0;
        let j = rd_u64(s, i)->Some_0.1;
        lemma_u64_sound(s, i);
        if t == 1 {
            lemma_witness_sound(s, j);
            let k = rd_witness(s, j)->Some_0.1;
            lemma_subrange_join(s, i, j, k);
        }
    }
}

#[verifier::rlimit(100)]
#[verifier::spinoff_prover]
pub proof fn lemma_inaux_sound(s: Seq<u8>, i: int)
    ensures
        rd_inaux(s, i) matches Some(p) ==> 0 <= i && i <= p.1 <= s.len() && inaux_b(p.0)
            && s.subrange(i, p.1) == ser_inaux(p.0),
{
    if rd_inaux(s, i) is Some {
        lemma_opt_txout_sound(s, i);
        let j1 = rd_opt_txout(s, i)->Some_0.1;
        lemma_u64_sound(s, j1);
        let n = rd_u64(s, j1)->Some_0.0;
        let j2 = rd_u64(s, j1)->Some_0.1;
        lemma_psigs_sound(s, j2, n as nat);
        let sigs = rd_psigs_n(s, j2, n as nat)->Some_0.0;
        let j3 = rd_psigs_n(s, j2, n as nat)->Some_0.1;
        lemma_opt_bytes_sound(s, j3);
        let j4 = rd_opt_bytes(s, j3)->Some_0.1;
        lemma_opt_u32_sound(s, j4);
        let j5 = rd_opt_u32(s, j4)->Some_0.1;
        lemma_opt_witness_sound(s, j5);
        let j6 = rd_opt_witness(s, j5)->Some_0.1;
        assert((sigs.len() as u64) == n);
        lemma_subrange_join(s, j4, j5, j6);
        lemma_subrange_join(s, j3, j4, j6);
        lemma_subrange_join(s, j1, j2, j3);
        lemma_subrange_join(s, j1, j3, j6);
        lemma_subrange_join(s, i, j1, j6);
    }
}

pub proof fn lemma_outaux_sound(s: Seq<u8>, i: int)
    ensures
        rd_outaux(s, i) matches Some(p) ==> 0 <= i && i <= p.1 <= s.len() && outaux_b(p.0)
            && s.subrange(i, p.1) == ser_outaux(p.0),
{
    if rd_outaux(s, i) is Some {
        lemma_opt_bytes_sound(s, i);
    }
}

pub proof fn lemma_inauxs_sound(s: Seq<u8>, i: int, n: nat)
    requires
        0 <= i <= s.len(),
    ensures
        rd_inauxs_n(s, i, n) matches Some(p) ==> i <= p.1 <= s.len() && p.0.len() == n
            && s.subrange(i, p.1) == ser_inauxs(p.0) && (forall|q: int|
            0 <= q < p.0.len() ==> inaux_b(#[trigger] p.0[q])),
    decreases n,
{
    if rd_inauxs_n(s, i, n) is Some {
        if n == 0 {
            assert(s.subrange(i, i) =~= Seq::<u8>::empty());
            assert(ser_inauxs(Seq::<InputAuxV>::empty()) =~= Seq::<u8>::empty());
            assert(rd_inauxs_n(s, i, n)->Some_0.0 =~= Seq::<InputAuxV>::empty());
        } else {
            lemma_inaux_sound(s, i);
            let m0 = rd_inaux(s, i)->Some_0.0;
            let j = rd_inaux(s, i)->Some_0.1;
            lemma_inauxs_sound(s, j, (n - 1) as nat);
            let ms = rd_inauxs_n(s, j, (n - 1) as nat)->Some_0.0;
            let k = rd_inauxs_n(s, j, (n - 1) as nat)->Some_0.1;
            lemma_subrange_join(s, i, j, k);
            let whole = seq![m0] + ms;
            assert(whole.drop_first() =~= ms);
            assert(whole[0] == m0);
            assert(ser_inauxs(whole) == ser_inaux(m0) + ser_inauxs(ms));
            assert(forall|q: int| 1 <= q < whole.len() ==> whole[q] == ms[q - 1]);
        }
    }
}

pub proof fn lemma_outauxs_sound(s: Seq<u8>, i: int, n: nat)
    requires
        0 <= i <= s.len(),
    ensures
        rd_outauxs_n(s, i, n) matches Some(p) ==> i <= p.1 <= s.len() && p.0.len() == n
            && s.subrange(i, p.1) == ser_outauxs(p.0) && (forall|q: int|
            0 <= q < p.0.len() ==> outaux_b(#[trigger] p.0[q])),
    decreases n,
{
    if rd_outauxs_n(s, i, n) is Some {
        if n == 0 {
            assert(s.subrange(i, i) =~= Seq::<u8>::empty());
            assert(ser_outauxs(Seq::<OutputAuxV>::empty()) =~= Seq::<u8>::empty());
            assert(rd_outauxs_n(s, i, n)->Some_0.0 =~= Seq::<OutputAuxV>::empty());
        } else {
            lemma_outaux_sound(s, i);
            let m0 = rd_outaux(s, i)->Some_0.0;
            let j = rd_outaux(s, i)->Some_0.1;
            lemma_outauxs_sound(s, j, (n - 1) as nat);
            let ms = rd_outauxs_n(s, j, (n - 1) as nat)->Some_0.0;
            let k = rd_outauxs_n(s, j, (n - 1) as nat)->Some_0.1;
            lemma_subrange_join(s, i, j, k);
            let whole = seq![m0] + ms;
            assert(whole.drop_first() =~= ms);
            assert(whole[0] == m0);
            assert(ser_outauxs(whole) == ser_outaux(m0) + ser_outauxs(ms));
            assert(forall|q: int| 1 <= q < whole.len() ==> whole[q] == ms[q - 1]);
        }
    }
}

#[verifier::rlimit(100)]
#[verifier::spinoff_prover]
pub proof fn lemma_tx_sound(s: Seq<u8>, i: int)
    ensures
        rd_tx(s, i) matches Some(p) ==> 0 <= i && i <= p.1 <= s.len() && tx_b(p.0) && s.subrange(
            i,
            p.1,
        ) == ser_tx(p.0),
{
    if rd_tx(s, i) is Some {
        lemma_u32_sound(s, i);
        let j1 = i + 8;
        lemma_u32_sound(s, j1);
        let j2 = j1 + 8;
        lemma_u64_sound(s, j2);
        let n = rd_u64(s, j2)->Some_0.0;
        let j3 = rd_u64(s, j2)->Some_0.1;
        lemma_txins_sound(s, j3, n as nat);
        let ins = rd_txins_n(s, j3, n as nat)->Some_0.0;
        let j4 = rd_txins_n(s, j3, n as nat)->Some_0.1;
        lemma_u64_sound(s, j4);
        let m = rd_u64(s, j4)->Some_0.0;
        let j5 = rd_u64(s, j4)->Some_0.1;
        lemma_txouts_sound(s, j5, m as nat);
        let outs = rd_txouts_n(s, j5, m as nat)->Some_0.0;
        let j6 = rd_txouts_n(s, j5, m as nat)->Some_0.1;
        assert((ins.len() as u64) == n);
        assert((outs.len() as u64) == m);
        lemma_subrange_join(s, j4, j5, j6);
        lemma_subrange_join(s, j2, j3, j4);
        lemma_subrange_join(s, j2, j4, j6);
        lemma_subrange_join(s, j1, j2, j6);
        lemma_subrange_join(s, i, j1, j6);
    }
}

/// The parser accepts only the serializer's own images: whatever parses
/// re-serializes to exactly the bytes consumed.
#[verifier::rlimit(100)]
#[verifier::spinoff_prover]
pub proof fn lemma_psbt_sound(s: Seq<u8>)
    ensures
        rd_psbt(s) matches Some(p) ==> 0 <= p.1 <= s.len() && p.0.wf() && psbt_b(p.0)
            && s.subrange(0, p.1) == ser_psbt(p.0),
{
    if rd_psbt(s) is Some {
        lemma_tx_sound(s, 5);
        let j1 = rd_tx(s, 5)->Some_0.1;
        lemma_u64_sound(s, j1);
        let n = rd_u64(s, j1)->Some_0.0;
        let j2 = rd_u64(s, j1)->Some_0.1;
        lemma_inauxs_sound(s, j2, n as nat);
        let ins = rd_inauxs_n(s, j2, n as nat)->Some_0.0;
        let j3 = rd_inauxs_n(s, j2, n as nat)->Some_0.1;
        lemma_u64_sound(s, j3);
        let m = rd_u64(s, j3)->Some_0.0;
        let j4 = rd_u64(s, j3)->Some_0.1;
        lemma_outauxs_sound(s, j4, m as nat);
        let outs = rd_outauxs_n(s, j4, m as nat)->Some_0.0;
        let j5 = rd_outauxs_n(s, j4, m as nat)->Some_0.1;
        assert((ins.len() as u64) == n);
        assert((outs.len() as u64) == m);
        lemma_subrange_join(s, j3, j4, j5);
        lemma_subrange_join(s, j1, j2, j3);
        lemma_subrange_join(s, j1, j3, j5);
        lemma_subrange_join(s, 5, j1, j5);
        lemma_subrange_join(s, 0, 5, j5);
    }
}

/// Canonicity, the round trip's other direction: a byte string the
/// parser accepts whole is exactly the serialization of what it parsed,
/// so `serialize(deserialize(s)) == s` on every accepted `s`.
pub proof fn lemma_canonical(s: Seq<u8>)
    requires
        rd_psbt(s) matches Some(p) && p.1 == s.len(),
    ensures
        ser_psbt(rd_psbt(s)->Some_0.0) == s,
{
    lemma_psbt_sound(s);
    assert(s.subrange(0, s.len() as int) =~= s);
}

} // verus!
