use crate::digits::{dec_value, is_dec_digit, parse_dec_u64};
use crate::hex_util::{hex_bytes, is_hex_digit};
use crate::ord::inscription::{le_val, lemma_le_val_bound, lemma_pow256_words, pow256, Inscription};
use vstd::prelude::*;

verus! {

/// One inscription's identity: the transaction that revealed it, as its
/// thirty-two id bytes in internal order, and the inscription's index in it.
#[derive(Debug, Clone, PartialEq, Eq)]
pub struct InscriptionId {
    pub txid: Vec<u8>,
    pub index: u32,
}

/// Spec-level shape of an inscription id.
pub ghost struct InscriptionIdV {
    pub txid: Seq<u8>,
    pub index: u32,
}

impl View for InscriptionId {
    type V = InscriptionIdV;

    open spec fn view(&self) -> InscriptionIdV {
        InscriptionIdV { txid: self.txid@, index: self.index }
    }
}

impl Default for InscriptionId {
    /// The all-zero id.
    fn default() -> (r: InscriptionId)
        ensures
            r@.txid.len() == 32,
            forall|i: int| 0 <= i < 32 ==> r@.txid[i] == 0,
            r@.index == 0,
    {
        let mut txid: Vec<u8> = Vec::new();
        let mut i: usize = 0;
        while i < 32
            invariant
                i <= 32,
                txid@.len() == i,
                forall|j: int| 0 <= j < i ==> txid@[j] == 0,
            decreases 32 - i,
        {
            txid.push(0);
            i = i + 1;
        }
        InscriptionId { txid, index: 0 }
    }
}

impl InscriptionId {
    /// The parent field bytes this id denotes: the id bytes followed by the
    /// index in little-endian form with trailing zeros dropped.
    pub fn parent_value(&self) -> (r: Vec<u8>)
        ensures
            r@.len() >= self@.txid.len(),
            r@.subrange(0, self@.txid.len() as int) == self@.txid,
            ({
                let tail = r@.skip(self@.txid.len() as int);
                &&& le_val(tail) == self@.index
                &&& tail.len() <= 4
                &&& (tail.len() > 0 ==> tail.last() != 0)
            }),
    {
        let mut out = clone_id_bytes(&self.txid);
        let ghost t = self.txid@;
        let mut m: u32 = self.index;
        proof {
            lemma_pow256_words();
            assert(out@.skip(t.len() as int) =~= Seq::<u8>::empty());
            assert(le_val(out@.skip(t.len() as int)) == 0);
            assert(pow256(0) == 1);
            assert(out@.subrange(0, t.len() as int) =~= t);
            assert(m * pow256((out@.len() - t.len()) as nat) == m) by (nonlinear_arith)
                requires
                    pow256((out@.len() - t.len()) as nat) == 1,
            ;
        }
        while m > 0
            invariant
                out@.len() >= t.len(),
                out@.subrange(0, t.len() as int) == t,
                out@.len() - t.len() <= 4,
                le_val(out@.skip(t.len() as int)) + m * pow256((out@.len() - t.len()) as nat)
                    == self@.index,
                out@.len() - t.len() == 4 ==> m == 0,
                out@.len() - t.len() > 0 ==> (out@.skip(t.len() as int).last() != 0 || m > 0),
                pow256(4) == 0x1_0000_0000,
            decreases m,
        {
            let ghost tail = out@.skip(t.len() as int);
            let ghost old_m = m;
            let d = (m % 256) as u8;
            out.push(d);
            m = m / 256;
            proof {
                crate::ord::inscription::lemma_le_val_push(tail, d);
                assert(out@.skip(t.len() as int) =~= tail.push(d));
                assert(out@.subrange(0, t.len() as int) =~= t);
                assert(le_val(out@.skip(t.len() as int)) + m * pow256(
                    (out@.len() - t.len()) as nat,
                ) == self@.index) by (nonlinear_arith)
                    requires
                        le_val(out@.skip(t.len() as int)) == le_val(tail) + (d as nat) * pow256(
                            tail.len(),
                        ),
                        out@.len() - t.len() == tail.len() + 1,
                        pow256((out@.len() - t.len()) as nat) == 256 * pow256(tail.len()),
                        le_val(tail) + old_m * pow256(tail.len()) == self@.index,
                        old_m == 256 * m + d,
                ;
                if out@.len() - t.len() == 4 && m > 0 {
                    assert(m * pow256(4) >= pow256(4)) by (nonlinear_arith)
                        requires
                            m >= 1,
                            pow256(4) > 0,
                    ;
                }
            }
        }
        proof {
            if out@.len() - t.len() > 0 {
                assert(out@.skip(t.len() as int).last() != 0);
            }
        }
        out
    }
}

/// Copies the id bytes.
fn clone_id_bytes(v: &Vec<u8>) -> (r: Vec<u8>)
    ensures
        r@ == v@,
{
    let mut out: Vec<u8> = Vec::new();
    let mut i: usize = 0;
    while i < v.len()
        invariant
            i <= v@.len(),
            out@ == v@.take(i as int),
        decreases v@.len() - i,
    {
        out.push(v[i]);
        proof {
            assert(out@ =~= v@.take(i + 1));
        }
        i = i + 1;
    }
    proof {
        assert(v@.take(v@.len() as int) =~= v@);
    }
    out
}

/// Why an inscription id's text form could not be read.
#[derive(Debug, Clone, PartialEq, Eq)]
pub enum ParseError {
    /// A character outside plain ASCII, the first such.
    Character(char),
    /// Too short overall; carries the length found.
    Length(usize),
    /// The character between id and index was not `i`.
    Separator(char),
    /// The id part was not sixty-four hex digits.
    Txid,
    /// The index part was not a number fitting thirty-two bits.
    Index,
}

/// A plain-ASCII character.
pub open spec fn is_ascii_char(c: char) -> bool {
    (c as u32) < 128
}

/// The index digits of an id text: everything behind the separator, a
/// leading plus sign dropped.
pub open spec fn index_digits(s: Seq<char>) -> Seq<char> {
    if s.len() > 65 && s[65] == '+' {
        s.skip(66)
    } else {
        s.skip(65)
    }
}

/// The id bytes a well-formed sixty-four-digit hex text denotes, reversed
/// from display order into internal order.
pub open spec fn txid_bytes_of(hex64: Seq<char>) -> Seq<u8> {
    Seq::new(32, |i: int| hex_bytes(hex64)[31 - i])
}

impl InscriptionId {
    /// Reads an id from its text form `<64 hex digits>i<index>`. Each error
    /// names the first rule broken, in the order checked: a non-ASCII
    /// character anywhere, a length under sixty-six, a wrong separator, a
    /// malformed id part, a malformed or too large index.
    pub fn from_str(s: &str) -> (r: Result<InscriptionId, ParseError>)
        ensures
            ({
                let sv = s@;
                let hex64 = sv.subrange(0, 64);
                match r {
                    Ok(id) => {
                        &&& (forall|i: int| 0 <= i < sv.len() ==> is_ascii_char(#[trigger] sv[i]))
                        &&& sv.len() >= 66
                        &&& sv[64] == 'i'
                        &&& (forall|i: int| 0 <= i < 64 ==> is_hex_digit(#[trigger] hex64[i]))
                        &&& id@.txid == txid_bytes_of(hex64)
                        &&& index_digits(sv).len() > 0
                        &&& (forall|i: int|
                            0 <= i < index_digits(sv).len() ==> is_dec_digit(
                                #[trigger] index_digits(sv)[i],
                            ))
                        &&& id@.index == dec_value(index_digits(sv))
                    },
                    Err(ParseError::Character(c)) => exists|i: int|
                        0 <= i < sv.len() && !is_ascii_char(#[trigger] sv[i]) && sv[i] == c && (
                        forall|j: int| 0 <= j < i ==> is_ascii_char(#[trigger] sv[j])),
                    Err(ParseError::Length(l)) => (forall|i: int|
                        0 <= i < sv.len() ==> is_ascii_char(#[trigger] sv[i])) && sv.len() < 66 && l
                        == sv.len(),
                    Err(ParseError::Separator(c)) => (forall|i: int|
                        0 <= i < sv.len() ==> is_ascii_char(#[trigger] sv[i])) && sv.len() >= 66
                        && sv[64] != 'i' && c == sv[64],
                    Err(ParseError::Txid) => (forall|i: int|
                        0 <= i < sv.len() ==> is_ascii_char(#[trigger] sv[i])) && sv.len() >= 66
                        && sv[64] == 'i' && !(forall|i: int|
                        0 <= i < 64 ==> is_hex_digit(#[trigger] hex64[i])),
                    Err(ParseError::Index) => (forall|i: int|
                        0 <= i < sv.len() ==> is_ascii_char(#[trigger] sv[i])) && sv.len() >= 66
                        && sv[64] == 'i' && (forall|i: int|
                        0 <= i < 64 ==> is_hex_digit(#[trigger] hex64[i])) && !(index_digits(
                        sv,
                    ).len() > 0 && (forall|i: int|
                        0 <= i < index_digits(sv).len() ==> is_dec_digit(
                            #[trigger] index_digits(sv)[i],
                        )) && dec_value(index_digits(sv)) <= u32::MAX),
                }
            }),
    {
        let n = s.unicode_len();
        let mut i: usize = 0;
        while i < n
            invariant
                i <= n,
                n == s@.len(),
                forall|j: int| 0 <= j < i ==> is_ascii_char(#[trigger] s@[j]),
            decreases n - i,
        {
            let c = s.get_char(i);
            if !((c as u32) < 128) {
                return Err(ParseError::Character(c));
            }
            i = i + 1;
        }
        if n < 66 {
            return Err(ParseError::Length(n));
        }
        let sep = s.get_char(64);
        if sep != 'i' {
            return Err(ParseError::Separator(sep));
        }
        // the id part: sixty-four hex digits, reversed into internal order
        let mut k: usize = 0;
        let mut display: Vec<u8> = Vec::new();
        let ghost hex64 = s@.subrange(0, 64);
        while k < 64
            invariant
                k % 2 == 0,
                k <= 64,
                n == s@.len(),
                n >= 66,
                s@[64] == 'i',
                forall|j: int| 0 <= j < s@.len() ==> is_ascii_char(#[trigger] s@[j]),
                hex64 == s@.subrange(0, 64),
                forall|j: int| 0 <= j < k ==> is_hex_digit(#[trigger] hex64[j]),
                display@.len() == k / 2,
                forall|j: int| 0 <= j < k / 2 ==> display@[j] == hex_bytes(hex64)[j],
            decreases 64 - k,
        {
            proof {
                assert(hex64[k as int] == s@[k as int]);
                assert(hex64[k + 1] == s@[k + 1]);
            }
            let hi = match hex_digit_pub(s.get_char(k)) {
                Some(v) => v,
                None => {
                    return Err(ParseError::Txid);
                },
            };
            let lo = match hex_digit_pub(s.get_char(k + 1)) {
                Some(v) => v,
                None => {
                    return Err(ParseError::Txid);
                },
            };
            display.push(hi * 16 + lo);
            k = k + 2;
        }
        let mut txid: Vec<u8> = Vec::new();
        let mut t: usize = 32;
        while t > 0
            invariant
                t <= 32,
                display@.len() == 32,
                forall|j: int| 0 <= j < 32 ==> display@[j] == hex_bytes(hex64)[j],
                txid@.len() == 32 - t,
                forall|j: int| 0 <= j < 32 - t ==> txid@[j] == hex_bytes(hex64)[31 - j],
            decreases t,
        {
            t = t - 1;
            txid.push(display[t]);
        }
        proof {
            assert(txid@ =~= txid_bytes_of(hex64));
        }
        // the index part: digits behind the separator, a leading plus allowed
        let start: usize = if n > 65 && s.get_char(65) == '+' {
            66
        } else {
            65
        };
        let value = match parse_dec_u64(s, start, n) {
            Some(v) => v,
            None => {
                return Err(ParseError::Index);
            },
        };
        if value > 0xffff_ffff {
            return Err(ParseError::Index);
        }
        proof {
            assert(index_digits(s@) =~= s@.subrange(start as int, n as int));
        }
        Ok(InscriptionId { txid, index: value as u32 })
    }
}

/// Value of one hex digit character, or `None` for any other.
fn hex_digit_pub(c: char) -> (r: Option<u8>)
    ensures
        r is Some <==> is_hex_digit(c),
        r matches Some(v) ==> v == crate::hex_util::hex_digit_val(c),
{
    let v = c as u32;
    if 48 <= v && v <= 57 {
        Some((v - 48) as u8)
    } else if 97 <= v && v <= 102 {
        Some((v - 87) as u8)
    } else if 65 <= v && v <= 70 {
        Some((v - 55) as u8)
    } else {
        None
    }
}

/// What a parent field's bytes denote: the first thirty-two bytes as the id,
/// the rest as a little-endian index of at most four bytes, where a shorter
/// index must not end in a zero byte.
pub open spec fn parent_id_spec(v: Seq<u8>) -> Option<(Seq<u8>, int)> {
    if v.len() < 32 || v.len() > 36 {
        None
    } else {
        let idx = v.skip(32);
        if idx.len() > 0 && idx.len() != 4 && idx.last() == 0 {
            None
        } else {
            Some((v.take(32), le_val(idx) as int))
        }
    }
}

impl Inscription {
    /// The parent inscription id this inscription names, if the parent field
    /// holds a well-formed one.
    pub fn parent(&self) -> (r: Option<InscriptionId>)
        ensures
            match self@.parent {
                None => r is None,
                Some(v) => match parent_id_spec(v) {
                    Some(p) => r matches Some(id) && id@.txid == p.0 && id@.index == p.1,
                    None => r is None,
                },
            },
    {
        let value = match &self.parent {
            Some(v) => v,
            None => {
                return None;
            },
        };
        let n = value.len();
        if n < 32 || n > 36 {
            return None;
        }
        if n != 32 && n != 36 {
            if value[n - 1] == 0 {
                proof {
                    assert(self@.parent matches Some(v) && v.skip(32).last() == 0);
                }
                return None;
            }
        }
        let mut txid: Vec<u8> = Vec::new();
        let mut i: usize = 0;
        while i < 32
            invariant
                i <= 32,
                n == value@.len(),
                32 <= n <= 36,
                txid@.len() == i,
                forall|j: int| 0 <= j < i ==> txid@[j] == value@[j],
            decreases 32 - i,
        {
            txid.push(value[i]);
            i = i + 1;
        }
        proof {
            assert(txid@ =~= value@.take(32));
        }
        let mut acc: u64 = 0;
        let mut k: usize = n;
        proof {
            assert(value@.subrange(n as int, n as int) =~= Seq::<u8>::empty());
            lemma_pow256_words();
        }
        while k > 32
            invariant
                32 <= k <= n <= 36,
                n == value@.len(),
                acc == le_val(value@.subrange(k as int, n as int)),
                pow256(4) == 0x1_0000_0000,
            decreases k,
        {
            proof {
                lemma_le_val_bound(value@.subrange(k as int, n as int));
                crate::ord::inscription::lemma_pow256_le((n - k) as nat, 4);
                assert(value@.subrange(k - 1, n as int).drop_first() =~= value@.subrange(
                    k as int,
                    n as int,
                ));
                assert(value@.subrange(k - 1, n as int)[0] == value@[k - 1]);
            }
            k = k - 1;
            acc = acc * 256 + (value[k] as u64);
        }
        proof {
            assert(value@.subrange(32, n as int) =~= value@.skip(32));
            lemma_le_val_bound(value@.skip(32));
            crate::ord::inscription::lemma_pow256_le((n - 32) as nat, 4);
        }
        Some(InscriptionId { txid, index: acc as u32 })
    }
}

} // verus!
