use vstd::prelude::*;

verus! {

/// A locking script as the upstream block source hands it over: its raw hex
/// and the address the source attached, if any.
#[derive(Debug, Clone)]
pub struct ScriptPubKey {
    pub hex: String,
    pub address: String,
}

/// Spec-level shape of a locking script.
pub ghost struct ScriptPubKeyV {
    pub hex: Seq<char>,
    pub address: Seq<char>,
}

impl View for ScriptPubKey {
    type V = ScriptPubKeyV;

    open spec fn view(&self) -> ScriptPubKeyV {
        ScriptPubKeyV { hex: self.hex@, address: self.address@ }
    }
}

/// An unlocking script, as raw hex.
#[derive(Debug, Clone)]
pub struct ScriptSig {
    pub hex: String,
}

/// Spec-level shape of an unlocking script.
pub ghost struct ScriptSigV {
    pub hex: Seq<char>,
}

impl View for ScriptSig {
    type V = ScriptSigV;

    open spec fn view(&self) -> ScriptSigV {
        ScriptSigV { hex: self.hex@ }
    }
}

/// One transaction input: the previous transaction id and output index it
/// spends, and the witness items as hex text.
#[derive(Debug, Clone)]
pub struct Vin {
    pub txid: String,
    pub vout: u32,
    pub script_sig: Option<ScriptSig>,
    pub sequence: u32,
    pub txinwitness: Vec<String>,
    pub coinbase: String,
}

/// Spec-level shape of one input.
pub ghost struct VinV {
    pub txid: Seq<char>,
    pub vout: u32,
    pub script_sig: Option<ScriptSigV>,
    pub sequence: u32,
    pub txinwitness: Seq<Seq<char>>,
    pub coinbase: Seq<char>,
}

impl View for Vin {
    type V = VinV;

    open spec fn view(&self) -> VinV {
        VinV {
            txid: self.txid@,
            vout: self.vout,
            script_sig: match self.script_sig {
                Some(s) => Some(s@),
                None => None,
            },
            sequence: self.sequence,
            txinwitness: self.txinwitness.deep_view(),
            coinbase: self.coinbase@,
        }
    }
}

impl DeepView for Vin {
    type V = VinV;

    open spec fn deep_view(&self) -> VinV {
        self.view()
    }
}

/// One transaction output. The value is carried in sats, the integral
/// smallest unit, so that offsets into it are exact.
#[derive(Debug)]
pub struct Vout {
    pub value: u64,
    pub n: u32,
    pub script_pub_key: Option<ScriptPubKey>,
}

/// Spec-level shape of one output.
pub ghost struct VoutV {
    pub value: u64,
    pub n: u32,
    pub script_pub_key: Option<ScriptPubKeyV>,
}

impl View for Vout {
    type V = VoutV;

    open spec fn view(&self) -> VoutV {
        VoutV {
            value: self.value,
            n: self.n,
            script_pub_key: match self.script_pub_key {
                Some(s) => Some(s@),
                None => None,
            },
        }
    }
}

impl DeepView for Vout {
    type V = VoutV;

    open spec fn deep_view(&self) -> VoutV {
        self.view()
    }
}

impl Vout {
    /// A field-true copy of this output.
    pub fn duplicate(&self) -> (r: Vout)
        ensures
            r@ == self@,
    {
        Vout {
            value: self.value,
            n: self.n,
            script_pub_key: match &self.script_pub_key {
                Some(s) => Some(ScriptPubKey { hex: s.hex.clone(), address: s.address.clone() }),
                None => None,
            },
        }
    }
}

/// One transaction: its raw serialized hex, its id, and its inputs and
/// outputs.
#[derive(Debug)]
pub struct Transaction {
    pub hex: String,
    pub txid: String,
    pub vin: Vec<Vin>,
    pub vout: Vec<Vout>,
}

/// Spec-level shape of one transaction.
pub ghost struct TransactionV {
    pub hex: Seq<char>,
    pub txid: Seq<char>,
    pub vin: Seq<VinV>,
    pub vout: Seq<VoutV>,
}

impl View for Transaction {
    type V = TransactionV;

    open spec fn view(&self) -> TransactionV {
        TransactionV {
            hex: self.hex@,
            txid: self.txid@,
            vin: self.vin.deep_view(),
            vout: self.vout.deep_view(),
        }
    }
}

impl DeepView for Transaction {
    type V = TransactionV;

    open spec fn deep_view(&self) -> TransactionV {
        self.view()
    }
}

/// One block: its transactions in order.
#[derive(Debug)]
pub struct Block {
    pub tx: Vec<Transaction>,
}

/// Spec-level shape of one block.
pub ghost struct BlockV {
    pub tx: Seq<TransactionV>,
}

impl View for Block {
    type V = BlockV;

    open spec fn view(&self) -> BlockV {
        BlockV { tx: self.tx.deep_view() }
    }
}

/// Sats held by the first `k` outputs together.
pub open spec fn prefix_sats(vs: Seq<VoutV>, k: int) -> int
    decreases k,
{
    if k <= 0 {
        0
    } else {
        prefix_sats(vs, k - 1) + vs[k - 1].value
    }
}

/// Sats held by all outputs together.
pub open spec fn total_sats(vs: Seq<VoutV>) -> int {
    prefix_sats(vs, vs.len() as int)
}

/// Resolution of an absolute sat offset against the outputs, walking them in
/// order from `k` with `sat` sats already passed: the first output whose
/// half-open range holds the offset, with the residual offset inside it.
pub open spec fn nth_sat_from(vs: Seq<VoutV>, offset: u64, k: int, sat: int) -> Option<(int, int)>
    decreases vs.len() - k,
{
    if k < 0 || k >= vs.len() {
        None
    } else if sat + vs[k].value > offset {
        Some((k, offset - sat))
    } else {
        nth_sat_from(vs, offset, k + 1, sat + vs[k].value)
    }
}

/// Resolution of an absolute sat offset against the outputs.
pub open spec fn nth_sat_spec(vs: Seq<VoutV>, offset: u64) -> Option<(int, int)> {
    nth_sat_from(vs, offset, 0, 0)
}

impl Transaction {
    /// The output holding the sat at `offset` within this transaction's own
    /// output value space, with the offset inside that output; `None` when
    /// the offset lies beyond the total output value, which signals that the
    /// sat left the tracked set and is no error.
    pub fn nth_sat_utxo(&self, offset: u64) -> (r: Option<(Vout, u64)>)
        requires
            total_sats(self@.vout) <= u64::MAX,
        ensures
            r is Some <==> nth_sat_spec(self@.vout, offset) is Some,
            r matches Some(pair) ==> nth_sat_spec(self@.vout, offset) matches Some(si)
                && pair.0@ == self@.vout[si.0] && pair.1 == si.1,
    {
        let ghost vs = self@.vout;
        let n = self.vout.len();
        let mut sat: u64 = 0;
        let mut idx: usize = 0;
        proof {
            assert(vs.len() == n);
            assert(forall|j: int| 0 <= j < n ==> #[trigger] vs[j] == self.vout@[j]@);
            lemma_prefix_sats_bound(vs, 0);
        }
        while idx < n
            invariant
                idx <= n,
                n == vs.len(),
                vs == self@.vout,
                forall|j: int| 0 <= j < n ==> #[trigger] vs[j] == self.vout@[j]@,
                total_sats(vs) <= u64::MAX,
                sat <= offset,
                sat == prefix_sats(vs, idx as int),
                nth_sat_spec(vs, offset) == nth_sat_from(vs, offset, idx as int, sat as int),
            decreases n - idx,
        {
            let utxo_sats = self.vout[idx].value;
            proof {
                lemma_prefix_sats_bound(vs, idx + 1);
                assert(prefix_sats(vs, idx + 1) == sat + utxo_sats);
            }
            if sat + utxo_sats > offset {
                let v = self.vout[idx].duplicate();
                return Some((v, offset - sat));
            }
            sat = sat + utxo_sats;
            idx = idx + 1;
        }
        None
    }
}

/// A prefix of the outputs never holds more sats than all of them.
proof fn lemma_prefix_sats_bound(vs: Seq<VoutV>, k: int)
    requires
        0 <= k <= vs.len(),
    ensures
        prefix_sats(vs, k) <= total_sats(vs),
        prefix_sats(vs, k) >= 0,
    decreases vs.len() - k,
{
    lemma_prefix_sats_nonneg(vs, k);
    if k < vs.len() {
        lemma_prefix_sats_bound(vs, k + 1);
    }
}

/// Output values only accumulate.
proof fn lemma_prefix_sats_nonneg(vs: Seq<VoutV>, k: int)
    requires
        0 <= k <= vs.len(),
    ensures
        prefix_sats(vs, k) >= 0,
    decreases k,
{
    if k > 0 {
        lemma_prefix_sats_nonneg(vs, k - 1);
    }
}

/// Resolving an offset that falls inside output `k` returns that output with
/// the residual offset; resolving the total output value or beyond finds
/// nothing.
pub proof fn lemma_nth_sat_characterization(vs: Seq<VoutV>, k: int, r: u64)
    requires
        0 <= k < vs.len(),
        r < vs[k].value,
        prefix_sats(vs, k) + r <= u64::MAX,
    ensures
        nth_sat_spec(vs, (prefix_sats(vs, k) + r) as u64) == Some((k, r as int)),
{
    lemma_prefix_sats_nonneg(vs, k);
    lemma_nth_sat_inside(vs, (prefix_sats(vs, k) + r) as u64, k, 0);
}

/// Walking forward from `j`, an offset inside output `k` resolves to `k`.
proof fn lemma_nth_sat_inside(vs: Seq<VoutV>, offset: u64, k: int, j: int)
    requires
        0 <= j <= k < vs.len(),
        prefix_sats(vs, k) <= offset < prefix_sats(vs, k) + vs[k].value,
    ensures
        nth_sat_from(vs, offset, j, prefix_sats(vs, j)) == Some((k, offset - prefix_sats(vs, k))),
    decreases k - j,
{
    lemma_prefix_sats_monotone(vs, j, k);
    if j == k {
    } else {
        lemma_prefix_sats_monotone(vs, j + 1, k);
        lemma_nth_sat_inside(vs, offset, k, j + 1);
    }
}

/// Prefix sums only grow along the outputs.
proof fn lemma_prefix_sats_monotone(vs: Seq<VoutV>, a: int, b: int)
    requires
        0 <= a <= b <= vs.len(),
    ensures
        prefix_sats(vs, a) <= prefix_sats(vs, b),
    decreases b - a,
{
    if a < b {
        lemma_prefix_sats_monotone(vs, a + 1, b);
        lemma_prefix_sats_nonneg(vs, a);
    }
}

/// A found resolution points into the outputs.
pub proof fn lemma_nth_sat_index_range(vs: Seq<VoutV>, offset: u64, k: int, sat: int)
    ensures
        nth_sat_from(vs, offset, k, sat) matches Some(si) ==> k <= si.0 < vs.len(),
    decreases vs.len() - k,
{
    if 0 <= k < vs.len() {
        lemma_nth_sat_index_range(vs, offset, k + 1, sat + vs[k].value);
    }
}

/// An offset at or past the total output value resolves to nothing.
pub proof fn lemma_nth_sat_exhausted(vs: Seq<VoutV>, offset: u64)
    requires
        offset >= total_sats(vs),
    ensures
        nth_sat_spec(vs, offset) is None,
{
    lemma_nth_sat_exhausted_from(vs, offset, 0);
}

proof fn lemma_nth_sat_exhausted_from(vs: Seq<VoutV>, offset: u64, j: int)
    requires
        0 <= j <= vs.len(),
        offset >= total_sats(vs),
    ensures
        nth_sat_from(vs, offset, j, prefix_sats(vs, j)) is None,
    decreases vs.len() - j,
{
    if j < vs.len() {
        lemma_prefix_sats_monotone(vs, j + 1, vs.len() as int);
        lemma_nth_sat_exhausted_from(vs, offset, j + 1);
    }
}

} // verus!
