use crate::btc;
use crate::hex_util::{decode_hex, hex_bytes, is_hex_seq};
use crate::ord::envelope::{
    inscription_of, parse_envelope_spec, tapscript_envelopes, ParsedEnvelope, RawEnvelopeV,
};
use crate::ord::inscription::{Inscription, InscriptionV};
use vstd::prelude::*;

verus! {

/// Names the address the outside library renders for a locking script, when
/// the script has an address form: a function of the script bytes alone.
pub uninterp spec fn address_of(script: Seq<u8>) -> Option<Seq<char>>;

/// Names the per-input revealed leaf scripts of a consensus-serialized
/// transaction: a function of the raw bytes alone, nothing where the codec
/// rejects them.
pub uninterp spec fn tapscripts_of(raw: Seq<u8>) -> Option<Seq<Option<Seq<u8>>>>;

/// Relies on bitcoin::consensus::deserialize and bitcoin::Witness::tapscript:
/// the leaf script each input of the serialized transaction reveals, as
/// plain bytes, in input order; `None` when the codec rejects the bytes.
/// Both calls depend on the raw bytes alone, so the result carries the name
/// `tapscripts_of`.
#[verifier::external_body]
#[allow(deprecated)]
fn transaction_tapscripts(raw: &[u8]) -> (r: Option<Vec<Option<Vec<u8>>>>)
    ensures
        r is Some <==> tapscripts_of(raw@) is Some,
        r matches Some(v) ==> tapscripts_of(raw@) == Some(v.deep_view()),
{
    let tx: bitcoin::Transaction = bitcoin::consensus::deserialize(raw).ok()?;
    let mut scripts = Vec::new();
    for input in tx.input.iter() {
        scripts.push(input.witness.tapscript().map(|s| s.as_bytes().to_vec()));
    }
    Some(scripts)
}

/// Relies on bitcoin::Address::from_script under the mainnet parameters and
/// on the address's text rendering: together a function of the script bytes
/// alone, named `address_of`.
#[verifier::external_body]
fn address_from_script(script: &[u8]) -> (r: Option<String>)
    ensures
        r is Some <==> address_of(script@) is Some,
        r matches Some(a) ==> address_of(script@) == Some(a@),
{
    let s = bitcoin::Script::from_bytes(script);
    bitcoin::Address::from_script(s, bitcoin::Network::Bitcoin).ok().map(|a| a.to_string())
}

/// The address of a locking script given as hex text.
pub fn address_from_scriptpubkey(script_pub_key_hex: &str) -> (r: Option<String>)
    requires
        is_hex_seq(script_pub_key_hex@),
    ensures
        r is Some <==> address_of(hex_bytes(script_pub_key_hex@)) is Some,
        r matches Some(a) ==> address_of(hex_bytes(script_pub_key_hex@)) == Some(a@),
{
    let bytes = decode_hex(script_pub_key_hex).unwrap();
    address_from_script(bytes.as_slice())
}

/// The address a single output's locking script denotes, if any.
pub open spec fn vout_address_spec(v: btc::VoutV) -> Option<Seq<char>> {
    match v.script_pub_key {
        Some(s) => address_of(hex_bytes(s.hex)),
        None => None,
    }
}

impl btc::Vout {
    /// The address of this output's locking script, if there is a script and
    /// it has an address form.
    pub fn address(&self) -> (r: Option<String>)
        requires
            self@.script_pub_key matches Some(s) ==> is_hex_seq(s.hex),
        ensures
            r is Some <==> vout_address_spec(self@) is Some,
            r matches Some(a) ==> vout_address_spec(self@) == Some(a@),
    {
        match &self.script_pub_key {
            Some(spk) => address_from_scriptpubkey(spk.hex.as_str()),
            None => None,
        }
    }
}

/// The inscriptions one input's revealed leaf script carries, in order.
pub open spec fn input_inscriptions(s: Option<Seq<u8>>, i: int) -> Seq<InscriptionV> {
    match s {
        Some(b) => tapscript_envelopes(b, i).map_values(|e: RawEnvelopeV| inscription_of(e.payload)),
        None => Seq::empty(),
    }
}

/// The inscriptions of a whole transaction, given each input's revealed leaf
/// script: input order first, envelope order within an input.
pub open spec fn inscriptions_of_scripts(ss: Seq<Option<Seq<u8>>>) -> Seq<InscriptionV>
    decreases ss.len(),
{
    if ss.len() == 0 {
        Seq::empty()
    } else {
        inscriptions_of_scripts(ss.drop_last()) + input_inscriptions(ss.last(), ss.len() - 1)
    }
}

/// Decodes every envelope found in the given per-input leaf scripts.
pub fn inscriptions_from_tapscripts(scripts: &Vec<Option<Vec<u8>>>) -> (r: Vec<Inscription>)
    ensures
        r.deep_view() == inscriptions_of_scripts(scripts.deep_view()),
{
    let ghost sv = scripts.deep_view();
    let n = scripts.len();
    let mut out: Vec<Inscription> = Vec::new();
    let mut i: usize = 0;
    proof {
        assert(sv.len() == n);
        assert(sv.take(0) =~= Seq::<Option<Seq<u8>>>::empty());
        assert(out.deep_view() =~= inscriptions_of_scripts(sv.take(0)));
    }
    while i < n
        invariant
            i <= n,
            n == sv.len(),
            sv == scripts.deep_view(),
            out.deep_view() == inscriptions_of_scripts(sv.take(i as int)),
        decreases n - i,
    {
        let ghost done = out.deep_view();
        proof {
            assert(sv[i as int] == scripts@[i as int].deep_view());
        }
        match &scripts[i] {
            Some(script) => {
                let envs = ParsedEnvelope::from_tapscript(script.as_slice(), i);
                let mut rest = envs;
                let total_envs: usize = rest.len();
                let ghost parsed = rest.deep_view();
                let ghost insc = input_inscriptions(sv[i as int], i as int);
                proof {
                    assert(script.deep_view() =~= script@);
                    assert(sv[i as int] == Some(script@));
                    let raws = tapscript_envelopes(script@, i as int);
                    assert(insc.len() == parsed.len());
                    assert forall|j: int| 0 <= j < parsed.len() implies insc[j] == parsed[j].payload by {
                        assert(parsed[j] == parse_envelope_spec(raws[j]));
                        assert(insc[j] == inscription_of(raws[j].payload));
                    }
                }
                let mut consumed: usize = 0;
                while rest.len() != 0
                    invariant
                        total_envs == parsed.len(),
                        consumed + rest@.len() == parsed.len(),
                        out.deep_view() == done + insc.take(consumed as int),
                        insc.len() == parsed.len(),
                        forall|j: int|
                            0 <= j < rest@.len() ==> #[trigger] rest@[j].deep_view() == parsed[
                                consumed + j
                            ],
                        forall|j: int| 0 <= j < parsed.len() ==> insc[j] == parsed[j].payload,
                    decreases rest@.len(),
                {
                    let e = rest.remove(0);
                    let ghost pre_out = out.deep_view();
                    let ghost pl = e@.payload;
                    proof {
                        assert(e.deep_view() == parsed[consumed as int]);
                        assert(pl == parsed[consumed as int].payload);
                        assert(insc[consumed as int] == pl);
                    }
                    out.push(e.payload);
                    proof {
                        assert(out.deep_view() =~= pre_out.push(pl));
                        assert(insc.take(consumed + 1) =~= insc.take(consumed as int).push(
                            insc[consumed as int],
                        ));
                        assert(out.deep_view() =~= done + insc.take(consumed + 1));
                    }
                    consumed = consumed + 1;
                }
                proof {
                    assert(insc.take(insc.len() as int) =~= insc);
                    assert(out.deep_view() == done + insc);
                }
            },
            None => {
                proof {
                    assert(input_inscriptions(sv[i as int], i as int) =~= Seq::<
                        InscriptionV,
                    >::empty());
                    assert(out.deep_view() =~= done + input_inscriptions(sv[i as int], i as int));
                }
            },
        }
        i = i + 1;
        proof {
            assert(sv.take(i as int).drop_last() =~= sv.take(i - 1));
            assert(sv.take(i as int).last() == sv[i - 1]);
            assert(out.deep_view() =~= inscriptions_of_scripts(sv.take(i as int)));
        }
    }
    proof {
        assert(sv.take(n as int) =~= sv);
    }
    out
}

/// Why a transaction's raw serialization could not be read.
#[derive(Debug, Clone, PartialEq, Eq)]
pub enum TxDecodeError {
    /// The raw hex held a non-hex character or an odd number of digits.
    InvalidHex,
    /// The consensus codec rejected the decoded bytes.
    Undecodable,
}

/// What extraction yields on a transaction's raw hex: the hex must be
/// well-formed and the codec must accept the bytes; then every envelope of
/// every input's revealed leaf script, decoded, in order.
pub open spec fn parse_inscriptions_spec(hex: Seq<char>) -> Result<Seq<InscriptionV>, TxDecodeError> {
    if !is_hex_seq(hex) {
        Err(TxDecodeError::InvalidHex)
    } else {
        match tapscripts_of(hex_bytes(hex)) {
            None => Err(TxDecodeError::Undecodable),
            Some(ss) => Ok(inscriptions_of_scripts(ss)),
        }
    }
}

/// Extracts every inscription of one transaction: the raw hex is decoded,
/// the outside consensus codec deserializes it, each input's revealed leaf
/// script is scanned for envelopes and each envelope decoded. An error means
/// the upstream block source broke its contract; it never comes from
/// ordinary script content.
pub fn parse_inscriptions(tx: &btc::Transaction) -> (r: Result<Vec<Inscription>, TxDecodeError>)
    ensures
        r is Ok <==> parse_inscriptions_spec(tx@.hex) is Ok,
        r matches Ok(v) ==> parse_inscriptions_spec(tx@.hex) == Ok::<
            Seq<InscriptionV>,
            TxDecodeError,
        >(v.deep_view()),
        r matches Err(e) ==> parse_inscriptions_spec(tx@.hex) == Err::<
            Seq<InscriptionV>,
            TxDecodeError,
        >(e),
{
    let raw = match decode_hex(tx.hex.as_str()) {
        Some(b) => b,
        None => {
            return Err(TxDecodeError::InvalidHex);
        },
    };
    let scripts = match transaction_tapscripts(raw.as_slice()) {
        Some(s) => s,
        None => {
            return Err(TxDecodeError::Undecodable);
        },
    };
    let inscriptions = inscriptions_from_tapscripts(&scripts);
    proof {
        assert(raw@ == hex_bytes(tx@.hex));
        assert(inscriptions.deep_view() == inscriptions_of_scripts(scripts.deep_view()));
    }
    Ok(inscriptions)
}

} // verus!
