use crate::ord::envelope::{protocol_id, OP_ENDIF, OP_IF};
use crate::ord::script::{serialize_instructions, Instr, InstrV};
use std::str::FromStr;
use vstd::prelude::*;
use vstd::slice::{slice_subrange, slice_to_vec};
use vstd::utf8::{decode_utf8, encode_utf8, valid_utf8};

verus! {

/// Value of a power of two hundred and fifty-six.
pub open spec fn pow256(n: nat) -> nat
    decreases n,
{
    if n == 0 {
        1
    } else {
        256 * pow256((n - 1) as nat)
    }
}

/// Little-endian value of a byte sequence.
pub open spec fn le_val(b: Seq<u8>) -> nat
    decreases b.len(),
{
    if b.len() == 0 {
        0
    } else {
        (b[0] + 256 * le_val(b.drop_first())) as nat
    }
}

/// A little-endian value stays under the power its width allows.
pub proof fn lemma_le_val_bound(b: Seq<u8>)
    ensures
        le_val(b) < pow256(b.len()),
    decreases b.len(),
{
    if b.len() > 0 {
        lemma_le_val_bound(b.drop_first());
        let r = le_val(b.drop_first());
        assert(256 * r <= 256 * (pow256((b.len() - 1) as nat) - 1)) by (nonlinear_arith)
            requires
                r <= pow256((b.len() - 1) as nat) - 1,
        ;
    }
}

/// Tag marking the content type field.
pub const CONTENT_TYPE_TAG: u8 = 1;

/// Tag marking the pointer field.
pub const POINTER_TAG: u8 = 2;

/// Tag marking the parent field.
pub const PARENT_TAG: u8 = 3;

/// Tag marking the metadata field, whose chunks are concatenated.
pub const METADATA_TAG: u8 = 5;

/// Tag marking the metaprotocol field.
pub const METAPROTOCOL_TAG: u8 = 7;

/// Tag marking the content encoding field.
pub const CONTENT_ENCODING_TAG: u8 = 9;

/// The one-byte key a tag stands for.
pub open spec fn tag1(t: u8) -> Seq<u8> {
    seq![t]
}

/// The decoded content and metadata of one envelope. Decoding is total:
/// malformed payloads set a flag and never fail.
#[derive(Debug, Clone, PartialEq, Eq, Default)]
pub struct Inscription {
    pub body: Option<Vec<u8>>,
    pub content_encoding: Option<Vec<u8>>,
    pub content_type: Option<Vec<u8>>,
    pub duplicate_field: bool,
    pub incomplete_field: bool,
    pub metadata: Option<Vec<u8>>,
    pub metaprotocol: Option<Vec<u8>>,
    pub parent: Option<Vec<u8>>,
    pub pointer: Option<Vec<u8>>,
    pub unrecognized_even_field: bool,
}

/// Spec-level shape of an inscription.
pub ghost struct InscriptionV {
    pub body: Option<Seq<u8>>,
    pub content_encoding: Option<Seq<u8>>,
    pub content_type: Option<Seq<u8>>,
    pub duplicate_field: bool,
    pub incomplete_field: bool,
    pub metadata: Option<Seq<u8>>,
    pub metaprotocol: Option<Seq<u8>>,
    pub parent: Option<Seq<u8>>,
    pub pointer: Option<Seq<u8>>,
    pub unrecognized_even_field: bool,
}

/// The view of one optional byte field.
pub open spec fn opt_bytes_view(o: Option<Vec<u8>>) -> Option<Seq<u8>> {
    match o {
        Some(v) => Some(v@),
        None => None,
    }
}

impl View for Inscription {
    type V = InscriptionV;

    open spec fn view(&self) -> InscriptionV {
        InscriptionV {
            body: opt_bytes_view(self.body),
            content_encoding: opt_bytes_view(self.content_encoding),
            content_type: opt_bytes_view(self.content_type),
            duplicate_field: self.duplicate_field,
            incomplete_field: self.incomplete_field,
            metadata: opt_bytes_view(self.metadata),
            metaprotocol: opt_bytes_view(self.metaprotocol),
            parent: opt_bytes_view(self.parent),
            pointer: opt_bytes_view(self.pointer),
            unrecognized_even_field: self.unrecognized_even_field,
        }
    }
}

impl DeepView for Inscription {
    type V = InscriptionV;

    open spec fn deep_view(&self) -> InscriptionV {
        self.view()
    }
}

impl Inscription {
    /// An inscription holding only a content type and a body.
    pub fn new(content_type: Option<Vec<u8>>, body: Option<Vec<u8>>) -> (r: Inscription)
        ensures
            r@.content_type == opt_bytes_view(content_type),
            r@.body == opt_bytes_view(body),
            r@.content_encoding is None,
            r@.metadata is None,
            r@.metaprotocol is None,
            r@.parent is None,
            r@.pointer is None,
            !r@.duplicate_field && !r@.incomplete_field && !r@.unrecognized_even_field,
    {
        Inscription {
            body,
            content_encoding: None,
            content_type,
            duplicate_field: false,
            incomplete_field: false,
            metadata: None,
            metaprotocol: None,
            parent: None,
            pointer: None,
            unrecognized_even_field: false,
        }
    }

    /// The body bytes, if any.
    pub fn body(&self) -> (r: Option<&Vec<u8>>)
        ensures
            match r {
                Some(b) => self@.body == Some(b@),
                None => self@.body is None,
            },
    {
        match &self.body {
            Some(b) => Some(b),
            None => None,
        }
    }

    /// The body bytes, consuming the inscription.
    pub fn into_body(self) -> (r: Option<Vec<u8>>)
        ensures
            opt_bytes_view(r) == self@.body,
    {
        self.body
    }

    /// Length of the body, if any.
    pub fn content_length(&self) -> (r: Option<usize>)
        ensures
            match r {
                Some(n) => self@.body matches Some(b) && n == b.len(),
                None => self@.body is None,
            },
    {
        match &self.body {
            Some(b) => Some(b.len()),
            None => None,
        }
    }

    /// The pointer field read as a little-endian number: `None` when the
    /// field is absent or any byte beyond the eighth is nonzero.
    pub fn pointer(&self) -> (r: Option<u64>)
        ensures
            match self@.pointer {
                Some(v) => r == pointer_spec(v),
                None => r is None,
            },
    {
        let value = match &self.pointer {
            Some(v) => v,
            None => {
                return None;
            },
        };
        let n = value.len();
        let mut i: usize = 8;
        while i < n
            invariant
                8 <= i,
                i <= n || n < 8,
                n == value@.len(),
                self@.pointer == Some(value@),
                forall|j: int| 8 <= j < i ==> value@[j] == 0,
            decreases n - i,
        {
            if value[i] != 0 {
                proof {
                    assert(8 <= i as int && (i as int) < value@.len() && value@[i as int] != 0);
                    assert(exists|j: int| 8 <= j < value@.len() && (#[trigger] value@[j]) != 0);
                    assert(pointer_spec(value@) is None);
                }
                return None;
            }
            i = i + 1;
        }
        let m: usize = if n < 8 {
            n
        } else {
            8
        };
        let mut acc: u64 = 0;
        let mut k: usize = m;
        proof {
            assert(value@.subrange(m as int, m as int) =~= Seq::<u8>::empty());
        }
        while k > 0
            invariant
                k <= m <= 8,
                m <= value@.len(),
                acc == le_val(value@.subrange(k as int, m as int)),
            decreases k,
        {
            proof {
                lemma_le_val_bound(value@.subrange(k as int, m as int));
                lemma_pow256_le((m - k) as nat, 7);
                lemma_pow256_words();
                assert(value@.subrange(k - 1, m as int).drop_first() =~= value@.subrange(
                    k as int,
                    m as int,
                ));
                assert(value@.subrange(k - 1, m as int)[0] == value@[k - 1]);
            }
            k = k - 1;
            acc = acc * 256 + (value[k] as u64);
        }
        proof {
            assert(value@.subrange(0, m as int) =~= value@.take(m as int));
            lemma_le_val_bound(value@.take(m as int));
            lemma_pow256_le(m as nat, 8);
            assert(pointer_spec(value@) == Some(le_val(value@.take(m as int)) as u64));
        }
        Some(acc)
    }

    /// The little-endian bytes denoting a pointer, shortest form: trailing
    /// zero bytes dropped, zero itself written as no bytes at all.
    pub fn pointer_value(pointer: u64) -> (r: Vec<u8>)
        ensures
            le_val(r@) == pointer,
            r@.len() <= 8,
            r@.len() > 0 ==> r@.last() != 0,
            pointer_spec(r@) == Some(pointer),
    {
        let mut out: Vec<u8> = Vec::new();
        let mut m: u64 = pointer;
        proof {
            lemma_pow256_words();
            assert(out@ =~= Seq::<u8>::empty());
            assert(le_val(out@) == 0);
            assert(pow256(0) == 1);
            assert(m * pow256(out@.len()) == m) by (nonlinear_arith)
                requires
                    pow256(out@.len()) == 1,
            ;
        }
        while m > 0
            invariant
                out@.len() <= 8,
                le_val(out@) + m * pow256(out@.len()) == pointer,
                out@.len() > 0 ==> out@.last() != 0 || m > 0,
                out@.len() == 8 ==> m == 0,
                pow256(8) == 0x1_0000_0000_0000_0000,
            decreases m,
        {
            let ghost old_out = out@;
            let ghost old_m = m;
            let d = (m % 256) as u8;
            out.push(d);
            m = m / 256;
            proof {
                lemma_le_val_push(old_out, d);
                assert(old_m == 256 * (old_m / 256) + old_m % 256);
                assert(le_val(out@) + m * pow256(out@.len()) == pointer) by (nonlinear_arith)
                    requires
                        out@.len() >= 1,
                        le_val(out@) == le_val(old_out) + (d as nat) * pow256(old_out.len()),
                        out@.len() == old_out.len() + 1,
                        pow256(out@.len()) == 256 * pow256(old_out.len()),
                        le_val(old_out) + old_m * pow256(old_out.len()) == pointer,
                        old_m == 256 * m + d,
                ;
                if out@.len() == 8 && m > 0 {
                    assert(m * pow256(8) >= pow256(8)) by (nonlinear_arith)
                        requires
                            m >= 1,
                            pow256(8) > 0,
                    ;
                }
            }
        }
        proof {
            if out@.len() > 0 {
                assert(out@.last() != 0);
            }
            lemma_le_val_bound(out@);
            assert(le_val(out@) == pointer);
            assert(out@.take(out@.len() as int) =~= out@);
            if out@.len() < 8 {
                assert(out@.take(out@.len() as int) == out@);
            }
            assert(pointer_spec(out@) == Some(pointer));
        }
        out
    }

    /// The body read as text: empty when there is no body, `None` when the
    /// body is not valid UTF-8.
    pub fn body_text(&self) -> (r: Option<String>)
        ensures
            match body_text_spec(self@) {
                Some(t) => r matches Some(s) && s@ == t,
                None => r is None,
            },
    {
        match &self.body {
            Some(b) => utf8_to_string(b.as_slice()),
            None => Some(String::new()),
        }
    }

    /// The content type as text, when the field holds valid UTF-8.
    pub fn content_type(&self) -> (r: Option<String>)
        ensures
            match self@.content_type {
                None => r is None,
                Some(b) => (r is Some <==> valid_utf8(b)) && (r matches Some(s) ==> s@
                    == decode_utf8(b)),
            },
    {
        match &self.content_type {
            Some(b) => utf8_to_string(b.as_slice()),
            None => None,
        }
    }

    /// The metaprotocol as text, when the field holds valid UTF-8.
    pub fn metaprotocol(&self) -> (r: Option<String>)
        ensures
            match self@.metaprotocol {
                None => r is None,
                Some(b) => (r is Some <==> valid_utf8(b)) && (r matches Some(s) ==> s@
                    == decode_utf8(b)),
            },
    {
        match &self.metaprotocol {
            Some(b) => utf8_to_string(b.as_slice()),
            None => None,
        }
    }

    /// The content encoding, when it reads as text acceptable to the outside
    /// header type; a field that is not UTF-8 is read as empty text first.
    pub fn content_encoding(&self) -> (r: Option<String>)
        ensures
            match self@.content_encoding {
                None => r is None,
                Some(b) => {
                    let t = if valid_utf8(b) {
                        decode_utf8(b)
                    } else {
                        Seq::<char>::empty()
                    };
                    &&& (r is Some <==> header_value_ok(t))
                    &&& (r matches Some(s) ==> s@ == t)
                },
            },
    {
        let b = match &self.content_encoding {
            Some(b) => b,
            None => {
                return None;
            },
        };
        let text = match utf8_to_string(b.as_slice()) {
            Some(s) => s,
            None => String::new(),
        };
        if is_header_value(text.as_str()) {
            Some(text)
        } else {
            None
        }
    }
}

/// One power divides the next: smaller exponents give smaller powers.
pub proof fn lemma_pow256_le(a: nat, b: nat)
    requires
        a <= b,
    ensures
        pow256(a) <= pow256(b),
    decreases b,
{
    if a < b {
        lemma_pow256_le(a, (b - 1) as nat);
        assert(pow256(b) == 256 * pow256((b - 1) as nat));
        assert(pow256((b - 1) as nat) <= 256 * pow256((b - 1) as nat)) by (nonlinear_arith)
            requires
                pow256((b - 1) as nat) >= 0,
        ;
    }
}

/// The seven- and eight-byte powers written out.
pub proof fn lemma_pow256_words()
    ensures
        pow256(3) == 0x100_0000,
        pow256(4) == 0x1_0000_0000,
        pow256(7) == 0x100_0000_0000_0000,
        pow256(8) == 0x1_0000_0000_0000_0000,
{
    reveal_with_fuel(pow256, 9);
    assert(pow256(0) == 1 && pow256(1) == 256 && pow256(2) == 0x1_0000);
    assert(pow256(3) == 0x100_0000 && pow256(4) == 0x1_0000_0000);
    assert(pow256(5) == 0x100_0000_0000 && pow256(6) == 0x1_0000_0000_0000);
    assert(pow256(7) == 0x100_0000_0000_0000);
    assert(pow256(8) == 0x1_0000_0000_0000_0000);
}

/// Appending one byte adds its value at the next power.
pub proof fn lemma_le_val_push(b: Seq<u8>, d: u8)
    ensures
        le_val(b.push(d)) == le_val(b) + (d as nat) * pow256(b.len()),
    decreases b.len(),
{
    if b.len() == 0 {
        reveal_with_fuel(le_val, 2);
        assert(b.push(d) =~= seq![d]);
        assert(b.push(d)[0] == d);
        assert(b.push(d).drop_first() =~= Seq::<u8>::empty());
        assert(le_val(b.push(d)) == (b.push(d)[0] + 256 * le_val(b.push(d).drop_first())) as nat);
        assert(le_val(b.push(d)) == d);
        assert(pow256(0) == 1);
        assert((d as nat) * pow256(b.len()) == d) by (nonlinear_arith)
            requires
                pow256(b.len()) == 1,
        ;
    } else {
        reveal_with_fuel(le_val, 2);
        lemma_le_val_push(b.drop_first(), d);
        assert(b.push(d).drop_first() =~= b.drop_first().push(d));
        assert(b.push(d)[0] == b[0]);
        let r = le_val(b.drop_first());
        let p = pow256((b.len() - 1) as nat);
        assert(le_val(b.push(d)) == b[0] + 256 * le_val(b.drop_first().push(d)));
        assert(le_val(b.drop_first().push(d)) == r + (d as nat) * p);
        assert(le_val(b) == b[0] + 256 * r);
        assert(pow256(b.len()) == 256 * p);
        assert(256 * (r + (d as nat) * p) == 256 * r + (d as nat) * (256 * p)) by (nonlinear_arith);
        assert((d as nat) * (256 * p) == (d as nat) * pow256(b.len()));
        assert(le_val(b.push(d)) == le_val(b) + (d as nat) * pow256(b.len()));
    }
}

/// The chunks a long field is split into for pushing: up to 520 bytes each,
/// none at all for an empty field.
pub open spec fn chunks520(d: Seq<u8>) -> Seq<Seq<u8>>
    decreases d.len(),
{
    if d.len() == 0 {
        Seq::empty()
    } else if d.len() <= 520 {
        seq![d]
    } else {
        seq![d.take(520)] + chunks520(d.skip(520))
    }
}

/// The payload pairs one optional single-push field contributes.
pub open spec fn opt_pair(t: u8, o: Option<Seq<u8>>) -> Seq<Seq<u8>> {
    match o {
        Some(v) => seq![tag1(t), v],
        None => Seq::empty(),
    }
}

/// The payload pairs the metadata chunks contribute: the tag repeated before
/// every chunk.
pub open spec fn meta_pairs(cs: Seq<Seq<u8>>) -> Seq<Seq<u8>>
    decreases cs.len(),
{
    if cs.len() == 0 {
        Seq::empty()
    } else {
        seq![tag1(METADATA_TAG), cs[0]] + meta_pairs(cs.drop_first())
    }
}

/// The field region the builder lays out: the five single fields in their
/// fixed order, then the metadata chunks.
pub open spec fn reveal_fields(v: InscriptionV) -> Seq<Seq<u8>> {
    opt_pair(CONTENT_TYPE_TAG, v.content_type) + opt_pair(CONTENT_ENCODING_TAG, v.content_encoding)
        + opt_pair(METAPROTOCOL_TAG, v.metaprotocol) + opt_pair(PARENT_TAG, v.parent) + opt_pair(
        POINTER_TAG,
        v.pointer,
    ) + meta_pairs(
        match v.metadata {
            Some(md) => chunks520(md),
            None => Seq::empty(),
        },
    )
}

/// The whole payload the builder lays out: the field region, then the body
/// chunks behind their empty marker.
pub open spec fn reveal_payload(v: InscriptionV) -> Seq<Seq<u8>> {
    reveal_fields(v) + (match v.body {
        Some(b) => seq![Seq::<u8>::empty()] + chunks520(b),
        None => Seq::empty(),
    })
}

/// The reveal script as instructions: the opening empty push, the branch
/// opcode, the protocol marker, every payload chunk as a push, and the
/// closing opcode.
pub open spec fn reveal_instrs(v: InscriptionV) -> Seq<InstrV> {
    seq![InstrV::Push(Seq::<u8>::empty()), InstrV::Op(OP_IF), InstrV::Push(protocol_id())]
        + reveal_payload(v).map_values(|d: Seq<u8>| InstrV::Push(d)) + seq![InstrV::Op(OP_ENDIF)]
}

/// Appends one tagged single-push field.
fn push_tagged(b: &mut Vec<Instr>, t: u8, v: &Vec<u8>)
    ensures
        final(b).deep_view() == old(b).deep_view() + seq![
            InstrV::Push(tag1(t)),
            InstrV::Push(v@),
        ],
{
    let ghost before = b.deep_view();
    let mut tag: Vec<u8> = Vec::new();
    tag.push(t);
    proof {
        assert(tag@ =~= tag1(t));
    }
    b.push(Instr::Push(tag));
    b.push(Instr::Push(clone_bytes_here(v)));
    proof {
        assert(b.deep_view() =~= before + seq![InstrV::Push(tag1(t)), InstrV::Push(v@)]);
    }
}

/// Copies a byte vector.
fn clone_bytes_here(v: &Vec<u8>) -> (r: Vec<u8>)
    ensures
        r@ == v@,
{
    let mut out: Vec<u8> = Vec::new();
    let mut i: usize = 0;
    while i < v.len()
        invariant
            i <= v@.len(),
            out@ == v@.take(i as int),
        decreases v@.len() - i,
    {
        out.push(v[i]);
        proof {
            assert(out@ =~= v@.take(i + 1));
        }
        i = i + 1;
    }
    proof {
        assert(v@.take(v@.len() as int) =~= v@);
    }
    out
}

/// The pushes a field's chunks become: when tagged, the metadata tag push
/// repeated before every chunk.
pub open spec fn chunk_pushes(tagged: bool, x: Seq<u8>) -> Seq<InstrV> {
    (if tagged {
        meta_pairs(chunks520(x))
    } else {
        chunks520(x)
    }).map_values(|c: Seq<u8>| InstrV::Push(c))
}

/// Appends the chunks of one field as pushes, the metadata tag push repeated
/// before each chunk when `tagged` is set.
fn push_chunks(b: &mut Vec<Instr>, tagged: bool, d: &Vec<u8>)
    ensures
        final(b).deep_view() == old(b).deep_view() + chunk_pushes(tagged, d@),
{
    let n = d.len();
    let mut i: usize = 0;
    let ghost base = old(b).deep_view();
    proof {
        assert(d@.skip(0) =~= d@);
    }
    while i < n
        invariant
            i <= n,
            n == d@.len(),
            base + chunk_pushes(tagged, d@) == b.deep_view() + chunk_pushes(
                tagged,
                d@.skip(i as int),
            ),
        decreases n - i,
    {
        let ghost rem = d@.skip(i as int);
        let ghost pre = b.deep_view();
        let end: usize = if n - i > 520 {
            i + 520
        } else {
            n
        };
        let chunk = slice_to_vec(slice_subrange(d.as_slice(), i, end));
        let ghost chunk_v = chunk@;
        proof {
            assert(chunk_v =~= d@.subrange(i as int, end as int));
            if rem.len() <= 520 {
                assert(chunk_v =~= rem);
                assert(chunks520(rem) == seq![rem]);
                assert(d@.skip(end as int) =~= Seq::<u8>::empty());
            } else {
                assert(chunk_v =~= rem.take(520));
                assert(rem.skip(520) =~= d@.skip(i + 520));
            }
            assert(chunks520(rem)[0] == chunk_v);
            assert(chunks520(rem).drop_first() =~= chunks520(d@.skip(end as int)));
        }
        if tagged {
            let mut tagv: Vec<u8> = Vec::new();
            tagv.push(METADATA_TAG);
            proof {
                assert(tagv@ =~= tag1(METADATA_TAG));
            }
            b.push(Instr::Push(tagv));
            b.push(Instr::Push(chunk));
            proof {
                let cs = chunks520(rem);
                assert(meta_pairs(cs) == seq![tag1(METADATA_TAG), cs[0]] + meta_pairs(
                    cs.drop_first(),
                ));
                assert(b.deep_view() =~= pre + seq![
                    InstrV::Push(tag1(METADATA_TAG)),
                    InstrV::Push(chunk_v),
                ]);
                assert(base + chunk_pushes(tagged, d@) =~= b.deep_view() + chunk_pushes(
                    tagged,
                    d@.skip(end as int),
                ));
            }
        } else {
            b.push(Instr::Push(chunk));
            proof {
                assert(b.deep_view() =~= pre + seq![InstrV::Push(chunk_v)]);
                assert(base + chunk_pushes(tagged, d@) =~= b.deep_view() + chunk_pushes(
                    tagged,
                    d@.skip(end as int),
                ));
            }
        }
        i = end;
    }
    proof {
        assert(d@.skip(n as int) =~= Seq::<u8>::empty());
        assert(chunk_pushes(tagged, d@.skip(n as int)) =~= Seq::<InstrV>::empty());
        assert(final(b).deep_view() =~= base + chunk_pushes(tagged, d@));
    }
}

/// Mapping to pushes distributes over laying parts end to end.
proof fn lemma_push_map_distributes(a: Seq<Seq<u8>>, b: Seq<Seq<u8>>)
    ensures
        (a + b).map_values(|d: Seq<u8>| InstrV::Push(d)) == a.map_values(
            |d: Seq<u8>| InstrV::Push(d),
        ) + b.map_values(|d: Seq<u8>| InstrV::Push(d)),
{
    assert((a + b).map_values(|d: Seq<u8>| InstrV::Push(d)) =~= a.map_values(
        |d: Seq<u8>| InstrV::Push(d),
    ) + b.map_values(|d: Seq<u8>| InstrV::Push(d)));
}

/// Appends the five single fields and the metadata chunks of one
/// inscription, in the builder's fixed order.
#[verifier::rlimit(60)]
fn push_reveal_fields(insc: &Inscription, b: &mut Vec<Instr>)
    ensures
        final(b).deep_view() == old(b).deep_view() + reveal_fields(insc@).map_values(
            |d: Seq<u8>| InstrV::Push(d),
        ),
{
    let ghost pf = |d: Seq<u8>| InstrV::Push(d);
    let ghost q1 = opt_pair(CONTENT_TYPE_TAG, insc@.content_type);
    let ghost q2 = opt_pair(CONTENT_ENCODING_TAG, insc@.content_encoding);
    let ghost q3 = opt_pair(METAPROTOCOL_TAG, insc@.metaprotocol);
    let ghost q4 = opt_pair(PARENT_TAG, insc@.parent);
    let ghost q5 = opt_pair(POINTER_TAG, insc@.pointer);
    let ghost q6 = meta_pairs(
        match insc@.metadata {
            Some(md) => chunks520(md),
            None => Seq::<Seq<u8>>::empty(),
        },
    );
    let ghost mut done = old(b).deep_view();
    if let Some(ct) = &insc.content_type {
        push_tagged(b, CONTENT_TYPE_TAG, ct);
    }
    proof {
        match insc@.content_type {
            Some(v) => {
                assert(q1.map_values(pf) =~= seq![
                    InstrV::Push(tag1(CONTENT_TYPE_TAG)),
                    InstrV::Push(v),
                ]);
            },
            None => {
                assert(q1.map_values(pf) =~= Seq::<InstrV>::empty());
            },
        }
        assert(b.deep_view() =~= done + q1.map_values(pf));
        done = done + q1.map_values(pf);
    }
    if let Some(ce) = &insc.content_encoding {
        push_tagged(b, CONTENT_ENCODING_TAG, ce);
    }
    proof {
        match insc@.content_encoding {
            Some(v) => {
                assert(q2.map_values(pf) =~= seq![
                    InstrV::Push(tag1(CONTENT_ENCODING_TAG)),
                    InstrV::Push(v),
                ]);
            },
            None => {
                assert(q2.map_values(pf) =~= Seq::<InstrV>::empty());
            },
        }
        assert(b.deep_view() =~= done + q2.map_values(pf));
        done = done + q2.map_values(pf);
    }
    if let Some(mp) = &insc.metaprotocol {
        push_tagged(b, METAPROTOCOL_TAG, mp);
    }
    proof {
        match insc@.metaprotocol {
            Some(v) => {
                assert(q3.map_values(pf) =~= seq![
                    InstrV::Push(tag1(METAPROTOCOL_TAG)),
                    InstrV::Push(v),
                ]);
            },
            None => {
                assert(q3.map_values(pf) =~= Seq::<InstrV>::empty());
            },
        }
        assert(b.deep_view() =~= done + q3.map_values(pf));
        done = done + q3.map_values(pf);
    }
    if let Some(pa) = &insc.parent {
        push_tagged(b, PARENT_TAG, pa);
    }
    proof {
        match insc@.parent {
            Some(v) => {
                assert(q4.map_values(pf) =~= seq![
                    InstrV::Push(tag1(PARENT_TAG)),
                    InstrV::Push(v),
                ]);
            },
            None => {
                assert(q4.map_values(pf) =~= Seq::<InstrV>::empty());
            },
        }
        assert(b.deep_view() =~= done + q4.map_values(pf));
        done = done + q4.map_values(pf);
    }
    if let Some(po) = &insc.pointer {
        push_tagged(b, POINTER_TAG, po);
    }
    proof {
        match insc@.pointer {
            Some(v) => {
                assert(q5.map_values(pf) =~= seq![
                    InstrV::Push(tag1(POINTER_TAG)),
                    InstrV::Push(v),
                ]);
            },
            None => {
                assert(q5.map_values(pf) =~= Seq::<InstrV>::empty());
            },
        }
        assert(b.deep_view() =~= done + q5.map_values(pf));
        done = done + q5.map_values(pf);
    }
    if let Some(md) = &insc.metadata {
        push_chunks(b, true, md);
    }
    proof {
        match insc@.metadata {
            Some(v) => {
                assert(q6.map_values(pf) =~= chunk_pushes(true, v));
            },
            None => {
                assert(q6.map_values(pf) =~= Seq::<InstrV>::empty());
            },
        }
        assert(b.deep_view() =~= done + q6.map_values(pf));
        done = done + q6.map_values(pf);
        lemma_push_map_distributes(q1, q2);
        lemma_push_map_distributes(q1 + q2, q3);
        lemma_push_map_distributes(q1 + q2 + q3, q4);
        lemma_push_map_distributes(q1 + q2 + q3 + q4, q5);
        lemma_push_map_distributes(q1 + q2 + q3 + q4 + q5, q6);
        assert(reveal_fields(insc@) == q1 + q2 + q3 + q4 + q5 + q6);
        assert(final(b).deep_view() =~= old(b).deep_view() + reveal_fields(insc@).map_values(pf));
    }
}

impl Inscription {
    /// Appends this inscription's reveal script to the builder, instruction
    /// by instruction: the opening empty push, the branch opcode, the
    /// protocol marker, each present field behind its tag, the metadata in
    /// tagged chunks, the body chunks behind the empty marker, and the
    /// closing opcode.
    #[verifier::rlimit(60)]
    pub fn append_reveal_script_to_builder(&self, builder: Vec<Instr>) -> (r: Vec<Instr>)
        ensures
            r.deep_view() == builder.deep_view() + reveal_instrs(self@),
    {
        let ghost base = builder.deep_view();
        let ghost pf = |d: Seq<u8>| InstrV::Push(d);
        let ghost q7 = match self@.body {
            Some(bd) => seq![Seq::<u8>::empty()] + chunks520(bd),
            None => Seq::<Seq<u8>>::empty(),
        };
        let mut b = builder;
        b.push(Instr::Push(Vec::new()));
        b.push(Instr::Op(OP_IF));
        let mut marker: Vec<u8> = Vec::new();
        marker.push(0x6f);
        marker.push(0x72);
        marker.push(0x64);
        proof {
            assert(marker@ =~= protocol_id());
        }
        b.push(Instr::Push(marker));
        let ghost opened = b.deep_view();
        proof {
            assert(opened =~= base + seq![
                InstrV::Push(Seq::<u8>::empty()),
                InstrV::Op(OP_IF),
                InstrV::Push(protocol_id()),
            ]);
        }
        push_reveal_fields(self, &mut b);
        let ghost with_fields = b.deep_view();
        if let Some(body) = &self.body {
            b.push(Instr::Push(Vec::new()));
            push_chunks(&mut b, false, body);
        }
        proof {
            match self@.body {
                Some(v) => {
                    assert(q7.map_values(pf) =~= seq![InstrV::Push(Seq::<u8>::empty())]
                        + chunk_pushes(false, v));
                },
                None => {
                    assert(q7.map_values(pf) =~= Seq::<InstrV>::empty());
                },
            }
            assert(b.deep_view() =~= with_fields + q7.map_values(pf));
        }
        b.push(Instr::Op(OP_ENDIF));
        proof {
            lemma_push_map_distributes(reveal_fields(self@), q7);
            assert(reveal_payload(self@) == reveal_fields(self@) + q7);
            let fm = reveal_fields(self@).map_values(|d: Seq<u8>| InstrV::Push(d));
            let qm = q7.map_values(|d: Seq<u8>| InstrV::Push(d));
            assert(with_fields =~= opened + fm);
            assert(q7.map_values(pf) =~= qm);
            assert(reveal_payload(self@).map_values(|d: Seq<u8>| InstrV::Push(d)) =~= fm + qm);
            assert(b.deep_view() =~= opened + fm + qm + seq![InstrV::Op(OP_ENDIF)]);
            assert(b.deep_view() =~= base + reveal_instrs(self@));
        }
        b
    }

    /// This inscription's reveal script appended to the builder, as bytes.
    pub fn append_reveal_script(&self, builder: Vec<Instr>) -> (r: Vec<u8>)
        requires
            forall|t: int|
                0 <= t < builder.deep_view().len() + reveal_instrs(self@).len()
                    ==> crate::ord::script::instr_encodable(
                    #[trigger] (builder.deep_view() + reveal_instrs(self@))[t],
                ),
        ensures
            r@ == crate::ord::script::script_encoding(
                builder.deep_view() + reveal_instrs(self@),
            ),
    {
        let full = self.append_reveal_script_to_builder(builder);
        serialize_instructions(&full)
    }

    /// Appends every inscription's reveal script in order.
    pub fn append_batch_reveal_script_to_builder(
        inscriptions: &Vec<Inscription>,
        builder: Vec<Instr>,
    ) -> (r: Vec<Instr>)
        ensures
            r.deep_view() == builder.deep_view() + batch_reveal_instrs(
                inscriptions.deep_view(),
            ),
    {
        let mut b = builder;
        let ghost base = b.deep_view();
        let ghost ivs = inscriptions.deep_view();
        let n = inscriptions.len();
        let mut i: usize = 0;
        proof {
            assert(ivs.take(0) =~= Seq::<InscriptionV>::empty());
            assert(base + batch_reveal_instrs(ivs.take(0)) =~= base);
        }
        while i < n
            invariant
                i <= n,
                n == ivs.len(),
                ivs == inscriptions.deep_view(),
                b.deep_view() == base + batch_reveal_instrs(ivs.take(i as int)),
            decreases n - i,
        {
            proof {
                assert(ivs[i as int] == inscriptions@[i as int]@);
            }
            b = inscriptions[i].append_reveal_script_to_builder(b);
            i = i + 1;
            proof {
                assert(ivs.take(i as int).drop_last() =~= ivs.take(i - 1));
                assert(ivs.take(i as int).last() == ivs[i - 1]);
                assert(b.deep_view() =~= base + batch_reveal_instrs(ivs.take(i as int)));
            }
        }
        proof {
            assert(ivs.take(n as int) =~= ivs);
        }
        b
    }

    /// Every inscription's reveal script in order, as bytes.
    pub fn append_batch_reveal_script(inscriptions: &Vec<Inscription>, builder: Vec<Instr>) -> (r:
        Vec<u8>)
        requires
            forall|t: int|
                0 <= t < builder.deep_view().len() + batch_reveal_instrs(
                    inscriptions.deep_view(),
                ).len() ==> crate::ord::script::instr_encodable(
                    #[trigger] (builder.deep_view() + batch_reveal_instrs(
                        inscriptions.deep_view(),
                    ))[t],
                ),
        ensures
            r@ == crate::ord::script::script_encoding(
                builder.deep_view() + batch_reveal_instrs(inscriptions.deep_view()),
            ),
    {
        let full = Self::append_batch_reveal_script_to_builder(inscriptions, builder);
        serialize_instructions(&full)
    }
}

/// The reveal scripts of a batch, laid end to end.
pub open spec fn batch_reveal_instrs(vs: Seq<InscriptionV>) -> Seq<InstrV>
    decreases vs.len(),
{
    if vs.len() == 0 {
        Seq::empty()
    } else {
        batch_reveal_instrs(vs.drop_last()) + reveal_instrs(vs.last())
    }
}
/// The text an inscription's body denotes: empty when there is no body,
/// nothing when the body is not valid UTF-8.
pub open spec fn body_text_spec(i: InscriptionV) -> Option<Seq<char>> {
    match i.body {
        None => Some(Seq::<char>::empty()),
        Some(b) => if valid_utf8(b) {
            Some(decode_utf8(b))
        } else {
            None
        },
    }
}



pub open spec fn pointer_spec(v: Seq<u8>) -> Option<u64> {
    if exists|i: int| 8 <= i < v.len() && (#[trigger] v[i]) != 0 {
        None
    } else {
        Some(
            le_val(
                v.take(
                    if v.len() < 8 {
                        v.len() as int
                    } else {
                        8
                    },
                ),
            ) as u64,
        )
    }
}

/// Relies on std::str::from_utf8, stated against the UTF-8 model: text
/// exactly when the bytes are valid UTF-8, and then exactly the characters
/// those bytes decode to.
#[verifier::external_body]
pub(crate) fn utf8_to_string(bytes: &[u8]) -> (r: Option<String>)
    ensures
        r is Some <==> valid_utf8(bytes@),
        r matches Some(s) ==> s@ == decode_utf8(bytes@) && encode_utf8(s@) == bytes@,
{
    match std::str::from_utf8(bytes) {
        Ok(s) => Some(s.to_owned()),
        Err(_) => None,
    }
}

/// A byte the outside header type accepts: visible or high, or the
/// horizontal tab — at least thirty-two and not one hundred twenty-seven,
/// or nine.
pub open spec fn is_header_byte(b: u8) -> bool {
    (b >= 32 && b != 127) || b == 9
}

/// The texts the outside header type accepts: every byte of the UTF-8 form
/// acceptable.
pub open spec fn header_value_ok(s: Seq<char>) -> bool {
    forall|i: int|
        0 <= i < encode_utf8(s).len() ==> is_header_byte(#[trigger] encode_utf8(s)[i])
}

/// Relies on http::HeaderValue::from_str: whether the text is acceptable as
/// a header value, which its source decides byte by byte exactly as
/// `header_value_ok` states.
#[verifier::external_body]
fn is_header_value(s: &str) -> (r: bool)
    ensures
        r == header_value_ok(s@),
{
    http::HeaderValue::from_str(s).is_ok()
}

} // verus!


