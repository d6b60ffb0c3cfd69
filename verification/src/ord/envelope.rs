use crate::ord::inscription::{
    reveal_instrs, reveal_payload, tag1, Inscription, InscriptionV, CONTENT_ENCODING_TAG,
    CONTENT_TYPE_TAG, METADATA_TAG, METAPROTOCOL_TAG, PARENT_TAG, POINTER_TAG,
};
use crate::ord::script::{tokenize, tokenize_spec, Instr, InstrV};
use vstd::prelude::*;

verus! {

/// Opcode that opens the protocol branch.
pub const OP_IF: u8 = 0x63;

/// Opcode that closes the protocol branch.
pub const OP_ENDIF: u8 = 0x68;

/// Opcode pushing the number minus one.
pub const OP_PUSHNUM_NEG1: u8 = 0x4f;

/// Opcode pushing the number one.
pub const OP_PUSHNUM_1: u8 = 0x51;

/// Opcode pushing the number sixteen.
pub const OP_PUSHNUM_16: u8 = 0x60;

/// The three-byte protocol marker `ord`.
pub open spec fn protocol_id() -> Seq<u8> {
    seq![0x6fu8, 0x72u8, 0x64u8]
}

/// Whether an instruction is a push of no bytes.
pub open spec fn is_empty_push(x: InstrV) -> bool {
    match x {
        InstrV::Push(d) => d.len() == 0,
        InstrV::Op(_) => false,
    }
}

/// Whether an instruction pushes exactly `d`.
pub open spec fn is_push_of(x: InstrV, d: Seq<u8>) -> bool {
    match x {
        InstrV::Push(p) => p == d,
        InstrV::Op(_) => false,
    }
}

/// Whether an instruction is the plain opcode `o`.
pub open spec fn is_op(x: InstrV, o: u8) -> bool {
    match x {
        InstrV::Push(_) => false,
        InstrV::Op(p) => p == o,
    }
}

/// The canonical single byte a small-number opcode stands for, if any.
pub open spec fn pushnum_byte(o: u8) -> Option<u8> {
    if o == OP_PUSHNUM_NEG1 {
        Some(0x81u8)
    } else if OP_PUSHNUM_1 <= o && o <= OP_PUSHNUM_16 {
        Some((o - 0x50) as u8)
    } else {
        None
    }
}

/// One raw envelope: the tagged pushes found between the protocol opening and
/// its closing opcode, with its position among the input's envelopes.
#[derive(Debug)]
pub struct RawEnvelope {
    pub input: usize,
    pub offset: usize,
    pub payload: Vec<Vec<u8>>,
    pub pushnum: bool,
    pub stutter: bool,
}

/// Spec-level shape of a raw envelope.
pub ghost struct RawEnvelopeV {
    pub input: int,
    pub offset: int,
    pub payload: Seq<Seq<u8>>,
    pub pushnum: bool,
    pub stutter: bool,
}

impl View for RawEnvelope {
    type V = RawEnvelopeV;

    open spec fn view(&self) -> RawEnvelopeV {
        RawEnvelopeV {
            input: self.input as int,
            offset: self.offset as int,
            payload: self.payload.deep_view(),
            pushnum: self.pushnum,
            stutter: self.stutter,
        }
    }
}

impl DeepView for RawEnvelope {
    type V = RawEnvelopeV;

    open spec fn deep_view(&self) -> RawEnvelopeV {
        self.view()
    }
}

/// Reading of an open envelope's body from `k`: pairs of pushes collected
/// until the closing opcode, small-number opcodes standing for their
/// canonical byte; any other opcode discards the candidate. Returns where
/// scanning resumes and the payload, if the envelope closed properly.
pub open spec fn payload_scan(instrs: Seq<InstrV>, k: int, acc: Seq<Seq<u8>>, pn: bool) -> (
    int,
    Option<(Seq<Seq<u8>>, bool)>,
)
    decreases instrs.len() - k,
{
    if k < 0 || k >= instrs.len() {
        (instrs.len() as int, None)
    } else {
        match instrs[k] {
            InstrV::Op(o) => {
                if o == OP_ENDIF {
                    (k + 1, Some((acc, pn)))
                } else {
                    match pushnum_byte(o) {
                        Some(b) => payload_scan(instrs, k + 1, acc.push(seq![b]), true),
                        None => (k + 1, None),
                    }
                }
            },
            InstrV::Push(d) => payload_scan(instrs, k + 1, acc.push(d), pn),
        }
    }
}

/// One candidate that opened on an empty push at `j - 1`: the branch opcode
/// and the protocol marker must follow, then the payload. Returns where
/// scanning resumes, whether the next instruction is again an empty push
/// after a failed opening, and the payload of a completed envelope.
pub open spec fn candidate_scan(instrs: Seq<InstrV>, j: int) -> (int, bool, Option<
    (Seq<Seq<u8>>, bool),
>) {
    if 0 <= j < instrs.len() && is_op(instrs[j], OP_IF) {
        if j + 1 < instrs.len() && is_push_of(instrs[j + 1], protocol_id()) {
            let (next, res) = payload_scan(instrs, j + 2, Seq::empty(), false);
            (next, false, res)
        } else {
            (j + 1, j + 1 < instrs.len() && is_empty_push(instrs[j + 1]), None)
        }
    } else {
        (j, 0 <= j < instrs.len() && is_empty_push(instrs[j]), None)
    }
}

/// Bounds of the payload scan: it only moves forward, never past the end.
pub proof fn lemma_payload_scan_bounds(instrs: Seq<InstrV>, k: int, acc: Seq<Seq<u8>>, pn: bool)
    requires
        0 <= k <= instrs.len(),
    ensures
        k <= payload_scan(instrs, k, acc, pn).0 <= instrs.len(),
    decreases instrs.len() - k,
{
    if k < instrs.len() {
        match instrs[k] {
            InstrV::Op(o) => {
                if o != OP_ENDIF && pushnum_byte(o) is Some {
                    lemma_payload_scan_bounds(
                        instrs,
                        k + 1,
                        acc.push(seq![pushnum_byte(o).unwrap()]),
                        true,
                    );
                }
            },
            InstrV::Push(d) => {
                lemma_payload_scan_bounds(instrs, k + 1, acc.push(d), pn);
            },
        }
    }
}

/// Bounds of one candidate: scanning always resumes at or after the opening.
pub proof fn lemma_candidate_bounds(instrs: Seq<InstrV>, j: int)
    requires
        0 <= j <= instrs.len(),
    ensures
        j <= candidate_scan(instrs, j).0 <= instrs.len(),
{
    if j < instrs.len() && is_op(instrs[j], OP_IF) {
        if j + 1 < instrs.len() && is_push_of(instrs[j + 1], protocol_id()) {
            lemma_payload_scan_bounds(instrs, j + 2, Seq::empty(), false);
        }
    }
}

/// Scan of a whole instruction stream: a candidate opens on each empty push,
/// completed envelopes are numbered in order, and a failed opening followed
/// directly by another empty push marks the next candidate as a stutter.
pub open spec fn scan_envelopes(
    instrs: Seq<InstrV>,
    i: int,
    stuttered: bool,
    input: int,
    acc: Seq<RawEnvelopeV>,
) -> Seq<RawEnvelopeV>
    decreases instrs.len() - i,
    when 0 <= i
    via scan_envelopes_dec
{
    if i >= instrs.len() {
        acc
    } else if is_empty_push(instrs[i]) {
        let (next, st, res) = candidate_scan(instrs, i + 1);
        match res {
            Some((payload, pn)) => scan_envelopes(
                instrs,
                next,
                stuttered,
                input,
                acc.push(
                    RawEnvelopeV {
                        input,
                        offset: acc.len() as int,
                        payload,
                        pushnum: pn,
                        stutter: stuttered,
                    },
                ),
            ),
            None => scan_envelopes(instrs, next, st, input, acc),
        }
    } else {
        scan_envelopes(instrs, i + 1, stuttered, input, acc)
    }
}

#[via_fn]
proof fn scan_envelopes_dec(
    instrs: Seq<InstrV>,
    i: int,
    stuttered: bool,
    input: int,
    acc: Seq<RawEnvelopeV>,
) {
    if 0 <= i < instrs.len() && is_empty_push(instrs[i]) {
        lemma_candidate_bounds(instrs, i + 1);
    }
}

/// The envelopes of one tapscript: none when the script does not tokenize,
/// else the full scan of its instructions.
pub open spec fn tapscript_envelopes(s: Seq<u8>, input: int) -> Seq<RawEnvelopeV> {
    match tokenize_spec(s) {
        Some(instrs) => scan_envelopes(instrs, 0, false, input, Seq::empty()),
        None => Seq::empty(),
    }
}

/// Whether an instruction is the plain opcode `o`.
fn instr_is_op(x: &Instr, o: u8) -> (r: bool)
    ensures
        r == is_op(x.deep_view(), o),
{
    match x {
        Instr::Op(p) => *p == o,
        Instr::Push(_) => false,
    }
}

/// Whether an instruction is a push of no bytes.
fn instr_is_empty_push(x: &Instr) -> (r: bool)
    ensures
        r == is_empty_push(x.deep_view()),
{
    match x {
        Instr::Push(d) => d.len() == 0,
        Instr::Op(_) => false,
    }
}

/// Whether an instruction pushes exactly the protocol marker.
fn instr_is_protocol_push(x: &Instr) -> (r: bool)
    ensures
        r == is_push_of(x.deep_view(), protocol_id()),
{
    match x {
        Instr::Push(d) => {
            if d.len() == 3 && d[0] == 0x6f && d[1] == 0x72 && d[2] == 0x64 {
                proof {
                    assert(d@ =~= protocol_id());
                }
                true
            } else {
                proof {
                    if d@ == protocol_id() {
                        assert(d@.len() == 3);
                        assert(d@[0] == 0x6f && d@[1] == 0x72 && d@[2] == 0x64);
                    }
                }
                false
            }
        },
        Instr::Op(_) => false,
    }
}

/// Builds the one-byte vector holding `b`.
fn byte_vec1(b: u8) -> (r: Vec<u8>)
    ensures
        r@ == seq![b],
{
    let mut v: Vec<u8> = Vec::new();
    v.push(b);
    proof {
        assert(v@ =~= seq![b]);
    }
    v
}

/// Copies a byte vector.
fn clone_bytes(v: &Vec<u8>) -> (r: Vec<u8>)
    ensures
        r@ == v@,
{
    let mut out: Vec<u8> = Vec::new();
    let mut i: usize = 0;
    while i < v.len()
        invariant
            i <= v@.len(),
            out@ == v@.take(i as int),
        decreases v@.len() - i,
    {
        out.push(v[i]);
        proof {
            assert(out@ =~= v@.take(i + 1));
        }
        i = i + 1;
    }
    proof {
        assert(v@.take(v@.len() as int) =~= v@);
    }
    out
}

impl RawEnvelope {
    /// Reads one candidate whose opening empty push sat at `j - 1`, exactly
    /// as `candidate_scan` describes.
    fn from_instructions(instrs: &Vec<Instr>, j: usize) -> (r: (usize, bool, Option<
        (Vec<Vec<u8>>, bool),
    >))
        requires
            j <= instrs@.len(),
        ensures
            ({
                let c = candidate_scan(instrs.deep_view(), j as int);
                &&& r.0 == c.0
                &&& r.1 == c.1
                &&& (r.2 is Some <==> c.2 is Some)
                &&& (r.2 matches Some(pair) ==> c.2 == Some((pair.0.deep_view(), pair.1)))
            }),
    {
        let ghost iv = instrs.deep_view();
        let n = instrs.len();
        proof {
            assert(iv.len() == n);
            assert(forall|t: int| 0 <= t < n ==> iv[t] == instrs@[t].deep_view());
        }
        if !(j < n && instr_is_op(&instrs[j], OP_IF)) {
            let st = j < n && instr_is_empty_push(&instrs[j]);
            return (j, st, None);
        }
        if !(j + 1 < n && instr_is_protocol_push(&instrs[j + 1])) {
            let st = j + 1 < n && instr_is_empty_push(&instrs[j + 1]);
            return (j + 1, st, None);
        }
        let mut payload: Vec<Vec<u8>> = Vec::new();
        let mut pushnum: bool = false;
        let mut k: usize = j + 2;
        proof {
            assert(payload.deep_view() =~= Seq::<Seq<u8>>::empty());
        }
        loop
            invariant
                j + 2 <= k <= n,
                n == iv.len(),
                iv == instrs.deep_view(),
                j + 1 < n,
                is_op(iv[j as int], OP_IF),
                is_push_of(iv[j + 1], protocol_id()),
                forall|t: int| 0 <= t < n ==> iv[t] == instrs@[t].deep_view(),
                payload_scan(iv, (j + 2) as int, Seq::empty(), false) == payload_scan(
                    iv,
                    k as int,
                    payload.deep_view(),
                    pushnum,
                ),
            decreases n - k,
        {
            if k >= n {
                return (n, false, None);
            }
            let ghost old_p = payload.deep_view();
            let ghost old_pn = pushnum;
            let mut advanced = false;
            match &instrs[k] {
                Instr::Op(o) => {
                    let op = *o;
                    if op == OP_ENDIF {
                        return (k + 1, false, Some((payload, pushnum)));
                    }
                    if op == OP_PUSHNUM_NEG1 {
                        payload.push(byte_vec1(0x81));
                        pushnum = true;
                    } else if OP_PUSHNUM_1 <= op && op <= OP_PUSHNUM_16 {
                        payload.push(byte_vec1(op - 0x50));
                        pushnum = true;
                    } else {
                        return (k + 1, false, None);
                    }
                    proof {
                        let b = pushnum_byte(op).unwrap();
                        assert(payload.deep_view() =~~= old_p.push(seq![b]));
                    }
                },
                Instr::Push(d) => {
                    let copy = clone_bytes(d);
                    payload.push(copy);
                    proof {
                        assert(payload.deep_view() =~~= old_p.push(d@));
                    }
                },
            }
            k = k + 1;
        }
    }

    /// Scans one tapscript for envelopes: zero on a script whose pushes run
    /// past the end, else every completed envelope in order.
    pub fn from_tapscript(tapscript: &[u8], input: usize) -> (r: Vec<RawEnvelope>)
        ensures
            r.deep_view() == tapscript_envelopes(tapscript@, input as int),
    {
        let instrs = match tokenize(tapscript) {
            Some(v) => v,
            None => {
                let r: Vec<RawEnvelope> = Vec::new();
                proof {
                    assert(r.deep_view() =~= Seq::<RawEnvelopeV>::empty());
                }
                return r;
            },
        };
        let ghost iv = instrs.deep_view();
        let n = instrs.len();
        let mut envelopes: Vec<RawEnvelope> = Vec::new();
        let mut stuttered: bool = false;
        let mut i: usize = 0;
        proof {
            assert(iv.len() == n);
            assert(envelopes.deep_view() =~= Seq::<RawEnvelopeV>::empty());
        }
        while i < n
            invariant
                i <= n,
                n == iv.len(),
                iv == instrs.deep_view(),
                scan_envelopes(iv, 0, false, input as int, Seq::empty()) == scan_envelopes(
                    iv,
                    i as int,
                    stuttered,
                    input as int,
                    envelopes.deep_view(),
                ),
            decreases n - i,
        {
            proof {
                assert(iv[i as int] == instrs@[i as int].deep_view());
            }
            if instr_is_empty_push(&instrs[i]) {
                let (next, st, res) = Self::from_instructions(&instrs, i + 1);
                proof {
                    lemma_candidate_bounds(iv, i + 1);
                }
                let ghost old_envs = envelopes.deep_view();
                match res {
                    Some(pair) => {
                        let (payload, pn) = pair;
                        let offset = envelopes.len();
                        envelopes.push(
                            RawEnvelope { input, offset, payload, pushnum: pn, stutter: stuttered },
                        );
                        proof {
                            let c = candidate_scan(iv, i + 1);
                            assert(envelopes.deep_view() =~= old_envs.push(
                                RawEnvelopeV {
                                    input: input as int,
                                    offset: old_envs.len() as int,
                                    payload: c.2.unwrap().0,
                                    pushnum: c.2.unwrap().1,
                                    stutter: stuttered,
                                },
                            ));
                        }
                    },
                    None => {
                        stuttered = st;
                    },
                }
                i = next;
            } else {
                i = i + 1;
            }
        }
        envelopes
    }
}

/// First even position holding an empty chunk, from `i` on: the body marker.
pub open spec fn body_index_at(p: Seq<Seq<u8>>, i: int) -> Option<int>
    decreases p.len() - i,
{
    if i < 0 || i >= p.len() {
        None
    } else if i % 2 == 0 && p[i].len() == 0 {
        Some(i)
    } else {
        body_index_at(p, i + 1)
    }
}

/// Position of the body marker in a payload, if any.
pub open spec fn body_index(p: Seq<Seq<u8>>) -> Option<int> {
    body_index_at(p, 0)
}

/// The field region: everything strictly before the body marker.
pub open spec fn payload_prefix(p: Seq<Seq<u8>>) -> Seq<Seq<u8>> {
    match body_index(p) {
        Some(b) => p.take(b),
        None => p,
    }
}

/// Value of the first complete pair keyed `key`.
pub open spec fn first_value(pre: Seq<Seq<u8>>, key: Seq<u8>) -> Option<Seq<u8>>
    decreases pre.len(),
{
    if pre.len() < 2 {
        None
    } else if pre[0] == key {
        Some(pre[1])
    } else {
        first_value(pre.skip(2), key)
    }
}

/// Values of every complete pair keyed `key`, in order.
pub open spec fn all_values(pre: Seq<Seq<u8>>, key: Seq<u8>) -> Seq<Seq<u8>>
    decreases pre.len(),
{
    if pre.len() < 2 {
        Seq::empty()
    } else if pre[0] == key {
        seq![pre[1]] + all_values(pre.skip(2), key)
    } else {
        all_values(pre.skip(2), key)
    }
}

/// The chunks of a sequence of chunks, joined.
pub open spec fn concat_seqs(s: Seq<Seq<u8>>) -> Seq<u8>
    decreases s.len(),
{
    if s.len() == 0 {
        Seq::empty()
    } else {
        s[0] + concat_seqs(s.drop_first())
    }
}

/// A key whose first occurrence is taken out during decoding.
pub open spec fn is_single_removed_tag(k: Seq<u8>) -> bool {
    k == tag1(CONTENT_TYPE_TAG) || k == tag1(POINTER_TAG) || k == tag1(PARENT_TAG) || k == tag1(
        METAPROTOCOL_TAG,
    ) || k == tag1(CONTENT_ENCODING_TAG)
}

/// Some key carries more than one value.
pub open spec fn has_duplicate(pre: Seq<Seq<u8>>) -> bool {
    exists|k: Seq<u8>| (#[trigger] all_values(pre, k)).len() > 1
}

/// How many values of `key` the decoder leaves in place: none for metadata,
/// all but the first for the five single-valued tags, all for any other key.
pub open spec fn remaining_count(pre: Seq<Seq<u8>>, k: Seq<u8>) -> int {
    let c = all_values(pre, k).len() as int;
    if k == tag1(METADATA_TAG) {
        0
    } else if is_single_removed_tag(k) {
        if c > 0 {
            c - 1
        } else {
            0
        }
    } else {
        c
    }
}

/// A leftover key with an even first byte: the conservative flag.
pub open spec fn has_unrecognized_even(pre: Seq<Seq<u8>>) -> bool {
    exists|k: Seq<u8>| #[trigger] remaining_count(pre, k) > 0 && k.len() > 0 && k[0] % 2 == 0
}

/// The inscription one payload decodes to. Total: malformed payloads only
/// raise flags.
pub open spec fn inscription_of(p: Seq<Seq<u8>>) -> InscriptionV {
    let pre = payload_prefix(p);
    InscriptionV {
        body: match body_index(p) {
            Some(b) => Some(concat_seqs(p.skip(b + 1))),
            None => None,
        },
        content_encoding: first_value(pre, tag1(CONTENT_ENCODING_TAG)),
        content_type: first_value(pre, tag1(CONTENT_TYPE_TAG)),
        duplicate_field: has_duplicate(pre),
        incomplete_field: pre.len() % 2 == 1,
        metadata: if all_values(pre, tag1(METADATA_TAG)).len() == 0 {
            None
        } else {
            Some(concat_seqs(all_values(pre, tag1(METADATA_TAG))))
        },
        metaprotocol: first_value(pre, tag1(METAPROTOCOL_TAG)),
        parent: first_value(pre, tag1(PARENT_TAG)),
        pointer: first_value(pre, tag1(POINTER_TAG)),
        unrecognized_even_field: has_unrecognized_even(pre),
    }
}

/// The elements a nested byte vector views to, element views flattened.
proof fn lemma_bytes_deep(p: &Vec<Vec<u8>>)
    ensures
        p.deep_view().len() == p@.len(),
        forall|j: int| 0 <= j < p@.len() ==> #[trigger] p.deep_view()[j] == p@[j]@,
{
    assert forall|j: int| 0 <= j < p@.len() implies #[trigger] p.deep_view()[j] == p@[j]@ by {
        assert(p.deep_view()[j] =~= p@[j]@);
    }
}

/// Whether two byte vectors hold the same bytes.
fn vec_eq(a: &Vec<u8>, b: &Vec<u8>) -> (r: bool)
    ensures
        r == (a@ == b@),
{
    if a.len() != b.len() {
        return false;
    }
    let mut i: usize = 0;
    while i < a.len()
        invariant
            i <= a@.len(),
            a@.len() == b@.len(),
            forall|j: int| 0 <= j < i ==> a@[j] == b@[j],
        decreases a@.len() - i,
    {
        if a[i] != b[i] {
            return false;
        }
        i = i + 1;
    }
    proof {
        assert(a@ =~= b@);
    }
    true
}

/// Whether a chunk is the one-byte key of `t`.
fn is_tag(v: &Vec<u8>, t: u8) -> (r: bool)
    ensures
        r == (v@ == tag1(t)),
{
    if v.len() == 1 && v[0] == t {
        proof {
            assert(v@ =~= tag1(t));
        }
        true
    } else {
        proof {
            if v@ == tag1(t) {
                assert(v@.len() == 1 && v@[0] == t);
            }
        }
        false
    }
}

/// Appends all bytes of `src`.
fn extend_bytes(out: &mut Vec<u8>, src: &Vec<u8>)
    ensures
        final(out)@ == old(out)@ + src@,
{
    let mut i: usize = 0;
    while i < src.len()
        invariant
            i <= src@.len(),
            out@ == old(out)@ + src@.take(i as int),
        decreases src@.len() - i,
    {
        out.push(src[i]);
        proof {
            assert(out@ =~= old(out)@ + src@.take(i + 1));
        }
        i = i + 1;
    }
    proof {
        assert(old(out)@ + src@.take(src@.len() as int) =~= old(out)@ + src@);
    }
}

/// Finds the body marker.
fn find_body_index(p: &Vec<Vec<u8>>) -> (r: Option<usize>)
    ensures
        match r {
            Some(i) => body_index(p.deep_view()) == Some(i as int) && i < p@.len(),
            None => body_index(p.deep_view()) is None,
        },
{
    let ghost pv = p.deep_view();
    proof {
        lemma_bytes_deep(p);
    }
    let n = p.len();
    let mut i: usize = 0;
    while i < n
        invariant
            i <= n,
            n == pv.len(),
            pv == p.deep_view(),
            forall|j: int| 0 <= j < pv.len() ==> #[trigger] pv[j] == p@[j]@,
            body_index(pv) == body_index_at(pv, i as int),
        decreases n - i,
    {
        if i % 2 == 0 && p[i].len() == 0 {
            return Some(i);
        }
        i = i + 1;
    }
    None
}

/// Value of the first pair keyed by the one-byte tag `t`.
fn first_tag_value(p: &Vec<Vec<u8>>, upto: usize, t: u8) -> (r: Option<Vec<u8>>)
    requires
        upto <= p@.len(),
    ensures
        ({
            let pre = p.deep_view().take(upto as int);
            match r {
                Some(v) => first_value(pre, tag1(t)) == Some(v@),
                None => first_value(pre, tag1(t)) is None,
            }
        }),
{
    let ghost pre = p.deep_view().take(upto as int);
    proof {
        lemma_bytes_deep(p);
        assert(pre.skip(0) =~= pre);
    }
    let mut j: usize = 0;
    while j + 1 < upto
        invariant
            j % 2 == 0,
            j <= upto <= p@.len(),
            pre == p.deep_view().take(upto as int),
            pre.len() == upto,
            forall|u: int| 0 <= u < p@.len() ==> #[trigger] p.deep_view()[u] == p@[u]@,
            first_value(pre, tag1(t)) == first_value(pre.skip(j as int), tag1(t)),
        decreases upto - j,
    {
        proof {
            assert(pre.skip(j as int)[0] == pre[j as int]);
            assert(pre[j as int] == p@[j as int]@);
        }
        if is_tag(&p[j], t) {
            proof {
                assert(pre.skip(j as int)[1] == pre[j + 1]);
                assert(first_value(pre.skip(j as int), tag1(t)) == Some(pre[j + 1]));
            }
            let v = clone_bytes(&p[j + 1]);
            return Some(v);
        }
        proof {
            assert(pre.skip(j as int).skip(2) =~= pre.skip(j + 2));
        }
        j = j + 2;
    }
    proof {
        assert(pre.skip(j as int).len() < 2);
    }
    None
}

/// How many complete pairs carry `key`.
fn count_values(p: &Vec<Vec<u8>>, upto: usize, key: &Vec<u8>) -> (r: usize)
    requires
        upto <= p@.len(),
    ensures
        r == all_values(p.deep_view().take(upto as int), key@).len(),
{
    let ghost pre = p.deep_view().take(upto as int);
    proof {
        lemma_bytes_deep(p);
        assert(pre.skip(0) =~= pre);
    }
    let mut cnt: usize = 0;
    let mut j: usize = 0;
    while j + 1 < upto
        invariant
            j % 2 == 0,
            j <= upto <= p@.len(),
            cnt <= j,
            pre == p.deep_view().take(upto as int),
            pre.len() == upto,
            forall|u: int| 0 <= u < p@.len() ==> #[trigger] p.deep_view()[u] == p@[u]@,
            all_values(pre, key@).len() == cnt + all_values(pre.skip(j as int), key@).len(),
        decreases upto - j,
    {
        proof {
            assert(pre.skip(j as int)[0] == pre[j as int]);
            assert(pre[j as int] == p@[j as int]@);
            assert(pre.skip(j as int).skip(2) =~= pre.skip(j + 2));
        }
        if vec_eq(&p[j], key) {
            cnt = cnt + 1;
        }
        j = j + 2;
    }
    proof {
        assert(pre.skip(j as int).len() < 2);
    }
    cnt
}

/// Joined values of every pair keyed by the one-byte tag `t`.
fn concat_tag_values(p: &Vec<Vec<u8>>, upto: usize, t: u8) -> (r: Vec<u8>)
    requires
        upto <= p@.len(),
    ensures
        r@ == concat_seqs(all_values(p.deep_view().take(upto as int), tag1(t))),
{
    let ghost pre = p.deep_view().take(upto as int);
    proof {
        lemma_bytes_deep(p);
        assert(pre.skip(0) =~= pre);
    }
    let mut out: Vec<u8> = Vec::new();
    let mut j: usize = 0;
    while j + 1 < upto
        invariant
            j % 2 == 0,
            j <= upto <= p@.len(),
            pre == p.deep_view().take(upto as int),
            pre.len() == upto,
            forall|u: int| 0 <= u < p@.len() ==> #[trigger] p.deep_view()[u] == p@[u]@,
            concat_seqs(all_values(pre, tag1(t))) == out@ + concat_seqs(
                all_values(pre.skip(j as int), tag1(t)),
            ),
        decreases upto - j,
    {
        proof {
            assert(pre.skip(j as int)[0] == pre[j as int]);
            assert(pre[j as int] == p@[j as int]@);
            assert(pre.skip(j as int).skip(2) =~= pre.skip(j + 2));
        }
        if is_tag(&p[j], t) {
            proof {
                let vals = all_values(pre.skip(j as int), tag1(t));
                assert(pre.skip(j as int)[1] == pre[j + 1]);
                assert(vals == seq![pre[j + 1]] + all_values(pre.skip(j + 2), tag1(t)));
                assert(vals[0] == pre[j + 1]);
                assert(vals.drop_first() =~= all_values(pre.skip(j + 2), tag1(t)));
            }
            extend_bytes(&mut out, &p[j + 1]);
        }
        j = j + 2;
    }
    proof {
        assert(pre.skip(j as int).len() < 2);
    }
    out
}

/// Joined chunks from `from` to the end.
fn concat_from(p: &Vec<Vec<u8>>, from: usize) -> (r: Vec<u8>)
    requires
        from <= p@.len(),
    ensures
        r@ == concat_seqs(p.deep_view().skip(from as int)),
{
    let ghost pv = p.deep_view();
    proof {
        lemma_bytes_deep(p);
    }
    let n = p.len();
    let mut out: Vec<u8> = Vec::new();
    let mut j: usize = from;
    while j < n
        invariant
            from <= j <= n,
            n == pv.len(),
            pv == p.deep_view(),
            forall|u: int| 0 <= u < pv.len() ==> #[trigger] pv[u] == p@[u]@,
            concat_seqs(pv.skip(from as int)) == out@ + concat_seqs(pv.skip(j as int)),
        decreases n - j,
    {
        proof {
            assert(pv.skip(j as int)[0] == pv[j as int]);
            assert(pv.skip(j as int).drop_first() =~= pv.skip(j + 1));
        }
        extend_bytes(&mut out, &p[j]);
        j = j + 1;
    }
    proof {
        assert(pv.skip(n as int) =~= Seq::<Seq<u8>>::empty());
    }
    out
}

/// A key with a value occurs at some complete pair.
proof fn lemma_all_values_occurs(pre: Seq<Seq<u8>>, k: Seq<u8>)
    requires
        all_values(pre, k).len() > 0,
    ensures
        exists|u: int| 0 <= u && u + 1 < pre.len() && u % 2 == 0 && #[trigger] pre[u] == k,
    decreases pre.len(),
{
    if pre.len() < 2 {
    } else if pre[0] == k {
        assert(0 <= 0int && 0int + 1 < pre.len() && 0int % 2 == 0 && pre[0int] == k);
    } else {
        lemma_all_values_occurs(pre.skip(2), k);
        let u = choose|u: int|
            0 <= u && u + 1 < pre.skip(2).len() && u % 2 == 0 && #[trigger] pre.skip(2)[u] == k;
        assert(pre[u + 2] == pre.skip(2)[u]);
        assert(0 <= u + 2 && u + 2 + 1 < pre.len() && (u + 2) % 2 == 0 && pre[u + 2] == k);
    }
}

/// A key at a complete pair carries at least one value.
proof fn lemma_value_at_occurrence(pre: Seq<Seq<u8>>, u: int)
    requires
        0 <= u,
        u + 1 < pre.len(),
        u % 2 == 0,
    ensures
        all_values(pre, pre[u]).len() >= 1,
    decreases u,
{
    if u == 0 {
    } else {
        lemma_value_at_occurrence(pre.skip(2), u - 2);
        assert(pre.skip(2)[u - 2] == pre[u]);
    }
}

/// Whether some key carries more than one value.
fn find_duplicate(p: &Vec<Vec<u8>>, upto: usize) -> (r: bool)
    requires
        upto <= p@.len(),
    ensures
        r == has_duplicate(p.deep_view().take(upto as int)),
{
    let ghost pre = p.deep_view().take(upto as int);
    proof {
        lemma_bytes_deep(p);
    }
    let mut j: usize = 0;
    while j + 1 < upto
        invariant
            j % 2 == 0,
            j <= upto <= p@.len(),
            pre == p.deep_view().take(upto as int),
            pre.len() == upto,
            forall|u: int| 0 <= u < p@.len() ==> #[trigger] p.deep_view()[u] == p@[u]@,
            forall|u: int|
                0 <= u < j && u % 2 == 0 && u + 1 < upto ==> all_values(
                    pre,
                    #[trigger] pre[u],
                ).len() <= 1,
        decreases upto - j,
    {
        let c = count_values(p, upto, &p[j]);
        if c > 1 {
            proof {
                assert(pre[j as int] == p@[j as int]@);
                assert(all_values(pre, pre[j as int]).len() > 1);
            }
            return true;
        }
        proof {
            assert(pre[j as int] == p@[j as int]@);
        }
        j = j + 2;
    }
    proof {
        if has_duplicate(pre) {
            let k = choose|k: Seq<u8>| (#[trigger] all_values(pre, k)).len() > 1;
            lemma_all_values_occurs(pre, k);
            let u = choose|u: int|
                0 <= u && u + 1 < pre.len() && u % 2 == 0 && #[trigger] pre[u] == k;
            assert(all_values(pre, pre[u]).len() <= 1);
        }
    }
    false
}

/// Whether a leftover key has an even first byte.
fn find_unrecognized_even(p: &Vec<Vec<u8>>, upto: usize) -> (r: bool)
    requires
        upto <= p@.len(),
    ensures
        r == has_unrecognized_even(p.deep_view().take(upto as int)),
{
    let ghost pre = p.deep_view().take(upto as int);
    proof {
        lemma_bytes_deep(p);
    }
    let mut j: usize = 0;
    while j + 1 < upto
        invariant
            j % 2 == 0,
            j <= upto <= p@.len(),
            pre == p.deep_view().take(upto as int),
            pre.len() == upto,
            forall|u: int| 0 <= u < p@.len() ==> #[trigger] p.deep_view()[u] == p@[u]@,
            forall|u: int|
                0 <= u < j && u % 2 == 0 && u + 1 < upto ==> !(remaining_count(
                    pre,
                    #[trigger] pre[u],
                ) > 0 && pre[u].len() > 0 && pre[u][0] % 2 == 0),
        decreases upto - j,
    {
        proof {
            assert(pre[j as int] == p@[j as int]@);
        }
        let key = &p[j];
        if key.len() > 0 && key[0] % 2 == 0 {
            if is_tag(key, METADATA_TAG) {
                // metadata is taken out entirely; nothing remains of it
            } else if is_tag(key, CONTENT_TYPE_TAG) || is_tag(key, POINTER_TAG) || is_tag(
                key,
                PARENT_TAG,
            ) || is_tag(key, METAPROTOCOL_TAG) || is_tag(key, CONTENT_ENCODING_TAG) {
                let c = count_values(p, upto, key);
                if c > 1 {
                    proof {
                        assert(remaining_count(pre, pre[j as int]) > 0);
                        assert(pre[j as int].len() > 0 && pre[j as int][0] % 2 == 0);
                    }
                    return true;
                }
            } else {
                proof {
                    lemma_value_at_occurrence(pre, j as int);
                    assert(!is_single_removed_tag(pre[j as int]));
                    assert(pre[j as int] != tag1(METADATA_TAG));
                    assert(remaining_count(pre, pre[j as int]) > 0);
                }
                return true;
            }
        }
        j = j + 2;
    }
    proof {
        if has_unrecognized_even(pre) {
            let k = choose|k: Seq<u8>|
                #[trigger] remaining_count(pre, k) > 0 && k.len() > 0 && k[0] % 2 == 0;
            assert(all_values(pre, k).len() > 0);
            lemma_all_values_occurs(pre, k);
            let u = choose|u: int|
                0 <= u && u + 1 < pre.len() && u % 2 == 0 && #[trigger] pre[u] == k;
            assert(!(remaining_count(pre, pre[u]) > 0 && pre[u].len() > 0 && pre[u][0] % 2 == 0));
        }
    }
    false
}

/// One envelope whose payload has been decoded into an inscription.
#[derive(Debug)]
pub struct ParsedEnvelope {
    pub input: usize,
    pub offset: usize,
    pub payload: Inscription,
    pub pushnum: bool,
    pub stutter: bool,
}

/// Spec-level shape of a parsed envelope.
pub ghost struct ParsedEnvelopeV {
    pub input: int,
    pub offset: int,
    pub payload: InscriptionV,
    pub pushnum: bool,
    pub stutter: bool,
}

impl View for ParsedEnvelope {
    type V = ParsedEnvelopeV;

    open spec fn view(&self) -> ParsedEnvelopeV {
        ParsedEnvelopeV {
            input: self.input as int,
            offset: self.offset as int,
            payload: self.payload@,
            pushnum: self.pushnum,
            stutter: self.stutter,
        }
    }
}

impl DeepView for ParsedEnvelope {
    type V = ParsedEnvelopeV;

    open spec fn deep_view(&self) -> ParsedEnvelopeV {
        self.view()
    }
}

/// The parsed form of one raw envelope.
pub open spec fn parse_envelope_spec(e: RawEnvelopeV) -> ParsedEnvelopeV {
    ParsedEnvelopeV {
        input: e.input,
        offset: e.offset,
        payload: inscription_of(e.payload),
        pushnum: e.pushnum,
        stutter: e.stutter,
    }
}

impl ParsedEnvelope {
    /// Decodes a raw envelope's payload into an inscription. Total: any
    /// payload yields an inscription, flags marking the irregular ones.
    pub fn from_raw(envelope: RawEnvelope) -> (r: ParsedEnvelope)
        ensures
            r@ == parse_envelope_spec(envelope@),
    {
        let p = envelope.payload;
        let ghost pv = p.deep_view();
        proof {
            lemma_bytes_deep(&p);
        }
        let b = find_body_index(&p);
        let upto: usize = match b {
            Some(i) => i,
            None => p.len(),
        };
        proof {
            assert(pv.take(upto as int) == payload_prefix(pv));
        }
        let content_encoding = first_tag_value(&p, upto, CONTENT_ENCODING_TAG);
        let content_type = first_tag_value(&p, upto, CONTENT_TYPE_TAG);
        let metaprotocol = first_tag_value(&p, upto, METAPROTOCOL_TAG);
        let parent = first_tag_value(&p, upto, PARENT_TAG);
        let pointer = first_tag_value(&p, upto, POINTER_TAG);
        let mut meta_tag: Vec<u8> = Vec::new();
        meta_tag.push(METADATA_TAG);
        proof {
            assert(meta_tag@ =~= tag1(METADATA_TAG));
        }
        let meta_count = count_values(&p, upto, &meta_tag);
        let metadata = if meta_count == 0 {
            None
        } else {
            Some(concat_tag_values(&p, upto, METADATA_TAG))
        };
        let duplicate_field = find_duplicate(&p, upto);
        let incomplete_field = upto % 2 == 1;
        let unrecognized_even_field = find_unrecognized_even(&p, upto);
        let total = p.len();
        proof {
            match b {
                Some(i) => {
                    assert(i < total);
                },
                None => {},
            }
        }
        let body = match b {
            Some(i) => Some(concat_from(&p, i + 1)),
            None => None,
        };
        ParsedEnvelope {
            input: envelope.input,
            offset: envelope.offset,
            payload: Inscription {
                body,
                content_encoding,
                content_type,
                duplicate_field,
                incomplete_field,
                metadata,
                metaprotocol,
                parent,
                pointer,
                unrecognized_even_field,
            },
            pushnum: envelope.pushnum,
            stutter: envelope.stutter,
        }
    }

    /// Parses every envelope of one tapscript.
    pub fn from_tapscript(tapscript: &[u8], input: usize) -> (r: Vec<ParsedEnvelope>)
        ensures
            r.deep_view() == tapscript_envelopes(tapscript@, input as int).map_values(
                |e: RawEnvelopeV| parse_envelope_spec(e),
            ),
    {
        let raw = RawEnvelope::from_tapscript(tapscript, input);
        let ghost rv = raw.deep_view();
        let mut out: Vec<ParsedEnvelope> = Vec::new();
        let mut i: usize = 0;
        let n = raw.len();
        let mut rest = raw;
        // consume from the front to move each envelope out
        let ghost target = rv.map_values(|e: RawEnvelopeV| parse_envelope_spec(e));
        while rest.len() != 0
            invariant
                out@.len() + rest@.len() == rv.len(),
                target == rv.map_values(|e: RawEnvelopeV| parse_envelope_spec(e)),
                forall|j: int|
                    0 <= j < rest@.len() ==> #[trigger] rest@[j].deep_view() == rv[out@.len() + j],
                forall|j: int|
                    0 <= j < out@.len() ==> #[trigger] out@[j].deep_view() == target[j],
            decreases rest@.len(),
        {
            let ghost done = out@.len();
            let e = rest.remove(0);
            proof {
                assert(e.deep_view() == rv[done as int]);
            }
            let parsed = Self::from_raw(e);
            out.push(parsed);
        }
        proof {
            assert(out.deep_view() =~= target);
        }
        out
    }
}

/// A stream without the protocol marker yields no envelope: every completed
/// envelope passes through the marker push.
pub proof fn lemma_scan_no_marker(
    instrs: Seq<InstrV>,
    i: int,
    stuttered: bool,
    input: int,
    acc: Seq<RawEnvelopeV>,
)
    requires
        0 <= i,
        forall|t: int| 0 <= t < instrs.len() ==> !is_push_of(#[trigger] instrs[t], protocol_id()),
    ensures
        scan_envelopes(instrs, i, stuttered, input, acc) == acc,
    decreases instrs.len() - i,
{
    if i < instrs.len() {
        if is_empty_push(instrs[i]) {
            let c = candidate_scan(instrs, i + 1);
            assert(c.2 is None);
            lemma_candidate_bounds(instrs, i + 1);
            lemma_scan_no_marker(instrs, c.0, c.1, input, acc);
        } else {
            lemma_scan_no_marker(instrs, i + 1, stuttered, input, acc);
        }
    }
}

/// Every push a script tokenizes to is a contiguous run of the script bytes.
pub proof fn lemma_tokenize_pushes_are_subranges(s: Seq<u8>)
    ensures
        tokenize_spec(s) matches Some(instrs) ==> forall|t: int|
            0 <= t < instrs.len() ==> (#[trigger] instrs[t] matches InstrV::Push(d) ==> exists|
                a: int,
            |
                0 <= a && a + d.len() <= s.len() && d == #[trigger] s.subrange(a, a + d.len() as int)),
    decreases s.len(),
{
    if s.len() == 0 || tokenize_spec(s) is None {
    } else {
        let op = s[0];
        let instrs = tokenize_spec(s).unwrap();
        if op <= crate::ord::script::OP_PUSHDATA4 {
            let header = crate::ord::script::push_header_len(op);
            let l = crate::ord::script::push_data_len(s, 0);
            let tail = s.skip(header + l);
            lemma_tokenize_pushes_are_subranges(tail);
            let rest = tokenize_spec(tail).unwrap();
            assert forall|t: int| 0 <= t < instrs.len() implies (#[trigger] instrs[t] matches
                InstrV::Push(d) ==> exists|a: int|
                    0 <= a && a + d.len() <= s.len() && d == #[trigger] s.subrange(a, a + d.len() as int)) by {
                if t == 0 {
                    match instrs[t] {
                        InstrV::Push(d) => {
                            assert(d == s.subrange(header, header + l));
                            assert(0 <= header && header + d.len() <= s.len() && d == s.subrange(
                                header,
                                header + d.len() as int,
                            ));
                        },
                        InstrV::Op(_) => {},
                    }
                } else {
                    assert(instrs[t] == rest[t - 1]);
                    match instrs[t] {
                        InstrV::Push(d) => {
                            let a = choose|a: int|
                                0 <= a && a + d.len() <= tail.len() && d == #[trigger] tail.subrange(
                                    a,
                                    a + d.len() as int,
                                );
                            assert(tail.subrange(a, a + d.len() as int) =~= s.subrange(
                                header + l + a,
                                header + l + a + d.len() as int,
                            ));
                            assert(0 <= header + l + a && header + l + a + d.len() <= s.len() && d
                                == s.subrange(header + l + a, header + l + a + d.len() as int));
                        },
                        InstrV::Op(_) => {},
                    }
                }
            }
        } else {
            let tail = s.skip(1);
            lemma_tokenize_pushes_are_subranges(tail);
            let rest = tokenize_spec(tail).unwrap();
            assert forall|t: int| 0 <= t < instrs.len() implies (#[trigger] instrs[t] matches
                InstrV::Push(d) ==> exists|a: int|
                    0 <= a && a + d.len() <= s.len() && d == #[trigger] s.subrange(a, a + d.len() as int)) by {
                if t > 0 {
                    assert(instrs[t] == rest[t - 1]);
                    match instrs[t] {
                        InstrV::Push(d) => {
                            let a = choose|a: int|
                                0 <= a && a + d.len() <= tail.len() && d == #[trigger] tail.subrange(
                                    a,
                                    a + d.len() as int,
                                );
                            assert(tail.subrange(a, a + d.len() as int) =~= s.subrange(
                                1 + a,
                                1 + a + d.len() as int,
                            ));
                            assert(0 <= 1 + a && 1 + a + d.len() <= s.len() && d == s.subrange(
                                1 + a,
                                1 + a + d.len() as int,
                            ));
                        },
                        InstrV::Op(_) => {},
                    }
                }
            }
        }
    }
}

/// A witness script that nowhere holds the protocol marker as three
/// consecutive bytes yields no envelope at all.
pub proof fn lemma_no_marker_no_envelopes(s: Seq<u8>, input: int)
    requires
        forall|a: int| 0 <= a && a + 3 <= s.len() ==> #[trigger] s.subrange(a, a + 3) != protocol_id(),
    ensures
        tapscript_envelopes(s, input) == Seq::<RawEnvelopeV>::empty(),
{
    match tokenize_spec(s) {
        None => {},
        Some(instrs) => {
            lemma_tokenize_pushes_are_subranges(s);
            assert forall|t: int| 0 <= t < instrs.len() implies !is_push_of(
                #[trigger] instrs[t],
                protocol_id(),
            ) by {
                match instrs[t] {
                    InstrV::Push(d) => {
                        if d == protocol_id() {
                            let a = choose|a: int|
                                0 <= a && a + d.len() <= s.len() && d == #[trigger] s.subrange(
                                    a,
                                    a + d.len() as int,
                                );
                            assert(s.subrange(a, a + 3) == protocol_id());
                        }
                    },
                    InstrV::Op(_) => {},
                }
            }
            lemma_scan_no_marker(instrs, 0, false, input, Seq::empty());
        },
    }
}


/// The bytes a push instruction carries.
pub open spec fn push_data(x: InstrV) -> Seq<u8> {
    match x {
        InstrV::Push(d) => d,
        InstrV::Op(_) => Seq::empty(),
    }
}

/// A run of pushes before the closing opcode reads as exactly those bytes.
proof fn lemma_payload_scan_pushes(instrs: Seq<InstrV>, k: int, m: int, acc: Seq<Seq<u8>>, pn: bool)
    requires
        0 <= k <= m < instrs.len(),
        forall|t: int| k <= t < m ==> (#[trigger] instrs[t]) is Push,
        is_op(instrs[m], OP_ENDIF),
    ensures
        payload_scan(instrs, k, acc, pn) == (
            m + 1,
            Some((acc + instrs.subrange(k, m).map_values(|x: InstrV| push_data(x)), pn)),
        ),
    decreases m - k,
{
    if k == m {
        assert(instrs.subrange(m, m) =~= Seq::<InstrV>::empty());
        assert(acc + instrs.subrange(m, m).map_values(|x: InstrV| push_data(x)) =~= acc);
    } else {
        assert(instrs[k] is Push);
        let d = push_data(instrs[k]);
        lemma_payload_scan_pushes(instrs, k + 1, m, acc.push(d), pn);
        assert(acc.push(d) + instrs.subrange(k + 1, m).map_values(|x: InstrV| push_data(x)) =~= acc
            + instrs.subrange(k, m).map_values(|x: InstrV| push_data(x)));
    }
}

/// Scanning a built reveal script finds exactly one envelope, holding the
/// laid-out payload, unmarked by small-number pushes or stutter.
proof fn lemma_scan_reveal(v: InscriptionV, input: int)
    ensures
        scan_envelopes(reveal_instrs(v), 0, false, input, Seq::empty()) == seq![
            RawEnvelopeV {
                input,
                offset: 0,
                payload: reveal_payload(v),
                pushnum: false,
                stutter: false,
            },
        ],
{
    let instrs = reveal_instrs(v);
    let payload = reveal_payload(v);
    let pm = payload.map_values(|d: Seq<u8>| InstrV::Push(d));
    let n = instrs.len();
    let m = 3 + payload.len();
    assert(n == m + 1);
    assert(instrs[0] == InstrV::Push(Seq::<u8>::empty()));
    assert(instrs[1] == InstrV::Op(OP_IF));
    assert(instrs[2] == InstrV::Push(protocol_id()));
    assert(instrs[m as int] == InstrV::Op(OP_ENDIF));
    assert(forall|t: int| 3 <= t < m ==> (#[trigger] instrs[t]) is Push) by {
        assert(forall|t: int| 3 <= t < m ==> instrs[t] == #[trigger] pm[t - 3]);
    }
    assert(is_empty_push(instrs[0]));
    assert(is_op(instrs[1], OP_IF));
    assert(is_push_of(instrs[2], protocol_id()));
    if 3 <= m - 1 {
    }
    lemma_payload_scan_pushes(instrs, 3, m as int, Seq::empty(), false);
    assert(instrs.subrange(3, m as int).map_values(|x: InstrV| push_data(x)) =~= payload) by {
        assert(forall|t: int| 0 <= t < payload.len() ==> instrs.subrange(3, m as int)[t] == (
        #[trigger] pm[t]));
    }
    assert(Seq::<Seq<u8>>::empty() + payload =~= payload);
    let c = candidate_scan(instrs, 1);
    assert(c.0 == (m + 1) as int && c.2 == Some((payload, false)));
    let env = RawEnvelopeV {
        input,
        offset: 0,
        payload,
        pushnum: false,
        stutter: false,
    };
    assert(Seq::<RawEnvelopeV>::empty().push(env) =~= seq![env]);
    assert(scan_envelopes(instrs, (m + 1) as int, false, input, seq![env]) == seq![env]);
    assert(scan_envelopes(instrs, 0, false, input, Seq::empty()) == seq![env]);
}

/// Values split over two regions when the first holds whole pairs.
proof fn lemma_all_values_append(a: Seq<Seq<u8>>, b: Seq<Seq<u8>>, k: Seq<u8>)
    requires
        a.len() % 2 == 0,
    ensures
        all_values(a + b, k) == all_values(a, k) + all_values(b, k),
    decreases a.len(),
{
    if a.len() == 0 {
        assert(a + b =~= b);
        assert(all_values(a, k) + all_values(b, k) =~= all_values(b, k));
    } else {
        lemma_all_values_append(a.skip(2), b, k);
        assert((a + b).skip(2) =~= a.skip(2) + b);
        assert((a + b)[0] == a[0]);
        assert((a + b)[1] == a[1]);
        assert((a + b).len() >= 2);
        if a[0] == k {
            assert(all_values(a + b, k) == seq![a[1]] + (all_values(a.skip(2), k) + all_values(
                b,
                k,
            )));
            assert(seq![a[1]] + (all_values(a.skip(2), k) + all_values(b, k)) =~= (seq![a[1]]
                + all_values(a.skip(2), k)) + all_values(b, k));
        }
    }
}

/// The first value is the head of all the values.
proof fn lemma_first_value_from_all(pre: Seq<Seq<u8>>, k: Seq<u8>)
    ensures
        first_value(pre, k) == (if all_values(pre, k).len() > 0 {
            Some(all_values(pre, k)[0])
        } else {
            None
        }),
    decreases pre.len(),
{
    if pre.len() < 2 {
    } else if pre[0] == k {
    } else {
        lemma_first_value_from_all(pre.skip(2), k);
    }
}

/// What one optional single field contributes under each key.
proof fn lemma_opt_pair_values(t: u8, o: Option<Seq<u8>>, k: Seq<u8>)
    ensures
        crate::ord::inscription::opt_pair(t, o).len() % 2 == 0,
        all_values(crate::ord::inscription::opt_pair(t, o), k) == (match o {
            Some(x) => if k == tag1(t) {
                seq![x]
            } else {
                Seq::<Seq<u8>>::empty()
            },
            None => Seq::<Seq<u8>>::empty(),
        }),
{
    let p = crate::ord::inscription::opt_pair(t, o);
    match o {
        Some(x) => {
            assert(p.len() == 2);
            assert(p[0] == tag1(t) && p[1] == x);
            assert(p.skip(2) =~= Seq::<Seq<u8>>::empty());
            if p[0] == k {
                assert(seq![p[1]] + all_values(p.skip(2), k) =~= seq![x]);
            } else {
                assert(all_values(p, k) == all_values(p.skip(2), k));
                assert(all_values(p, k) =~= Seq::<Seq<u8>>::empty());
            }
        },
        None => {},
    }
}

/// What the metadata chunks contribute under each key.
proof fn lemma_meta_values(cs: Seq<Seq<u8>>, k: Seq<u8>)
    ensures
        crate::ord::inscription::meta_pairs(cs).len() == 2 * cs.len(),
        all_values(crate::ord::inscription::meta_pairs(cs), k) == (if k == tag1(
            crate::ord::inscription::METADATA_TAG,
        ) {
            cs
        } else {
            Seq::<Seq<u8>>::empty()
        }),
    decreases cs.len(),
{
    let p = crate::ord::inscription::meta_pairs(cs);
    if cs.len() == 0 {
        if k == tag1(crate::ord::inscription::METADATA_TAG) {
            assert(all_values(p, k) =~= cs);
        }
    } else {
        lemma_meta_values(cs.drop_first(), k);
        assert(p[0] == tag1(crate::ord::inscription::METADATA_TAG));
        assert(p[1] == cs[0]);
        assert(p.skip(2) =~= crate::ord::inscription::meta_pairs(cs.drop_first()));
        if k == tag1(crate::ord::inscription::METADATA_TAG) {
            assert(all_values(p, k) == seq![cs[0]] + cs.drop_first());
            assert(seq![cs[0]] + cs.drop_first() =~= cs);
        }
    }
}

/// Splitting at chunk bounds and joining again is the identity.
proof fn lemma_concat_chunks(d: Seq<u8>)
    ensures
        concat_seqs(crate::ord::inscription::chunks520(d)) == d,
    decreases d.len(),
{
    let cs = crate::ord::inscription::chunks520(d);
    if d.len() == 0 {
        assert(concat_seqs(cs) =~= d);
    } else if d.len() <= 520 {
        assert(cs[0] == d);
        assert(cs.drop_first() =~= Seq::<Seq<u8>>::empty());
        assert(concat_seqs(cs.drop_first()) =~= Seq::<u8>::empty());
        assert(concat_seqs(cs) == cs[0] + concat_seqs(cs.drop_first()));
        assert(concat_seqs(cs) =~= d);
    } else {
        lemma_concat_chunks(d.skip(520));
        assert(cs[0] == d.take(520));
        assert(cs.drop_first() =~= crate::ord::inscription::chunks520(d.skip(520)));
        assert(concat_seqs(cs) == d.take(520) + concat_seqs(
            crate::ord::inscription::chunks520(d.skip(520)),
        ));
        assert(d.take(520) + d.skip(520) =~= d);
    }
}

/// Every even position of a region holds a nonempty chunk.
pub open spec fn keys_nonempty(p: Seq<Seq<u8>>) -> bool {
    forall|i: int| 0 <= i < p.len() && i % 2 == 0 ==> (#[trigger] p[i]).len() > 0
}

/// With nonempty keys throughout, no position is a body marker.
proof fn lemma_body_index_none(p: Seq<Seq<u8>>, i: int)
    requires
        keys_nonempty(p),
        0 <= i,
    ensures
        body_index_at(p, i) is None,
    decreases p.len() - i,
{
    if i < p.len() {
        lemma_body_index_none(p, i + 1);
    }
}

/// Stepping over one whole pair shifts the marker search by two.
proof fn lemma_body_index_shift(p: Seq<Seq<u8>>, i: int)
    requires
        2 <= i,
        2 <= p.len(),
    ensures
        body_index_at(p, i) == (match body_index_at(p.skip(2), i - 2) {
            Some(b) => Some(b + 2),
            None => None::<int>,
        }),
    decreases p.len() - i,
{
    if i >= p.len() {
    } else {
        assert(p.skip(2)[i - 2] == p[i]);
        lemma_body_index_shift(p, i + 1);
    }
}

/// The marker search over a field region followed by anything: the first
/// position after the region when the region has whole pairs and nonempty
/// keys.
proof fn lemma_body_index_fields(fr: Seq<Seq<u8>>, rest: Seq<Seq<u8>>)
    requires
        fr.len() % 2 == 0,
        keys_nonempty(fr),
    ensures
        body_index_at(fr + rest, 0) == (match body_index_at(rest, 0) {
            Some(b) => Some(b + fr.len()),
            None => None::<int>,
        }),
    decreases fr.len(),
{
    let p = fr + rest;
    if fr.len() == 0 {
        assert(p =~= rest);
    } else {
        assert(p[0] == fr[0]);
        assert(fr[0].len() > 0);
        assert(body_index_at(p, 0) == body_index_at(p, 1));
        assert(body_index_at(p, 1) == body_index_at(p, 2));
        lemma_body_index_shift(p, 2);
        assert(p.skip(2) =~= fr.skip(2) + rest);
        assert(fr.skip(2).len() % 2 == 0);
        assert(keys_nonempty(fr.skip(2))) by {
            assert(forall|i: int|
                0 <= i < fr.skip(2).len() && i % 2 == 0 ==> (#[trigger] fr.skip(2)[i]).len() > 0)
                by {
                assert(forall|i: int| 0 <= i < fr.skip(2).len() ==> fr.skip(2)[i] == fr[i + 2]);
            }
        }
        lemma_body_index_fields(fr.skip(2), rest);
    }
}

/// What one optional field contributes to the values under `k`.
pub open spec fn opt_contrib(t: u8, o: Option<Seq<u8>>, k: Seq<u8>) -> Seq<Seq<u8>> {
    match o {
        Some(x) => if k == tag1(t) {
            seq![x]
        } else {
            Seq::<Seq<u8>>::empty()
        },
        None => Seq::<Seq<u8>>::empty(),
    }
}

/// The metadata chunks an inscription lays out.
pub open spec fn meta_cs(v: InscriptionV) -> Seq<Seq<u8>> {
    match v.metadata {
        Some(md) => crate::ord::inscription::chunks520(md),
        None => Seq::<Seq<u8>>::empty(),
    }
}

/// The values under any key in a built field region: each single field
/// contributes under its own tag, the metadata chunks under theirs.
proof fn lemma_fields_values(v: InscriptionV, k: Seq<u8>)
    ensures
        crate::ord::inscription::reveal_fields(v).len() % 2 == 0,
        all_values(crate::ord::inscription::reveal_fields(v), k) == opt_contrib(
            CONTENT_TYPE_TAG,
            v.content_type,
            k,
        ) + opt_contrib(CONTENT_ENCODING_TAG, v.content_encoding, k) + opt_contrib(
            METAPROTOCOL_TAG,
            v.metaprotocol,
            k,
        ) + opt_contrib(PARENT_TAG, v.parent, k) + opt_contrib(POINTER_TAG, v.pointer, k) + (if k
            == tag1(METADATA_TAG) {
            meta_cs(v)
        } else {
            Seq::<Seq<u8>>::empty()
        }),
{
    let q1 = crate::ord::inscription::opt_pair(CONTENT_TYPE_TAG, v.content_type);
    let q2 = crate::ord::inscription::opt_pair(CONTENT_ENCODING_TAG, v.content_encoding);
    let q3 = crate::ord::inscription::opt_pair(METAPROTOCOL_TAG, v.metaprotocol);
    let q4 = crate::ord::inscription::opt_pair(PARENT_TAG, v.parent);
    let q5 = crate::ord::inscription::opt_pair(POINTER_TAG, v.pointer);
    let q6 = crate::ord::inscription::meta_pairs(meta_cs(v));
    lemma_opt_pair_values(CONTENT_TYPE_TAG, v.content_type, k);
    lemma_opt_pair_values(CONTENT_ENCODING_TAG, v.content_encoding, k);
    lemma_opt_pair_values(METAPROTOCOL_TAG, v.metaprotocol, k);
    lemma_opt_pair_values(PARENT_TAG, v.parent, k);
    lemma_opt_pair_values(POINTER_TAG, v.pointer, k);
    lemma_meta_values(meta_cs(v), k);
    lemma_all_values_append(q1, q2, k);
    lemma_all_values_append(q1 + q2, q3, k);
    lemma_all_values_append(q1 + q2 + q3, q4, k);
    lemma_all_values_append(q1 + q2 + q3 + q4, q5, k);
    lemma_all_values_append(q1 + q2 + q3 + q4 + q5, q6, k);
    assert(crate::ord::inscription::reveal_fields(v) == q1 + q2 + q3 + q4 + q5 + q6);
}

/// The fixed tags are pairwise distinct keys.
proof fn lemma_tags_distinct()
    ensures
        tag1(CONTENT_TYPE_TAG) != tag1(CONTENT_ENCODING_TAG),
        tag1(CONTENT_TYPE_TAG) != tag1(METAPROTOCOL_TAG),
        tag1(CONTENT_TYPE_TAG) != tag1(PARENT_TAG),
        tag1(CONTENT_TYPE_TAG) != tag1(POINTER_TAG),
        tag1(CONTENT_TYPE_TAG) != tag1(METADATA_TAG),
        tag1(CONTENT_ENCODING_TAG) != tag1(METAPROTOCOL_TAG),
        tag1(CONTENT_ENCODING_TAG) != tag1(PARENT_TAG),
        tag1(CONTENT_ENCODING_TAG) != tag1(POINTER_TAG),
        tag1(CONTENT_ENCODING_TAG) != tag1(METADATA_TAG),
        tag1(METAPROTOCOL_TAG) != tag1(PARENT_TAG),
        tag1(METAPROTOCOL_TAG) != tag1(POINTER_TAG),
        tag1(METAPROTOCOL_TAG) != tag1(METADATA_TAG),
        tag1(PARENT_TAG) != tag1(POINTER_TAG),
        tag1(PARENT_TAG) != tag1(METADATA_TAG),
        tag1(POINTER_TAG) != tag1(METADATA_TAG),
{
    assert(tag1(CONTENT_TYPE_TAG)[0] == 1);
    assert(tag1(POINTER_TAG)[0] == 2);
    assert(tag1(PARENT_TAG)[0] == 3);
    assert(tag1(METADATA_TAG)[0] == 5);
    assert(tag1(METAPROTOCOL_TAG)[0] == 7);
    assert(tag1(CONTENT_ENCODING_TAG)[0] == 9);
}

/// An inscription the builder can lay out so that decoding gives it back:
/// no flag raised and the metadata, if any, fitting one chunk.
pub open spec fn reveal_wf(v: InscriptionV) -> bool {
    &&& !v.duplicate_field
    &&& !v.incomplete_field
    &&& !v.unrecognized_even_field
    &&& (v.metadata matches Some(m) ==> 0 < m.len() <= 520)
}

/// Decoding a built payload gives back the inscription it was built from.
#[verifier::rlimit(100)]
proof fn lemma_decode_reveal(v: InscriptionV)
    requires
        reveal_wf(v),
    ensures
        inscription_of(reveal_payload(v)) == v,
{
    let fr = crate::ord::inscription::reveal_fields(v);
    let p = reveal_payload(v);
    let cs = meta_cs(v);
    lemma_tags_distinct();
    match v.metadata {
        Some(md) => {
            assert(cs == seq![md]);
        },
        None => {
            assert(cs.len() == 0);
        },
    }
    lemma_fields_values(v, tag1(CONTENT_TYPE_TAG));
    lemma_fields_values(v, tag1(CONTENT_ENCODING_TAG));
    lemma_fields_values(v, tag1(METAPROTOCOL_TAG));
    lemma_fields_values(v, tag1(PARENT_TAG));
    lemma_fields_values(v, tag1(POINTER_TAG));
    lemma_fields_values(v, tag1(METADATA_TAG));
    // the field region holds whole pairs with nonempty keys
    assert(fr.len() % 2 == 0) by {
        lemma_fields_values(v, tag1(CONTENT_TYPE_TAG));
    }
    assert(keys_nonempty(fr)) by {
        let q1 = crate::ord::inscription::opt_pair(CONTENT_TYPE_TAG, v.content_type);
        let q2 = crate::ord::inscription::opt_pair(CONTENT_ENCODING_TAG, v.content_encoding);
        let q3 = crate::ord::inscription::opt_pair(METAPROTOCOL_TAG, v.metaprotocol);
        let q4 = crate::ord::inscription::opt_pair(PARENT_TAG, v.parent);
        let q5 = crate::ord::inscription::opt_pair(POINTER_TAG, v.pointer);
        let q6 = crate::ord::inscription::meta_pairs(cs);
        assert(fr == q1 + q2 + q3 + q4 + q5 + q6);
        assert(q1.len() % 2 == 0 && q2.len() % 2 == 0 && q3.len() % 2 == 0 && q4.len() % 2 == 0
            && q5.len() % 2 == 0 && q6.len() % 2 == 0);
        assert(keys_nonempty(q1));
        assert(keys_nonempty(q2));
        assert(keys_nonempty(q3));
        assert(keys_nonempty(q4));
        assert(keys_nonempty(q5));
        assert(keys_nonempty(q6)) by {
            match v.metadata {
                Some(md) => {
                    assert(cs == seq![md]);
                    assert(cs.drop_first() =~= Seq::<Seq<u8>>::empty());
                    assert(q6 == seq![tag1(METADATA_TAG), cs[0]] + crate::ord::inscription::meta_pairs(
                        cs.drop_first(),
                    ));
                    assert(q6 =~= seq![tag1(METADATA_TAG), md]);
                },
                None => {
                    assert(q6 =~= Seq::<Seq<u8>>::empty());
                },
            }
        }
        assert forall|i: int| 0 <= i < fr.len() && i % 2 == 0 implies (#[trigger] fr[i]).len()
            > 0 by {
            if i < q1.len() {
                assert(fr[i] == q1[i]);
            } else if i < q1.len() + q2.len() {
                assert(fr[i] == q2[i - q1.len()]);
            } else if i < q1.len() + q2.len() + q3.len() {
                assert(fr[i] == q3[i - q1.len() - q2.len()]);
            } else if i < q1.len() + q2.len() + q3.len() + q4.len() {
                assert(fr[i] == q4[i - q1.len() - q2.len() - q3.len()]);
            } else if i < q1.len() + q2.len() + q3.len() + q4.len() + q5.len() {
                assert(fr[i] == q5[i - q1.len() - q2.len() - q3.len() - q4.len()]);
            } else {
                assert(fr[i] == q6[i - q1.len() - q2.len() - q3.len() - q4.len() - q5.len()]);
            }
        }
    }
    // the body marker sits right after the field region, or nowhere
    match v.body {
        Some(b) => {
            let rest = seq![Seq::<u8>::empty()] + crate::ord::inscription::chunks520(b);
            lemma_body_index_fields(fr, rest);
            assert(rest[0].len() == 0);
            assert(body_index_at(rest, 0) == Some(0int));
            assert(body_index(p) == Some(fr.len() as int));
            assert(p.take(fr.len() as int) =~= fr);
            assert(payload_prefix(p) == fr);
            assert(p.skip(fr.len() as int + 1) =~= crate::ord::inscription::chunks520(b));
            lemma_concat_chunks(b);
            assert(inscription_of(p).body == Some(b));
        },
        None => {
            assert(p =~= fr);
            lemma_body_index_none(fr, 0);
            assert(body_index(p) is None);
            assert(payload_prefix(p) == fr);
            assert(inscription_of(p).body is None);
        },
    }
    // each single field reads back as itself
    lemma_first_value_from_all(fr, tag1(CONTENT_TYPE_TAG));
    lemma_first_value_from_all(fr, tag1(CONTENT_ENCODING_TAG));
    lemma_first_value_from_all(fr, tag1(METAPROTOCOL_TAG));
    lemma_first_value_from_all(fr, tag1(PARENT_TAG));
    lemma_first_value_from_all(fr, tag1(POINTER_TAG));
    assert(inscription_of(p).content_type == v.content_type);
    assert(inscription_of(p).content_encoding == v.content_encoding);
    assert(inscription_of(p).metaprotocol == v.metaprotocol);
    assert(inscription_of(p).parent == v.parent);
    assert(inscription_of(p).pointer == v.pointer);
    // the metadata reads back as the joined chunks
    assert(all_values(fr, tag1(METADATA_TAG)) == cs);
    match v.metadata {
        Some(md) => {
            assert(concat_seqs(cs) == md + concat_seqs(cs.drop_first()));
            assert(cs.drop_first() =~= Seq::<Seq<u8>>::empty());
            assert(concat_seqs(cs) =~= md);
            assert(inscription_of(p).metadata == Some(md));
        },
        None => {
            assert(inscription_of(p).metadata is None);
        },
    }
    // no key carries two values, so no flag is raised
    assert forall|k: Seq<u8>| (#[trigger] all_values(fr, k)).len() <= 1 by {
        lemma_fields_values(v, k);
    }
    assert(!has_duplicate(fr));
    assert(inscription_of(p).incomplete_field == false);
    assert forall|k: Seq<u8>| !(#[trigger] remaining_count(fr, k) > 0 && k.len() > 0 && k[0] % 2
        == 0) by {
        lemma_fields_values(v, k);
        if k == tag1(METADATA_TAG) {
        } else if is_single_removed_tag(k) {
        } else {
            assert(all_values(fr, k).len() == 0);
        }
    }
    assert(!has_unrecognized_even(fr));
    assert(inscription_of(p) == v);
}

/// An inscription whose single-push fields the byte encoder accepts.
pub open spec fn reveal_encodable(v: InscriptionV) -> bool {
    &&& (v.content_type matches Some(x) ==> x.len() <= 0xffff_ffff)
    &&& (v.content_encoding matches Some(x) ==> x.len() <= 0xffff_ffff)
    &&& (v.metaprotocol matches Some(x) ==> x.len() <= 0xffff_ffff)
    &&& (v.parent matches Some(x) ==> x.len() <= 0xffff_ffff)
    &&& (v.pointer matches Some(x) ==> x.len() <= 0xffff_ffff)
}

/// Every chunk stays within the chunk size.
proof fn lemma_chunks_bounded(d: Seq<u8>)
    ensures
        forall|j: int|
            0 <= j < crate::ord::inscription::chunks520(d).len() ==> (
            #[trigger] crate::ord::inscription::chunks520(d)[j]).len() <= 520,
    decreases d.len(),
{
    let cs = crate::ord::inscription::chunks520(d);
    if d.len() == 0 {
    } else if d.len() <= 520 {
        assert(cs[0] == d);
        assert forall|j: int| 0 <= j < cs.len() implies (#[trigger] cs[j]).len() <= 520 by {
            assert(j == 0);
        }
    } else {
        lemma_chunks_bounded(d.skip(520));
        assert(cs[0] == d.take(520));
        assert(cs[0].len() <= 520);
        assert forall|j: int| 0 <= j < cs.len() implies (#[trigger] cs[j]).len() <= 520 by {
            if j >= 1 {
                assert(cs[j] == crate::ord::inscription::chunks520(d.skip(520))[j - 1]);
            }
        }
    }
}

/// Every payload chunk of a well-formed inscription fits the encoder.
proof fn lemma_payload_items_bounded(v: InscriptionV)
    requires
        reveal_wf(v),
        reveal_encodable(v),
    ensures
        forall|j: int|
            0 <= j < reveal_payload(v).len() ==> (#[trigger] reveal_payload(v)[j]).len()
                <= 0xffff_ffff,
{
    let p = reveal_payload(v);
    let fr = crate::ord::inscription::reveal_fields(v);
    let q1 = crate::ord::inscription::opt_pair(CONTENT_TYPE_TAG, v.content_type);
    let q2 = crate::ord::inscription::opt_pair(CONTENT_ENCODING_TAG, v.content_encoding);
    let q3 = crate::ord::inscription::opt_pair(METAPROTOCOL_TAG, v.metaprotocol);
    let q4 = crate::ord::inscription::opt_pair(PARENT_TAG, v.parent);
    let q5 = crate::ord::inscription::opt_pair(POINTER_TAG, v.pointer);
    let q6 = crate::ord::inscription::meta_pairs(meta_cs(v));
    let q7 = match v.body {
        Some(bd) => seq![Seq::<u8>::empty()] + crate::ord::inscription::chunks520(bd),
        None => Seq::<Seq<u8>>::empty(),
    };
    assert(fr == q1 + q2 + q3 + q4 + q5 + q6);
    assert(p == fr + q7);
    match v.metadata {
        Some(md) => {
            let cs = meta_cs(v);
            assert(cs == seq![md]);
            assert(cs.drop_first() =~= Seq::<Seq<u8>>::empty());
            assert(q6 == seq![tag1(METADATA_TAG), cs[0]] + crate::ord::inscription::meta_pairs(
                cs.drop_first(),
            ));
            assert(q6 =~= seq![tag1(METADATA_TAG), md]);
        },
        None => {},
    }
    match v.body {
        Some(bd) => {
            lemma_chunks_bounded(bd);
        },
        None => {},
    }
    assert forall|j: int| 0 <= j < p.len() implies (#[trigger] p[j]).len() <= 0xffff_ffff by {
        if j < q1.len() {
            assert(p[j] == q1[j]);
        } else if j < q1.len() + q2.len() {
            assert(p[j] == q2[j - q1.len()]);
        } else if j < q1.len() + q2.len() + q3.len() {
            assert(p[j] == q3[j - q1.len() - q2.len()]);
        } else if j < q1.len() + q2.len() + q3.len() + q4.len() {
            assert(p[j] == q4[j - q1.len() - q2.len() - q3.len()]);
        } else if j < q1.len() + q2.len() + q3.len() + q4.len() + q5.len() {
            assert(p[j] == q5[j - q1.len() - q2.len() - q3.len() - q4.len()]);
        } else if j < fr.len() {
            assert(p[j] == q6[j - q1.len() - q2.len() - q3.len() - q4.len() - q5.len()]);
        } else {
            assert(p[j] == q7[j - fr.len()]);
        }
    }
}

/// Round trip: an inscription built into a reveal script and parsed back
/// through tokenizing, envelope scanning and decoding is recovered exactly,
/// as the sole envelope of the script, provided no flag is raised and each
/// field fits a single chunk.
pub proof fn lemma_reveal_round_trip(v: InscriptionV, input: int)
    requires
        reveal_wf(v),
        reveal_encodable(v),
    ensures
        tapscript_envelopes(
            crate::ord::script::script_encoding(reveal_instrs(v)),
            input,
        ).map_values(|e: RawEnvelopeV| parse_envelope_spec(e)) == seq![
            ParsedEnvelopeV { input, offset: 0, payload: v, pushnum: false, stutter: false },
        ],
{
    let instrs = reveal_instrs(v);
    let payload = reveal_payload(v);
    let pm = payload.map_values(|d: Seq<u8>| InstrV::Push(d));
    lemma_payload_items_bounded(v);
    assert(forall|t: int|
        0 <= t < instrs.len() ==> crate::ord::script::instr_encodable(#[trigger] instrs[t])) by {
        assert(forall|t: int| 3 <= t < 3 + payload.len() ==> instrs[t] == #[trigger] pm[t - 3]);
        assert(instrs[0] == InstrV::Push(Seq::<u8>::empty()));
        assert(instrs[1] == InstrV::Op(OP_IF));
        assert(instrs[2] == InstrV::Push(protocol_id()));
        assert(instrs[instrs.len() - 1] == InstrV::Op(OP_ENDIF));
    }
    crate::ord::script::lemma_tokenize_script_encoding(instrs);
    lemma_scan_reveal(v, input);
    lemma_decode_reveal(v);
    let env = RawEnvelopeV { input, offset: 0, payload, pushnum: false, stutter: false };
    assert(tapscript_envelopes(crate::ord::script::script_encoding(instrs), input) == seq![env]);
    assert(seq![env].map_values(|e: RawEnvelopeV| parse_envelope_spec(e)) =~= seq![
        parse_envelope_spec(env),
    ]);
    assert(parse_envelope_spec(env) == ParsedEnvelopeV {
        input,
        offset: 0,
        payload: v,
        pushnum: false,
        stutter: false,
    });
}

} // verus!
