use vstd::prelude::*;
use vstd::slice::{slice_subrange, slice_to_vec};

verus! {

/// Highest opcode that denotes a direct data push of its own value in bytes.
pub const OP_PUSHBYTES_MAX: u8 = 0x4b;

/// Push whose one-byte length prefix follows the opcode.
pub const OP_PUSHDATA1: u8 = 0x4c;

/// Push whose two-byte little-endian length prefix follows the opcode.
pub const OP_PUSHDATA2: u8 = 0x4d;

/// Push whose four-byte little-endian length prefix follows the opcode.
pub const OP_PUSHDATA4: u8 = 0x4e;

/// One tokenized script instruction: a data push or a plain opcode.
#[derive(Clone, Debug)]
pub enum Instr {
    Push(Vec<u8>),
    Op(u8),
}

/// Spec-level shape of one instruction.
pub ghost enum InstrV {
    Push(Seq<u8>),
    Op(u8),
}

impl View for Instr {
    type V = InstrV;

    open spec fn view(&self) -> InstrV {
        match self {
            Instr::Push(d) => InstrV::Push(d@),
            Instr::Op(o) => InstrV::Op(*o),
        }
    }
}

impl DeepView for Instr {
    type V = InstrV;

    open spec fn deep_view(&self) -> InstrV {
        self.view()
    }
}

/// Little-endian value of the two bytes at `i`.
pub open spec fn le16_at(s: Seq<u8>, i: int) -> int {
    s[i] + 256 * s[i + 1]
}

/// Little-endian value of the four bytes at `i`.
pub open spec fn le32_at(s: Seq<u8>, i: int) -> int {
    s[i] + 256 * s[i + 1] + 65536 * s[i + 2] + 16777216 * s[i + 3]
}

/// Header length (opcode plus length prefix) of a push beginning with `op`.
pub open spec fn push_header_len(op: u8) -> int {
    if op <= OP_PUSHBYTES_MAX {
        1
    } else if op == OP_PUSHDATA1 {
        2
    } else if op == OP_PUSHDATA2 {
        3
    } else {
        5
    }
}

/// Data length of a push beginning at `i`, read from the opcode or from the
/// length prefix behind it; meaningful only when the prefix is in range.
pub open spec fn push_data_len(s: Seq<u8>, i: int) -> int {
    let op = s[i];
    if op <= OP_PUSHBYTES_MAX {
        op as int
    } else if op == OP_PUSHDATA1 {
        s[i + 1] as int
    } else if op == OP_PUSHDATA2 {
        le16_at(s, i + 1)
    } else {
        le32_at(s, i + 1)
    }
}

/// Tokenization of a script into instructions, `None` on a push that runs
/// past the end of the script: the opcodes through `0x4b` push their own
/// value in bytes, the three longer pushes carry a little-endian length
/// prefix, and every other byte is a plain opcode.
pub open spec fn tokenize_spec(s: Seq<u8>) -> Option<Seq<InstrV>>
    decreases s.len(),
{
    if s.len() == 0 {
        Some(Seq::empty())
    } else {
        let op = s[0];
        if op <= OP_PUSHDATA4 {
            let header = push_header_len(op);
            if s.len() < header {
                None
            } else {
                let l = push_data_len(s, 0);
                if s.len() < header + l {
                    None
                } else {
                    match tokenize_spec(s.skip(header + l)) {
                        Some(rest) => Some(
                            seq![InstrV::Push(s.subrange(header, header + l))] + rest,
                        ),
                        None => None,
                    }
                }
            }
        } else {
            match tokenize_spec(s.skip(1)) {
                Some(rest) => Some(seq![InstrV::Op(op)] + rest),
                None => None,
            }
        }
    }
}

/// The byte encoding of one data push: the shortest length prefix that fits.
pub open spec fn push_encoding(d: Seq<u8>) -> Seq<u8> {
    if d.len() <= OP_PUSHBYTES_MAX {
        seq![d.len() as u8] + d
    } else if d.len() <= 0xff {
        seq![OP_PUSHDATA1, d.len() as u8] + d
    } else if d.len() <= 0xffff {
        seq![OP_PUSHDATA2, (d.len() % 256) as u8, (d.len() / 256) as u8] + d
    } else {
        seq![
            OP_PUSHDATA4,
            (d.len() % 256) as u8,
            ((d.len() / 256) % 256) as u8,
            ((d.len() / 65536) % 256) as u8,
            ((d.len() / 16777216) % 256) as u8,
        ] + d
    }
}

/// The byte encoding of one instruction.
pub open spec fn instr_encoding(x: InstrV) -> Seq<u8> {
    match x {
        InstrV::Push(d) => push_encoding(d),
        InstrV::Op(o) => seq![o],
    }
}

/// The byte encoding of an instruction sequence.
pub open spec fn script_encoding(xs: Seq<InstrV>) -> Seq<u8>
    decreases xs.len(),
{
    if xs.len() == 0 {
        Seq::empty()
    } else {
        instr_encoding(xs[0]) + script_encoding(xs.drop_first())
    }
}

/// An instruction whose encoding reads back as itself: push data that fits a
/// four-byte length, opcodes beyond the push range.
pub open spec fn instr_encodable(x: InstrV) -> bool {
    match x {
        InstrV::Push(d) => d.len() <= 0xffff_ffff,
        InstrV::Op(o) => o > OP_PUSHDATA4,
    }
}

/// An encoded push followed by anything tokenizes to that push before the
/// rest.
proof fn lemma_tokenize_push_encoding(d: Seq<u8>, rest: Seq<u8>)
    requires
        d.len() <= 0xffff_ffff,
    ensures
        tokenize_spec(push_encoding(d) + rest) == match tokenize_spec(rest) {
            Some(r) => Some(seq![InstrV::Push(d)] + r),
            None => None::<Seq<InstrV>>,
        },
{
    let s = push_encoding(d) + rest;
    let len = d.len() as int;
    let e = push_encoding(d);
    assert(forall|j: int| 0 <= j < e.len() ==> #[trigger] s[j] == e[j]);
    if d.len() <= OP_PUSHBYTES_MAX {
        assert(s[0] == len as u8);
        assert(push_header_len(s[0]) == 1);
        assert(push_data_len(s, 0) == len);
        assert(s.subrange(1, 1 + len) =~= d);
        assert(s.skip(1 + len) =~= rest);
    } else if d.len() <= 0xff {
        assert(s[0] == OP_PUSHDATA1);
        assert(s[1] == len as u8);
        assert(push_data_len(s, 0) == len);
        assert(s.subrange(2, 2 + len) =~= d);
        assert(s.skip(2 + len) =~= rest);
    } else if d.len() <= 0xffff {
        assert(s[0] == OP_PUSHDATA2);
        assert(s[1] == (len % 256) as u8 && s[2] == (len / 256) as u8);
        vstd::arithmetic::div_mod::lemma_fundamental_div_mod(len, 256);
        assert(len / 256 <= 0xff);
        assert(le16_at(s, 1) == len);
        assert(push_data_len(s, 0) == len);
        assert(s.subrange(3, 3 + len) =~= d);
        assert(s.skip(3 + len) =~= rest);
    } else {
        assert(s[0] == OP_PUSHDATA4);
        assert(s[1] == (len % 256) as u8);
        assert(s[2] == ((len / 256) % 256) as u8);
        assert(s[3] == ((len / 65536) % 256) as u8);
        assert(s[4] == ((len / 16777216) % 256) as u8);
        vstd::arithmetic::div_mod::lemma_fundamental_div_mod(len, 256);
        vstd::arithmetic::div_mod::lemma_fundamental_div_mod(len / 256, 256);
        vstd::arithmetic::div_mod::lemma_fundamental_div_mod(len / 65536, 256);
        vstd::arithmetic::div_mod::lemma_div_denominator(len, 256, 256);
        vstd::arithmetic::div_mod::lemma_div_denominator(len, 65536, 256);
        assert(65536 == 256 * 256 && 16777216 == 65536 * 256) by (nonlinear_arith);
        assert((len / 256) / 256 == len / 65536);
        assert((len / 65536) / 256 == len / 16777216);
        assert(len / 16777216 <= 0xff);
        assert(len / 16777216 >= 0);
        vstd::arithmetic::div_mod::lemma_small_mod((len / 16777216) as nat, 256);
        assert(le32_at(s, 1) == len);
        assert(push_data_len(s, 0) == len);
        assert(s.subrange(5, 5 + len) =~= d);
        assert(s.skip(5 + len) =~= rest);
    }
}

/// Encoding then tokenizing gives back the instructions.
pub proof fn lemma_tokenize_script_encoding(xs: Seq<InstrV>)
    requires
        forall|t: int| 0 <= t < xs.len() ==> instr_encodable(#[trigger] xs[t]),
    ensures
        tokenize_spec(script_encoding(xs)) == Some(xs),
    decreases xs.len(),
{
    if xs.len() == 0 {
        assert(script_encoding(xs) =~= Seq::<u8>::empty());
    } else {
        let tail = xs.drop_first();
        lemma_tokenize_script_encoding(tail);
        let enc_tail = script_encoding(tail);
        match xs[0] {
            InstrV::Push(d) => {
                lemma_tokenize_push_encoding(d, enc_tail);
            },
            InstrV::Op(o) => {
                let s = script_encoding(xs);
                assert(s =~= seq![o] + enc_tail);
                assert(s[0] == o);
                assert(s.skip(1) =~= enc_tail);
            },
        }
        assert(seq![xs[0]] + tail =~= xs);
    }
}

/// Appends the encoding of one push.
fn encode_push(out: &mut Vec<u8>, data: &Vec<u8>)
    requires
        data@.len() <= 0xffff_ffff,
    ensures
        final(out)@ == old(out)@ + push_encoding(data@),
{
    let ghost base = out@;
    let n = data.len();
    if n <= 0x4b {
        out.push(n as u8);
    } else if n <= 0xff {
        out.push(OP_PUSHDATA1);
        out.push(n as u8);
    } else if n <= 0xffff {
        out.push(OP_PUSHDATA2);
        out.push((n % 256) as u8);
        out.push((n / 256) as u8);
    } else {
        out.push(OP_PUSHDATA4);
        out.push((n % 256) as u8);
        out.push(((n / 256) % 256) as u8);
        out.push(((n / 65536) % 256) as u8);
        out.push(((n / 16777216) % 256) as u8);
    }
    let ghost with_header = out@;
    proof {
        assert(with_header =~= base + push_encoding(data@).take(
            push_encoding(data@).len() - n,
        ));
    }
    let mut q: usize = 0;
    while q < n
        invariant
            q <= n,
            n == data@.len(),
            out@ == with_header + data@.take(q as int),
        decreases n - q,
    {
        out.push(data[q]);
        proof {
            assert(out@ =~= with_header + data@.take(q + 1));
        }
        q = q + 1;
    }
    proof {
        assert(out@ =~= base + push_encoding(data@));
    }
}

/// Serializes instructions into script bytes.
pub fn serialize_instructions(instrs: &Vec<Instr>) -> (r: Vec<u8>)
    requires
        forall|t: int|
            0 <= t < instrs@.len() ==> instr_encodable(#[trigger] instrs.deep_view()[t]),
    ensures
        r@ == script_encoding(instrs.deep_view()),
{
    let ghost iv = instrs.deep_view();
    let n = instrs.len();
    let mut out: Vec<u8> = Vec::new();
    let mut t: usize = 0;
    proof {
        assert(iv.skip(0) =~= iv);
    }
    while t < n
        invariant
            t <= n,
            n == iv.len(),
            iv == instrs.deep_view(),
            forall|j: int| 0 <= j < n ==> instr_encodable(#[trigger] iv[j]),
            script_encoding(iv) == out@ + script_encoding(iv.skip(t as int)),
        decreases n - t,
    {
        let ghost pre = out@;
        proof {
            assert(iv[t as int] == instrs@[t as int].deep_view());
            assert(iv.skip(t as int)[0] == iv[t as int]);
            assert(iv.skip(t as int).drop_first() =~= iv.skip(t + 1));
        }
        match &instrs[t] {
            Instr::Push(d) => {
                encode_push(&mut out, d);
            },
            Instr::Op(o) => {
                out.push(*o);
                proof {
                    assert(out@ =~= pre + seq![instrs@[t as int]->Op_0]);
                }
            },
        }
        proof {
            assert(script_encoding(iv.skip(t as int)) == instr_encoding(iv[t as int])
                + script_encoding(iv.skip(t + 1)));
            assert(script_encoding(iv) =~= out@ + script_encoding(iv.skip(t + 1)));
        }
        t = t + 1;
    }
    proof {
        assert(iv.skip(n as int) =~= Seq::<InstrV>::empty());
        assert(script_encoding(iv) =~= out@);
    }
    out
}

/// Tokenizes a script; `None` exactly when a push runs past the end.
pub fn tokenize(script: &[u8]) -> (r: Option<Vec<Instr>>)
    ensures
        r is Some <==> tokenize_spec(script@) is Some,
        r matches Some(v) ==> Some(v.deep_view()) == tokenize_spec(script@),
{
    let n = script.len();
    let mut out: Vec<Instr> = Vec::new();
    let mut i: usize = 0;
    proof {
        assert(script@.skip(0) =~= script@);
    }
    while i < n
        invariant
            n == script@.len(),
            i <= n,
            tokenize_spec(script@) == match tokenize_spec(script@.skip(i as int)) {
                Some(rest) => Some(out.deep_view() + rest),
                None => None::<Seq<InstrV>>,
            },
        decreases n - i,
    {
        let ghost rem = script@.skip(i as int);
        let ghost done = out.deep_view();
        let op = script[i];
        proof {
            assert(forall|j: int| 0 <= j < rem.len() ==> #[trigger] rem[j] == script@[i + j]);
            assert(rem[0] == op);
            assert(rem.len() == n - i);
        }
        if op <= OP_PUSHDATA4 {
            let header: usize = if op <= OP_PUSHBYTES_MAX {
                1
            } else if op == OP_PUSHDATA1 {
                2
            } else if op == OP_PUSHDATA2 {
                3
            } else {
                5
            };
            proof {
                assert(header == push_header_len(op));
            }
            if n - i < header {
                proof {
                    assert(tokenize_spec(rem) is None);
                }
                return None;
            }
            let l: usize = if op <= OP_PUSHBYTES_MAX {
                op as usize
            } else if op == OP_PUSHDATA1 {
                script[i + 1] as usize
            } else if op == OP_PUSHDATA2 {
                script[i + 1] as usize + 256 * (script[i + 2] as usize)
            } else {
                script[i + 1] as usize + 256 * (script[i + 2] as usize) + 65536 * (script[i
                    + 3] as usize) + 16777216 * (script[i + 4] as usize)
            };
            proof {
                assert(l == push_data_len(rem, 0));
            }
            if l > n - i - header {
                proof {
                    assert(tokenize_spec(rem) is None);
                }
                return None;
            }
            let data_slice = slice_subrange(script, i + header, i + header + l);
            let data = slice_to_vec(data_slice);
            let ghost data_v = data@;
            out.push(Instr::Push(data));
            i = i + header + l;
            proof {
                let rem2 = script@.skip(i as int);
                assert(data_v =~= rem.subrange(
                    push_header_len(op),
                    push_header_len(op) + push_data_len(rem, 0),
                ));
                assert(rem.skip(push_header_len(op) + push_data_len(rem, 0)) =~= rem2);
                assert(out.deep_view() =~= done.push(InstrV::Push(data_v)));
                assert(tokenize_spec(rem) == match tokenize_spec(rem2) {
                    Some(rest) => Some(seq![InstrV::Push(data_v)] + rest),
                    None => None::<Seq<InstrV>>,
                });
                if tokenize_spec(rem2) is Some {
                    let rest = tokenize_spec(rem2).unwrap();
                    assert(done + (seq![InstrV::Push(data_v)] + rest) =~= out.deep_view() + rest);
                }
            }
        } else {
            out.push(Instr::Op(op));
            i = i + 1;
            proof {
                let rem2 = script@.skip(i as int);
                assert(rem.skip(1) =~= rem2);
                assert(out.deep_view() =~= done.push(InstrV::Op(op)));
                assert(tokenize_spec(rem) == match tokenize_spec(rem2) {
                    Some(rest) => Some(seq![InstrV::Op(op)] + rest),
                    None => None::<Seq<InstrV>>,
                });
                if tokenize_spec(rem2) is Some {
                    let rest = tokenize_spec(rem2).unwrap();
                    assert(done + (seq![InstrV::Op(op)] + rest) =~= out.deep_view() + rest);
                }
            }
        }
    }
    proof {
        assert(script@.skip(n as int) =~= Seq::<u8>::empty());
        if tokenize_spec(script@) is Some {
            assert(out.deep_view() + Seq::<InstrV>::empty() =~= out.deep_view());
        }
    }
    Some(out)
}

} // verus!
