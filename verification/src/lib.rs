use vstd::prelude::*;

pub mod brc20;
pub mod btc;
pub mod btc_utils;
pub mod digits;
pub mod events;
pub mod hex_util;
pub mod ord;
pub mod sats_utils;
pub mod store;

use crate::digits::{dec_chars, is_zero_int, join_key, key_chars, text_contains, u64_to_text};
use crate::hex_util::is_hex_seq;
use crate::ord::inscription::InscriptionV;

verus! {

/// What the upstream block source owes for each transaction: at least one
/// input, outputs whose sats fit one machine word together, and locking
/// scripts given as well-formed hex.
pub open spec fn tx_wf(t: btc::TransactionV) -> bool {
    &&& t.vin.len() >= 1
    &&& btc::total_sats(t.vout) <= u64::MAX
    &&& (forall|j: int|
        0 <= j < t.vout.len() ==> ((#[trigger] t.vout[j]).script_pub_key matches Some(s)
            ==> is_hex_seq(s.hex)))
}

/// A block whose every transaction meets the upstream contract.
pub open spec fn block_wf(b: btc::BlockV) -> bool {
    forall|i: int| 0 <= i < b.tx.len() ==> tx_wf(#[trigger] b.tx[i])
}

/// What validity filtering guarantees of every emitted deploy record:
/// nonzero maximum supply, decimals in range, nonzero effective mint limit.
pub open spec fn deploy_record_ok(d: events::DeployV) -> bool {
    &&& !is_zero_int(d.max_supply)
    &&& 0 <= d.decimals <= 18
    &&& !is_zero_int(events::deploy_record_limit_spec(d))
}

/// The hex form of the content-type marker the pre-filter looks for in a
/// transaction's raw serialization.
pub open spec fn mime_marker() -> Seq<char> {
    "746578742f706c61696e3b636861727365743d7574662d38"@
}

/// The inscriptions extraction sees in one transaction: none unless the raw
/// hex carries the content-type marker, reads as hex and is taken by the
/// codec; else every envelope of the revealed leaf scripts, decoded.
pub open spec fn tx_inscriptions(t: btc::TransactionV) -> Seq<InscriptionV> {
    if !digits::contains_seq(t.hex, mime_marker()) {
        Seq::empty()
    } else {
        match btc_utils::parse_inscriptions_spec(t.hex) {
            Ok(is) => is,
            Err(_) => Seq::empty(),
        }
    }
}

/// The sat offset an inscription points at: its pointer field where present
/// and well-formed, the first sat otherwise.
pub open spec fn sat_pointer(i: InscriptionV) -> u64 {
    match i.pointer {
        Some(v) => match crate::ord::inscription::pointer_spec(v) {
            Some(p) => p,
            None => 0,
        },
        None => 0,
    }
}

/// What one inscription contributes: the event its body denotes, the
/// holding output's address, index and residual offset — only when the
/// pointer resolves into the outputs, the body reads as valid UTF-8 and a
/// well-formed event, the event passes validation, and the output has an
/// address. Anything else contributes nothing, never an error.
pub open spec fn inscription_candidate(t: btc::TransactionV, insc: InscriptionV) -> Option<
    (brc20::Brc20EventV, Seq<char>, int, int),
> {
    match btc::nth_sat_spec(t.vout, sat_pointer(insc)) {
        None => None,
        Some(si) => match crate::ord::inscription::body_text_spec(insc) {
            None => None,
            Some(txt) => match brc20::event_of_text(txt) {
                None => None,
                Some(ev) => if !brc20::event_valid_spec(ev) {
                    None
                } else {
                    match btc_utils::vout_address_spec(t.vout[si.0]) {
                        None => None,
                        Some(addr) => Some((ev, addr, si.0, si.1)),
                    }
                },
            },
        },
    }
}

/// The decimals a deploy record carries: the field, eighteen when absent.
pub open spec fn deploy_dec_i32(d: brc20::DeployV) -> i32 {
    match d.dec {
        Some(x) => x,
        None => 18,
    }
}

/// The deploy record one valid deploy event becomes.
pub open spec fn deploy_record(d: brc20::DeployV, addr: Seq<char>) -> events::DeployV {
    events::DeployV {
        id: Seq::empty(),
        symbol: d.tick,
        max_supply: d.max,
        mint_limit: d.lim,
        decimals: deploy_dec_i32(d),
        deployer: addr,
    }
}

/// The mint record one valid mint event becomes.
pub open spec fn mint_record(m: brc20::MintV, addr: Seq<char>) -> events::MintV {
    events::MintV { id: Seq::empty(), token: m.tick, to: addr, amount: m.amt }
}

/// The inscribed-transfer record one valid transfer event becomes: keyed by
/// the holding output, with the residual offset and that output's sats.
pub open spec fn transfer_record(
    tr: brc20::TransferV,
    addr: Seq<char>,
    t: btc::TransactionV,
    k: int,
    residual: int,
) -> events::InscribedTransferV {
    events::InscribedTransferV {
        id: Seq::empty(),
        token: tr.tick,
        from: addr,
        amount: tr.amt,
        utxo: key_chars(t.txid, dec_chars(t.vout[k].n as nat)),
        offset: residual as u64,
        utxo_amount: t.vout[k].value,
    }
}

/// The three batches extraction accumulates.
pub ghost struct ExtractedV {
    pub deploys: Seq<events::DeployV>,
    pub mints: Seq<events::MintV>,
    pub transfers: Seq<events::InscribedTransferV>,
}

/// One inscription's contribution appended to the batches.
pub open spec fn extracted_push(
    acc: ExtractedV,
    t: btc::TransactionV,
    insc: InscriptionV,
) -> ExtractedV {
    match inscription_candidate(t, insc) {
        None => acc,
        Some((ev, addr, k, residual)) => match ev {
            brc20::Brc20EventV::Deploy(d) => ExtractedV {
                deploys: acc.deploys.push(deploy_record(d, addr)),
                mints: acc.mints,
                transfers: acc.transfers,
            },
            brc20::Brc20EventV::Mint(m) => ExtractedV {
                deploys: acc.deploys,
                mints: acc.mints.push(mint_record(m, addr)),
                transfers: acc.transfers,
            },
            brc20::Brc20EventV::Transfer(tr) => ExtractedV {
                deploys: acc.deploys,
                mints: acc.mints,
                transfers: acc.transfers.push(transfer_record(tr, addr, t, k, residual)),
            },
        },
    }
}

/// The batches after one transaction's inscriptions from `j` on.
pub open spec fn extract_insc(
    t: btc::TransactionV,
    iseq: Seq<InscriptionV>,
    j: int,
    acc: ExtractedV,
) -> ExtractedV
    decreases iseq.len() - j,
{
    if j < 0 || j >= iseq.len() {
        acc
    } else {
        extract_insc(t, iseq, j + 1, extracted_push(acc, t, iseq[j]))
    }
}

/// The batches after the transactions from `i` on.
pub open spec fn extract_txs(txs: Seq<btc::TransactionV>, i: int, acc: ExtractedV) -> ExtractedV
    decreases txs.len() - i,
{
    if i < 0 || i >= txs.len() {
        acc
    } else {
        extract_txs(txs, i + 1, extract_insc(txs[i], tx_inscriptions(txs[i]), 0, acc))
    }
}

/// Everything one block's extraction emits, in block order.
pub open spec fn extracted_events(b: btc::BlockV) -> ExtractedV {
    extract_txs(
        b.tx,
        0,
        ExtractedV { deploys: Seq::empty(), mints: Seq::empty(), transfers: Seq::empty() },
    )
}

/// Every emitted batch keeps the validity shape: deploys
/// with nonzero supply and limit and decimals in range, mints and inscribed
/// transfers with nonzero amounts.
pub open spec fn extracted_ok(e: ExtractedV) -> bool {
    &&& (forall|j: int| 0 <= j < e.deploys.len() ==> deploy_record_ok(#[trigger] e.deploys[j]))
    &&& (forall|j: int|
        0 <= j < e.mints.len() ==> !is_zero_int((#[trigger] e.mints[j]).amount))
    &&& (forall|j: int|
        0 <= j < e.transfers.len() ==> !is_zero_int((#[trigger] e.transfers[j]).amount))
}

/// One contribution keeps the validity shape: a candidate is only emitted
/// once its event's validity predicate holds.
proof fn lemma_extracted_push_ok(acc: ExtractedV, t: btc::TransactionV, insc: InscriptionV)
    requires
        extracted_ok(acc),
    ensures
        extracted_ok(extracted_push(acc, t, insc)),
{
    match inscription_candidate(t, insc) {
        None => {},
        Some((ev, addr, k, residual)) => {
            assert(brc20::event_valid_spec(ev));
            match ev {
                brc20::Brc20EventV::Deploy(d) => {
                    assert(deploy_record_ok(deploy_record(d, addr)));
                },
                brc20::Brc20EventV::Mint(m) => {
                    assert(!is_zero_int(mint_record(m, addr).amount));
                },
                brc20::Brc20EventV::Transfer(tr) => {
                    assert(!is_zero_int(transfer_record(tr, addr, t, k, residual).amount));
                },
            }
        },
    }
}

/// A run over one transaction's inscriptions keeps the validity shape.
proof fn lemma_extract_insc_ok(
    t: btc::TransactionV,
    iseq: Seq<InscriptionV>,
    j: int,
    acc: ExtractedV,
)
    requires
        extracted_ok(acc),
        0 <= j,
    ensures
        extracted_ok(extract_insc(t, iseq, j, acc)),
    decreases iseq.len() - j,
{
    if j < iseq.len() {
        lemma_extracted_push_ok(acc, t, iseq[j]);
        lemma_extract_insc_ok(t, iseq, j + 1, extracted_push(acc, t, iseq[j]));
    }
}

/// A run over the transactions keeps the validity shape.
proof fn lemma_extract_txs_ok(txs: Seq<btc::TransactionV>, i: int, acc: ExtractedV)
    requires
        extracted_ok(acc),
        0 <= i,
    ensures
        extracted_ok(extract_txs(txs, i, acc)),
    decreases txs.len() - i,
{
    if i < txs.len() {
        lemma_extract_insc_ok(txs[i], tx_inscriptions(txs[i]), 0, acc);
        lemma_extract_txs_ok(txs, i + 1, extract_insc(txs[i], tx_inscriptions(txs[i]), 0, acc));
    }
}

/// The validity filter: whatever block comes in, every emitted deploy has a
/// nonzero maximum supply, a nonzero effective mint limit and decimals in
/// range, and every emitted mint and inscribed transfer a nonzero amount.
pub proof fn lemma_extracted_events_valid(b: btc::BlockV)
    ensures
        extracted_ok(extracted_events(b)),
{
    lemma_extract_txs_ok(
        b.tx,
        0,
        ExtractedV { deploys: Seq::empty(), mints: Seq::empty(), transfers: Seq::empty() },
    );
}

/// Extracts the protocol events of one block: transactions are pre-filtered
/// by the content-type marker in their raw hex, each one's envelopes are
/// decoded to inscriptions, each inscription's holding output is resolved
/// through its pointer, its body is read as JSON, and only events that pass
/// their validity predicate and whose output has an address are emitted.
/// Nothing in a block ever fails the whole extraction; the result is the
/// function of the block that `extracted_events` spells out.
#[verifier::rlimit(100)]
pub fn map_brc20_events(block: &btc::Block) -> (r: events::Brc20Events)
    requires
        block_wf(block@),
    ensures
        r@.block_height == 0,
        r@.timestamp == 0,
        r@.executed_transfers.len() == 0,
        r@.deploys == extracted_events(block@).deploys,
        r@.mints == extracted_events(block@).mints,
        r@.inscribed_transfers == extracted_events(block@).transfers,
{
    let mut deploys: Vec<events::Deploy> = Vec::new();
    let mut mints: Vec<events::Mint> = Vec::new();
    let mut transfers: Vec<events::InscribedTransfer> = Vec::new();
    let nt = block.tx.len();
    let mut ti: usize = 0;
    proof {
        assert(deploys.deep_view() =~= Seq::<events::DeployV>::empty());
        assert(mints.deep_view() =~= Seq::<events::MintV>::empty());
        assert(transfers.deep_view() =~= Seq::<events::InscribedTransferV>::empty());
    }
    while ti < nt
        invariant
            block_wf(block@),
            nt == block@.tx.len(),
            ti <= nt,
            extracted_events(block@) == extract_txs(
                block@.tx,
                ti as int,
                ExtractedV {
                    deploys: deploys.deep_view(),
                    mints: mints.deep_view(),
                    transfers: transfers.deep_view(),
                },
            ),
        decreases nt - ti,
    {
        let tx = &block.tx[ti];
        let ghost acc0 = ExtractedV {
            deploys: deploys.deep_view(),
            mints: mints.deep_view(),
            transfers: transfers.deep_view(),
        };
        proof {
            assert(tx@ == block@.tx[ti as int]);
            assert(tx_wf(tx@));
        }
        if text_contains(tx.hex.as_str(), "746578742f706c61696e3b636861727365743d7574662d38") {
            match btc_utils::parse_inscriptions(tx) {
                Err(_) => {
                    proof {
                        assert(tx_inscriptions(tx@) =~= Seq::<InscriptionV>::empty());
                        assert(extract_insc(tx@, tx_inscriptions(tx@), 0, acc0) == acc0);
                    }
                },
                Ok(inscriptions) => {
                    let ghost iv = inscriptions.deep_view();
                    proof {
                        assert(iv == tx_inscriptions(tx@));
                    }
                    let ni = inscriptions.len();
                    let mut k: usize = 0;
                    while k < ni
                        invariant
                            ni == inscriptions@.len(),
                            k <= ni,
                            tx_wf(tx@),
                            iv == inscriptions.deep_view(),
                            iv.len() == ni,
                            extract_insc(tx@, iv, 0, acc0) == extract_insc(
                                tx@,
                                iv,
                                k as int,
                                ExtractedV {
                                    deploys: deploys.deep_view(),
                                    mints: mints.deep_view(),
                                    transfers: transfers.deep_view(),
                                },
                            ),
                        decreases ni - k,
                    {
                        let ghost cur = ExtractedV {
                            deploys: deploys.deep_view(),
                            mints: mints.deep_view(),
                            transfers: transfers.deep_view(),
                        };
                        let insc = &inscriptions[k];
                        proof {
                            assert(insc@ == iv[k as int]);
                        }
                        let ptr = match insc.pointer() {
                            Some(p) => p,
                            None => 0,
                        };
                        proof {
                            assert(ptr == sat_pointer(iv[k as int]));
                        }
                        match tx.nth_sat_utxo(ptr) {
                            None => {
                                proof {
                                    assert(inscription_candidate(tx@, iv[k as int]) is None);
                                    assert(extracted_push(cur, tx@, iv[k as int]) == cur);
                                }
                            },
                            Some(pair) => {
                                let (vout, sat_offset) = pair;
                                proof {
                                    btc::lemma_nth_sat_index_range(tx@.vout, ptr, 0, 0);
                                }
                                let address_opt = vout.address();
                                match insc.body_text() {
                                    None => {
                                        proof {
                                            assert(inscription_candidate(tx@, iv[k as int])
                                                is None);
                                            assert(extracted_push(cur, tx@, iv[k as int]) == cur);
                                        }
                                    },
                                    Some(text) => {
                                        match brc20::event_from_text(text.as_str()) {
                                            None => {
                                                proof {
                                                    assert(inscription_candidate(
                                                        tx@,
                                                        iv[k as int],
                                                    ) is None);
                                                    assert(extracted_push(cur, tx@, iv[k as int])
                                                        == cur);
                                                }
                                            },
                                            Some(event) => {
                                                let ghost evv = event@;
                                                if event.valid() {
                                                    match address_opt {
                                                        None => {
                                                            proof {
                                                                assert(inscription_candidate(
                                                                    tx@,
                                                                    iv[k as int],
                                                                ) is None);
                                                                assert(extracted_push(
                                                                    cur,
                                                                    tx@,
                                                                    iv[k as int],
                                                                ) == cur);
                                                            }
                                                        },
                                                        Some(address) => {
                                                            let ghost addrv = address@;
                                                            let ghost cand =
                                                                inscription_candidate(
                                                                tx@,
                                                                iv[k as int],
                                                            );
                                                            proof {
                                                                assert(cand matches Some(c) && c.0
                                                                    == evv && c.1 == addrv);
                                                            }
                                                            match event {
                                                                brc20::Brc20Event::Deploy(d) => {
                                                                    let decimals = d.dec();
                                                                    let rec = events::Deploy {
                                                                        id: String::new(),
                                                                        symbol: d.tick,
                                                                        max_supply: d.max,
                                                                        mint_limit: d.lim,
                                                                        decimals,
                                                                        deployer: address,
                                                                    };
                                                                    let ghost recv = rec@;
                                                                    let ghost before =
                                                                        deploys.deep_view();
                                                                    proof {
                                                                        assert(recv
                                                                            == deploy_record(
                                                                            evv->Deploy_0,
                                                                            addrv,
                                                                        ));
                                                                    }
                                                                    deploys.push(rec);
                                                                    proof {
                                                                        assert(deploys.deep_view()
                                                                            =~= before.push(recv));
                                                                        assert(extracted_push(
                                                                            cur,
                                                                            tx@,
                                                                            iv[k as int],
                                                                        ) == ExtractedV {
                                                                            deploys: deploys.deep_view(),
                                                                            mints: mints.deep_view(),
                                                                            transfers: transfers.deep_view(),
                                                                        });
                                                                    }
                                                                },
                                                                brc20::Brc20Event::Mint(m) => {
                                                                    let rec = events::Mint {
                                                                        id: String::new(),
                                                                        token: m.tick,
                                                                        to: address,
                                                                        amount: m.amt,
                                                                    };
                                                                    let ghost recv = rec@;
                                                                    let ghost before =
                                                                        mints.deep_view();
                                                                    proof {
                                                                        assert(recv == mint_record(
                                                                            evv->Mint_0,
                                                                            addrv,
                                                                        ));
                                                                    }
                                                                    mints.push(rec);
                                                                    proof {
                                                                        assert(mints.deep_view()
                                                                            =~= before.push(recv));
                                                                        assert(extracted_push(
                                                                            cur,
                                                                            tx@,
                                                                            iv[k as int],
                                                                        ) == ExtractedV {
                                                                            deploys: deploys.deep_view(),
                                                                            mints: mints.deep_view(),
                                                                            transfers: transfers.deep_view(),
                                                                        });
                                                                    }
                                                                },
                                                                brc20::Brc20Event::Transfer(t) => {
                                                                    let idx_text = u64_to_text(
                                                                        vout.n as u64,
                                                                    );
                                                                    let key = join_key(
                                                                        tx.txid.as_str(),
                                                                        idx_text.as_str(),
                                                                    );
                                                                    let rec =
                                                                        events::InscribedTransfer {
                                                                        id: String::new(),
                                                                        token: t.tick,
                                                                        from: address,
                                                                        amount: t.amt,
                                                                        utxo: key,
                                                                        offset: sat_offset,
                                                                        utxo_amount: vout.value,
                                                                    };
                                                                    let ghost recv = rec@;
                                                                    let ghost before =
                                                                        transfers.deep_view();
                                                                    proof {
                                                                        let c = cand.unwrap();
                                                                        assert(recv
                                                                            == transfer_record(
                                                                            evv->Transfer_0,
                                                                            addrv,
                                                                            tx@,
                                                                            c.2,
                                                                            c.3,
                                                                        ));
                                                                    }
                                                                    transfers.push(rec);
                                                                    proof {
                                                                        assert(transfers.deep_view()
                                                                            =~= before.push(recv));
                                                                        assert(extracted_push(
                                                                            cur,
                                                                            tx@,
                                                                            iv[k as int],
                                                                        ) == ExtractedV {
                                                                            deploys: deploys.deep_view(),
                                                                            mints: mints.deep_view(),
                                                                            transfers: transfers.deep_view(),
                                                                        });
                                                                    }
                                                                },
                                                            }
                                                        },
                                                    }
                                                } else {
                                                    proof {
                                                        assert(inscription_candidate(
                                                            tx@,
                                                            iv[k as int],
                                                        ) is None);
                                                        assert(extracted_push(cur, tx@, iv[k as int])
                                                            == cur);
                                                    }
                                                }
                                            },
                                        }
                                    },
                                }
                            },
                        }
                        k = k + 1;
                        proof {
                            assert(extract_insc(tx@, iv, k - 1, cur) == extract_insc(
                                tx@,
                                iv,
                                k as int,
                                extracted_push(cur, tx@, iv[k - 1]),
                            ));
                        }
                    }
                    proof {
                        assert(extract_insc(
                            tx@,
                            iv,
                            ni as int,
                            ExtractedV {
                                deploys: deploys.deep_view(),
                                mints: mints.deep_view(),
                                transfers: transfers.deep_view(),
                            },
                        ) == ExtractedV {
                            deploys: deploys.deep_view(),
                            mints: mints.deep_view(),
                            transfers: transfers.deep_view(),
                        });
                    }
                },
            }
        } else {
            proof {
                assert(tx_inscriptions(tx@) =~= Seq::<InscriptionV>::empty());
                assert(extract_insc(tx@, tx_inscriptions(tx@), 0, acc0) == acc0);
            }
        }
        ti = ti + 1;
        proof {
            assert(extract_txs(block@.tx, ti - 1, acc0) == extract_txs(
                block@.tx,
                ti as int,
                extract_insc(
                    block@.tx[ti - 1],
                    tx_inscriptions(block@.tx[ti - 1]),
                    0,
                    acc0,
                ),
            ));
        }
    }
    events::Brc20Events {
        block_height: 0,
        timestamp: 0,
        deploys,
        mints,
        inscribed_transfers: transfers,
        executed_transfers: Vec::new(),
    }
}

/// The persisted form of one inscribed transfer.
pub open spec fn itl_of(t: events::InscribedTransferV) -> events::InscribedTransferLocationV {
    events::InscribedTransferLocationV {
        id: t.id,
        token: t.token,
        from: t.from,
        amount: t.amount,
        offset: t.offset,
        utxo_amount: t.utxo_amount,
    }
}

/// The store contents after persisting the transfers from `i` on, each under
/// its UTXO key.
pub open spec fn apply_inscribed(
    m: Map<Seq<char>, events::InscribedTransferLocationV>,
    ts: Seq<events::InscribedTransferV>,
    i: int,
) -> Map<Seq<char>, events::InscribedTransferLocationV>
    decreases ts.len() - i,
{
    if i < 0 || i >= ts.len() {
        m
    } else {
        apply_inscribed(m.insert(ts[i].utxo, itl_of(ts[i])), ts, i + 1)
    }
}

/// Persists every inscribed transfer of the batch under its UTXO key.
pub fn store_inscribed_transfers(
    events_in: &events::Brc20Events,
    pending: &mut store::PendingTransferStore,
)
    ensures
        final(pending)@ == apply_inscribed(old(pending)@, events_in@.inscribed_transfers, 0),
{
    let n = events_in.inscribed_transfers.len();
    let mut i: usize = 0;
    while i < n
        invariant
            n == events_in@.inscribed_transfers.len(),
            i <= n,
            apply_inscribed(old(pending)@, events_in@.inscribed_transfers, 0) == apply_inscribed(
                pending@,
                events_in@.inscribed_transfers,
                i as int,
            ),
        decreases n - i,
    {
        let t = &events_in.inscribed_transfers[i];
        proof {
            assert(t@ == events_in@.inscribed_transfers[i as int]);
        }
        let loc = events::InscribedTransferLocation {
            id: t.id.clone(),
            token: t.token.clone(),
            from: t.from.clone(),
            amount: t.amount.clone(),
            offset: t.offset,
            utxo_amount: t.utxo_amount,
        };
        pending.set(t.utxo.clone(), loc);
        i = i + 1;
    }
}

/// The balance instructions one batch yields: credit the receiver on each
/// mint, debit the sender on each inscribed transfer, credit the receiver on
/// each executed transfer.
pub open spec fn balance_deltas_spec(e: events::Brc20EventsV) -> Seq<store::BalanceDeltaV> {
    e.mints.map_values(
        |m: events::MintV|
            store::BalanceDeltaV { key: key_chars(m.token, m.to), amount: m.amount, negative: false },
    ) + e.inscribed_transfers.map_values(
        |t: events::InscribedTransferV|
            store::BalanceDeltaV { key: key_chars(t.token, t.from), amount: t.amount, negative: true },
    ) + e.executed_transfers.map_values(
        |t: events::ExecutedTransferV|
            store::BalanceDeltaV { key: key_chars(t.token, t.to), amount: t.amount, negative: false },
    )
}

/// The transferable-balance instructions one batch yields: credit the sender
/// on each inscribed transfer, debit the sender on each executed transfer.
pub open spec fn transferable_deltas_spec(e: events::Brc20EventsV) -> Seq<store::BalanceDeltaV> {
    e.inscribed_transfers.map_values(
        |t: events::InscribedTransferV|
            store::BalanceDeltaV {
                key: key_chars(t.token, t.from),
                amount: t.amount,
                negative: false,
            },
    ) + e.executed_transfers.map_values(
        |t: events::ExecutedTransferV|
            store::BalanceDeltaV { key: key_chars(t.token, t.from), amount: t.amount, negative: true },
    )
}

/// Emits the balance instructions of one batch, in batch order.
pub fn store_balances(events_in: &events::Brc20Events) -> (r: Vec<store::BalanceDelta>)
    ensures
        r.deep_view() == balance_deltas_spec(events_in@),
{
    let mut out: Vec<store::BalanceDelta> = Vec::new();
    let ghost part1 = events_in@.mints.map_values(
        |m: events::MintV|
            store::BalanceDeltaV { key: key_chars(m.token, m.to), amount: m.amount, negative: false },
    );
    let ghost part2 = events_in@.inscribed_transfers.map_values(
        |t: events::InscribedTransferV|
            store::BalanceDeltaV { key: key_chars(t.token, t.from), amount: t.amount, negative: true },
    );
    let ghost part3 = events_in@.executed_transfers.map_values(
        |t: events::ExecutedTransferV|
            store::BalanceDeltaV { key: key_chars(t.token, t.to), amount: t.amount, negative: false },
    );
    let n1 = events_in.mints.len();
    let mut i: usize = 0;
    while i < n1
        invariant
            n1 == events_in@.mints.len(),
            i <= n1,
            part1 == events_in@.mints.map_values(
                |m: events::MintV|
                    store::BalanceDeltaV {
                        key: key_chars(m.token, m.to),
                        amount: m.amount,
                        negative: false,
                    },
            ),
            out.deep_view().len() == i,
            forall|j: int| 0 <= j < i ==> out.deep_view()[j] == part1[j],
        decreases n1 - i,
    {
        let m = &events_in.mints[i];
        proof {
            assert(m@ == events_in@.mints[i as int]);
        }
        let rec = store::BalanceDelta {
            key: join_key(m.token.as_str(), m.to.as_str()),
            amount: m.amount.clone(),
            negative: false,
        };
        out.push(rec);
        i = i + 1;
    }
    let n2 = events_in.inscribed_transfers.len();
    let mut i2: usize = 0;
    while i2 < n2
        invariant
            n1 == events_in@.mints.len(),
            n2 == events_in@.inscribed_transfers.len(),
            i2 <= n2,
            part1 == events_in@.mints.map_values(
                |m: events::MintV|
                    store::BalanceDeltaV {
                        key: key_chars(m.token, m.to),
                        amount: m.amount,
                        negative: false,
                    },
            ),
            part2 == events_in@.inscribed_transfers.map_values(
                |t: events::InscribedTransferV|
                    store::BalanceDeltaV {
                        key: key_chars(t.token, t.from),
                        amount: t.amount,
                        negative: true,
                    },
            ),
            out.deep_view().len() == n1 + i2,
            forall|j: int| 0 <= j < n1 ==> out.deep_view()[j] == part1[j],
            forall|j: int| 0 <= j < i2 ==> out.deep_view()[n1 + j] == part2[j],
        decreases n2 - i2,
    {
        let t = &events_in.inscribed_transfers[i2];
        proof {
            assert(t@ == events_in@.inscribed_transfers[i2 as int]);
        }
        let rec = store::BalanceDelta {
            key: join_key(t.token.as_str(), t.from.as_str()),
            amount: t.amount.clone(),
            negative: true,
        };
        out.push(rec);
        i2 = i2 + 1;
    }
    let n3 = events_in.executed_transfers.len();
    let mut i3: usize = 0;
    while i3 < n3
        invariant
            n1 == events_in@.mints.len(),
            n2 == events_in@.inscribed_transfers.len(),
            n3 == events_in@.executed_transfers.len(),
            i3 <= n3,
            part1 == events_in@.mints.map_values(
                |m: events::MintV|
                    store::BalanceDeltaV {
                        key: key_chars(m.token, m.to),
                        amount: m.amount,
                        negative: false,
                    },
            ),
            part2 == events_in@.inscribed_transfers.map_values(
                |t: events::InscribedTransferV|
                    store::BalanceDeltaV {
                        key: key_chars(t.token, t.from),
                        amount: t.amount,
                        negative: true,
                    },
            ),
            part3 == events_in@.executed_transfers.map_values(
                |t: events::ExecutedTransferV|
                    store::BalanceDeltaV {
                        key: key_chars(t.token, t.to),
                        amount: t.amount,
                        negative: false,
                    },
            ),
            out.deep_view().len() == n1 + n2 + i3,
            forall|j: int| 0 <= j < n1 ==> out.deep_view()[j] == part1[j],
            forall|j: int| 0 <= j < n2 ==> out.deep_view()[n1 + j] == part2[j],
            forall|j: int| 0 <= j < i3 ==> out.deep_view()[n1 + n2 + j] == part3[j],
        decreases n3 - i3,
    {
        let t = &events_in.executed_transfers[i3];
        proof {
            assert(t@ == events_in@.executed_transfers[i3 as int]);
        }
        let rec = store::BalanceDelta {
            key: join_key(t.token.as_str(), t.to.as_str()),
            amount: t.amount.clone(),
            negative: false,
        };
        out.push(rec);
        i3 = i3 + 1;
    }
    proof {
        assert(out.deep_view() =~= part1 + part2 + part3);
    }
    out
}

/// Emits the transferable-balance instructions of one batch, in batch order.
pub fn store_transferable_balances(events_in: &events::Brc20Events) -> (r: Vec<
    store::BalanceDelta,
>)
    ensures
        r.deep_view() == transferable_deltas_spec(events_in@),
{
    let mut out: Vec<store::BalanceDelta> = Vec::new();
    let ghost part1 = events_in@.inscribed_transfers.map_values(
        |t: events::InscribedTransferV|
            store::BalanceDeltaV { key: key_chars(t.token, t.from), amount: t.amount, negative: false },
    );
    let ghost part2 = events_in@.executed_transfers.map_values(
        |t: events::ExecutedTransferV|
            store::BalanceDeltaV { key: key_chars(t.token, t.from), amount: t.amount, negative: true },
    );
    let n1 = events_in.inscribed_transfers.len();
    let mut i: usize = 0;
    while i < n1
        invariant
            n1 == events_in@.inscribed_transfers.len(),
            i <= n1,
            part1 == events_in@.inscribed_transfers.map_values(
                |t: events::InscribedTransferV|
                    store::BalanceDeltaV {
                        key: key_chars(t.token, t.from),
                        amount: t.amount,
                        negative: false,
                    },
            ),
            out.deep_view().len() == i,
            forall|j: int| 0 <= j < i ==> out.deep_view()[j] == part1[j],
        decreases n1 - i,
    {
        let t = &events_in.inscribed_transfers[i];
        proof {
            assert(t@ == events_in@.inscribed_transfers[i as int]);
        }
        let rec = store::BalanceDelta {
            key: join_key(t.token.as_str(), t.from.as_str()),
            amount: t.amount.clone(),
            negative: false,
        };
        out.push(rec);
        i = i + 1;
    }
    let n2 = events_in.executed_transfers.len();
    let mut i2: usize = 0;
    while i2 < n2
        invariant
            n1 == events_in@.inscribed_transfers.len(),
            n2 == events_in@.executed_transfers.len(),
            i2 <= n2,
            part1 == events_in@.inscribed_transfers.map_values(
                |t: events::InscribedTransferV|
                    store::BalanceDeltaV {
                        key: key_chars(t.token, t.from),
                        amount: t.amount,
                        negative: false,
                    },
            ),
            part2 == events_in@.executed_transfers.map_values(
                |t: events::ExecutedTransferV|
                    store::BalanceDeltaV {
                        key: key_chars(t.token, t.from),
                        amount: t.amount,
                        negative: true,
                    },
            ),
            out.deep_view().len() == n1 + i2,
            forall|j: int| 0 <= j < n1 ==> out.deep_view()[j] == part1[j],
            forall|j: int| 0 <= j < i2 ==> out.deep_view()[n1 + j] == part2[j],
        decreases n2 - i2,
    {
        let t = &events_in.executed_transfers[i2];
        proof {
            assert(t@ == events_in@.executed_transfers[i2 as int]);
        }
        let rec = store::BalanceDelta {
            key: join_key(t.token.as_str(), t.from.as_str()),
            amount: t.amount.clone(),
            negative: true,
        };
        out.push(rec);
        i2 = i2 + 1;
    }
    proof {
        assert(out.deep_view() =~= part1 + part2);
    }
    out
}

/// The store key a transaction's first input spends.
pub open spec fn vin_key(v: btc::VinV) -> Seq<char> {
    key_chars(v.txid, dec_chars(v.vout as nat))
}

/// The executed transfer one transaction resolves, if any: the pending
/// transfer under the first input's key, re-resolved against the spending
/// transaction's own outputs, addressed to the owner of the holding output.
/// Nothing resolves when the key is unknown, the stored offset lies past the
/// new outputs, or the holding output has no address.
pub open spec fn resolved_of_tx(
    t: btc::TransactionV,
    m: Map<Seq<char>, events::InscribedTransferLocationV>,
) -> Option<events::ExecutedTransferV> {
    let key = vin_key(t.vin[0]);
    if m.contains_key(key) {
        let loc = m[key];
        match btc::nth_sat_spec(t.vout, loc.offset) {
            Some(si) => match btc_utils::vout_address_spec(t.vout[si.0]) {
                Some(addr) => Some(
                    events::ExecutedTransferV {
                        id: loc.id,
                        token: loc.token,
                        from: loc.from,
                        to: addr,
                        amount: loc.amount,
                    },
                ),
                None => None,
            },
            None => None,
        }
    } else {
        None
    }
}

/// The executed transfers one block resolves against a store version, in
/// transaction order.
pub open spec fn resolve_spec(
    txs: Seq<btc::TransactionV>,
    m: Map<Seq<char>, events::InscribedTransferLocationV>,
) -> Seq<events::ExecutedTransferV>
    decreases txs.len(),
{
    if txs.len() == 0 {
        Seq::empty()
    } else {
        resolve_spec(txs.drop_last(), m) + (match resolved_of_tx(txs.last(), m) {
            Some(e) => seq![e],
            None => Seq::empty(),
        })
    }
}

/// Resolves pending transfers against a new block: only each transaction's
/// first input is held against the store, as the protocol convention asks.
/// The batches of `events_in` pass through unchanged but for the resolved
/// transfers.
pub fn map_resolve_transfers(
    block: &btc::Block,
    events_in: events::Brc20Events,
    pending: &store::PendingTransferStore,
) -> (r: events::Brc20Events)
    requires
        block_wf(block@),
    ensures
        r@.executed_transfers == resolve_spec(block@.tx, pending@),
        r@.deploys == events_in@.deploys,
        r@.mints == events_in@.mints,
        r@.inscribed_transfers == events_in@.inscribed_transfers,
        r@.block_height == events_in@.block_height,
        r@.timestamp == events_in@.timestamp,
{
    let mut executed: Vec<events::ExecutedTransfer> = Vec::new();
    let nt = block.tx.len();
    let mut ti: usize = 0;
    proof {
        assert(block@.tx.take(0) =~= Seq::<btc::TransactionV>::empty());
    }
    while ti < nt
        invariant
            block_wf(block@),
            nt == block@.tx.len(),
            ti <= nt,
            executed.deep_view() == resolve_spec(block@.tx.take(ti as int), pending@),
        decreases nt - ti,
    {
        let tx = &block.tx[ti];
        proof {
            assert(tx@ == block@.tx[ti as int]);
            assert(tx_wf(tx@));
        }
        let vin0 = &tx.vin[0];
        proof {
            assert(vin0@ == tx@.vin[0]);
        }
        let idx_text = u64_to_text(vin0.vout as u64);
        let key = join_key(vin0.txid.as_str(), idx_text.as_str());
        proof {
            assert(key@ == vin_key(tx@.vin[0]));
        }
        let ghost pre = executed.deep_view();
        match pending.get_at(&key) {
            None => {
                proof {
                    assert(resolved_of_tx(tx@, pending@) is None);
                }
            },
            Some(found) => {
                let loc = found.duplicate();
                match tx.nth_sat_utxo(loc.offset) {
                    None => {
                        proof {
                            assert(resolved_of_tx(tx@, pending@) is None);
                        }
                    },
                    Some(pair) => {
                        let (vout, _residual) = pair;
                        proof {
                            btc::lemma_nth_sat_index_range(tx@.vout, loc.offset, 0, 0);
                        }
                        match vout.address() {
                            None => {
                                proof {
                                    assert(resolved_of_tx(tx@, pending@) is None);
                                }
                            },
                            Some(addr) => {
                                let rec = events::ExecutedTransfer {
                                    id: loc.id,
                                    token: loc.token,
                                    from: loc.from,
                                    to: addr,
                                    amount: loc.amount,
                                };
                                let ghost recv = rec@;
                                proof {
                                    assert(resolved_of_tx(tx@, pending@) == Some(recv));
                                }
                                executed.push(rec);
                                proof {
                                    assert(executed.deep_view() =~= pre.push(recv));
                                }
                            },
                        }
                    },
                }
            },
        }
        ti = ti + 1;
        proof {
            assert(block@.tx.take(ti as int).drop_last() =~= block@.tx.take(ti - 1));
            assert(block@.tx.take(ti as int).last() == block@.tx[ti - 1]);
            assert(executed.deep_view() =~= resolve_spec(block@.tx.take(ti as int), pending@));
        }
    }
    proof {
        assert(block@.tx.take(nt as int) =~= block@.tx);
    }
    events::Brc20Events {
        block_height: events_in.block_height,
        timestamp: events_in.timestamp,
        deploys: events_in.deploys,
        mints: events_in.mints,
        inscribed_transfers: events_in.inscribed_transfers,
        executed_transfers: executed,
    }
}

/// Replay: extraction, resolution and persistence are functions of the
/// block and the prior store contents alone, so reprocessing an identical
/// block against an identical prior state reproduces the same batches and
/// the same store.
pub proof fn lemma_replay_deterministic(
    b1: btc::BlockV,
    prior1: Map<Seq<char>, events::InscribedTransferLocationV>,
    b2: btc::BlockV,
    prior2: Map<Seq<char>, events::InscribedTransferLocationV>,
    ts1: Seq<events::InscribedTransferV>,
    ts2: Seq<events::InscribedTransferV>,
)
    requires
        b1 == b2,
        prior1 == prior2,
        ts1 == ts2,
    ensures
        extracted_events(b1) == extracted_events(b2),
        resolve_spec(b1.tx, prior1) == resolve_spec(b2.tx, prior2),
        apply_inscribed(prior1, ts1, 0) == apply_inscribed(prior2, ts2, 0),
{
}

} // verus!
