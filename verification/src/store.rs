use crate::events::{InscribedTransferLocation, InscribedTransferLocationV};
use vstd::prelude::*;

verus! {

/// The map an entry journal denotes: later entries win.
pub open spec fn entries_map(entries: Seq<(String, InscribedTransferLocation)>) -> Map<
    Seq<char>,
    InscribedTransferLocationV,
>
    decreases entries.len(),
{
    if entries.len() == 0 {
        Map::empty()
    } else {
        entries_map(entries.drop_last()).insert(entries.last().0@, entries.last().1@)
    }
}

/// The persisted pending transfers, keyed by the UTXO each is inscribed on.
/// Writes only append; a read sees the latest write of its key.
#[derive(Debug)]
pub struct PendingTransferStore {
    entries: Vec<(String, InscribedTransferLocation)>,
}

impl View for PendingTransferStore {
    type V = Map<Seq<char>, InscribedTransferLocationV>;

    closed spec fn view(&self) -> Map<Seq<char>, InscribedTransferLocationV> {
        entries_map(self.entries@)
    }
}

impl PendingTransferStore {
    /// The empty store.
    pub fn new() -> (r: PendingTransferStore)
        ensures
            r@ == Map::<Seq<char>, InscribedTransferLocationV>::empty(),
    {
        let r = PendingTransferStore { entries: Vec::new() };
        proof {
            assert(r.entries@.len() == 0);
        }
        r
    }

    /// Persists one record under its key.
    pub fn set(&mut self, key: String, value: InscribedTransferLocation)
        ensures
            final(self)@ == old(self)@.insert(key@, value@),
    {
        let ghost old_entries = self.entries@;
        let ghost kv = key@;
        let ghost vv = value@;
        self.entries.push((key, value));
        proof {
            assert(self.entries@.drop_last() =~= old_entries);
            assert(self.entries@.last().0@ == kv);
            assert(self.entries@.last().1@ == vv);
        }
    }

    /// The record stored under `key`, if any: the latest write wins.
    pub fn get_at(&self, key: &String) -> (r: Option<&InscribedTransferLocation>)
        ensures
            r is Some <==> self@.contains_key(key@),
            r matches Some(v) ==> self@.contains_key(key@) && self@[key@] == v@,
    {
        let n = self.entries.len();
        let mut i: usize = n;
        proof {
            assert(self.entries@.take(n as int) =~= self.entries@);
        }
        while i > 0
            invariant
                i <= n,
                n == self.entries@.len(),
                self@.contains_key(key@) <==> entries_map(self.entries@.take(i as int)).contains_key(
                    key@,
                ),
                self@.contains_key(key@) ==> self@[key@] == entries_map(
                    self.entries@.take(i as int),
                )[key@],
            decreases i,
        {
            i = i - 1;
            proof {
                assert(self.entries@.take(i + 1).drop_last() =~= self.entries@.take(i as int));
                assert(self.entries@.take(i + 1).last() == self.entries@[i as int]);
            }
            if self.entries[i].0.as_str().unicode_len() == key.as_str().unicode_len()
                && crate::digits::str_eq(self.entries[i].0.as_str(), key.as_str()) {
                return Some(&self.entries[i].1);
            }
        }
        proof {
            assert(self.entries@.take(0) =~= Seq::<(String, InscribedTransferLocation)>::empty());
        }
        None
    }
}

/// One balance-store instruction: add the amount, or its negation, to the
/// total under the key.
#[derive(Debug, Clone, PartialEq, Eq)]
pub struct BalanceDelta {
    pub key: String,
    pub amount: String,
    pub negative: bool,
}

/// Spec-level shape of one balance instruction.
pub ghost struct BalanceDeltaV {
    pub key: Seq<char>,
    pub amount: Seq<char>,
    pub negative: bool,
}

impl View for BalanceDelta {
    type V = BalanceDeltaV;

    open spec fn view(&self) -> BalanceDeltaV {
        BalanceDeltaV { key: self.key@, amount: self.amount@, negative: self.negative }
    }
}

impl DeepView for BalanceDelta {
    type V = BalanceDeltaV;

    open spec fn deep_view(&self) -> BalanceDeltaV {
        self.view()
    }
}

} // verus!
