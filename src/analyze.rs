//! Space and corruption analysis of a raw region.

use vstd::prelude::*;
use crate::codec::{align4, at_end, end_from, entries, fault, fault_from, next_at, used, Smmstore};
use crate::compaction::{lemma_entries_fit, lemma_merge_fits, lengths_fit};
use crate::keymap::{has_key, merge, sorted_keys, KeyMap};

verus! {

/// The number of inserts into the map that replace an earlier value, when
/// the entries of `es` are stored in order.
pub open spec fn duplicates(es: Seq<(Seq<u8>, Seq<u8>)>) -> nat
    decreases es.len(),
{
    if es.len() == 0 {
        0
    } else {
        duplicates(es.drop_last()) + if has_key(merge(es.drop_last()), es.last().0) {
            1nat
        } else {
            0nat
        }
    }
}

/// Whether decoding stops at a corrupt record.
pub fn is_corrupted(data: &[u8]) -> (r: bool)
    ensures
        r == (fault(data@) is Some),
{
    let mut it = Smmstore::from_raw(data);
    let ghost d = data@;
    loop
        invariant
            it.wf(),
            it.region() == d,
            d == data@,
            it.cursor() <= d.len(),
            it.cursor() % 4 == 0,
            !it.finished() ==> fault(d) == fault_from(d, it.cursor()),
            it.finished() ==> fault(d) is None,
        decreases it.measure(),
    {
        let ghost c = it.cursor();
        match it.next_entry() {
            None => {
                assert(it.finished());
                assert(at_end(d, c) ==> fault_from(d, c) is None);
                return false;
            },
            Some(Err(_)) => {
                return true;
            },
            Some(Ok(_)) => {
                assert(at_end(d, next_at(d, c)) ==> fault_from(d, next_at(d, c)) is None);
            },
        }
    }
}

proof fn lemma_align_shift(c: nat, n: nat)
    requires
        c % 4 == 0,
    ensures
        c + align4(n) == align4(c + n),
{
}

/// The size in bytes of the records before the end of the log or the first
/// corrupt record: each takes its two length fields, key, value and
/// terminator, rounded up to a multiple of four. The padding of the last
/// record may reach up to three bytes past the end of `data`, so the result
/// must leave that much room in a `usize`.
pub fn used_size(data: &[u8]) -> (r: usize)
    requires
        data@.len() + 3 <= usize::MAX,
    ensures
        r == used(data@),
{
    let mut it = Smmstore::from_raw(data);
    let ghost d = data@;
    let mut total: usize = 0;
    loop
        invariant
            it.wf(),
            it.region() == d,
            d == data@,
            it.cursor() <= d.len(),
            it.cursor() % 4 == 0,
            d.len() + 3 <= usize::MAX,
            !it.finished() ==> used(d) == end_from(d, it.cursor()) && total == it.cursor(),
            it.finished() ==> used(d) == total,
        decreases it.measure(),
    {
        let ghost c = it.cursor();
        match it.next_entry() {
            Some(Ok(e)) => {
                let ghost n = next_at(d, c);
                proof {
                    lemma_align_shift(c, (8 + e.key@.len() + e.value@.len() + 1) as nat);
                }
                let raw = 8 + e.key.len() + e.value.len() + 1;
                let size = if raw % 4 == 0 {
                    raw
                } else {
                    raw + (4 - raw % 4)
                };
                total = total + size;
                assert(total == n);
                assert(at_end(d, n) ==> end_from(d, n) == n);
            },
            _ => {
                return total;
            },
        }
    }
}

/// The number of records whose key already occurred earlier in the log,
/// up to the end of the log or the first corrupt record.
pub fn count_duplicates(data: &[u8]) -> (r: usize)
    ensures
        r == duplicates(entries(data@)),
{
    let mut it = Smmstore::from_raw(data);
    let ghost d = data@;
    let mut kv = KeyMap::new();
    let mut dups: usize = 0;
    let n = data.len();
    let ghost mut seen: Seq<(Seq<u8>, Seq<u8>)> = seq![];
    loop
        invariant
            it.wf(),
            it.region() == d,
            d == data@,
            it.cursor() <= d.len(),
            it.cursor() % 4 == 0,
            entries(d) == seen + it.pending(),
            kv@ == merge(seen),
            dups == duplicates(seen),
            dups <= seen.len(),
            !it.finished() ==> seen.len() <= it.cursor(),
            seen.len() <= d.len(),
            d.len() == n,
        decreases it.measure(),
    {
        let ghost c = it.cursor();
        match it.next_entry() {
            Some(Ok(e)) => {
                let ghost pair = e@;
                assert(c + 8 <= d.len());
                assert(seen.len() + 1 <= d.len());
                let ghost before = seen;
                proof {
                    seen = seen.push(pair);
                    assert(seen.drop_last() =~= before);
                    assert(seen + it.pending() =~= before + (seq![pair] + it.pending()));
                }
                if kv.insert(e.key, e.value).is_some() {
                    dups = dups + 1;
                }
            },
            _ => {
                assert(seen + it.pending() =~= seen);
                return dups;
            },
        }
    }
}

/// The map of a raw region: its records stored in order, a later record
/// replacing the value of an earlier one with the same key, up to the end of
/// the log or the first corrupt record.
pub fn deserialize(data: &[u8]) -> (r: KeyMap)
    ensures
        r@ == merge(entries(data@)),
        sorted_keys(r@),
        lengths_fit(r@),
{
    proof {
        lemma_entries_fit(data@, 0);
        lemma_merge_fits(entries(data@));
    }
    let mut it = Smmstore::from_raw(data);
    let ghost d = data@;
    let mut kv = KeyMap::new();
    let ghost mut seen: Seq<(Seq<u8>, Seq<u8>)> = seq![];
    loop
        invariant
            it.wf(),
            it.region() == d,
            d == data@,
            it.cursor() <= d.len(),
            it.cursor() % 4 == 0,
            entries(d) == seen + it.pending(),
            kv@ == merge(seen),
            sorted_keys(kv@),
            lengths_fit(merge(entries(d))),
        decreases it.measure(),
    {
        match it.next_entry() {
            Some(Ok(e)) => {
                let ghost pair = e@;
                let ghost before = seen;
                proof {
                    seen = seen.push(pair);
                    assert(seen.drop_last() =~= before);
                    assert(seen + it.pending() =~= before + (seq![pair] + it.pending()));
                }
                kv.insert(e.key, e.value);
            },
            _ => {
                assert(seen + it.pending() =~= seen);
                return kv;
            },
        }
    }
}

} // verus!
