//! Rewriting a region without superseded records: serialization of the key
//! map, compaction into a buffer of the same capacity, and the rewrite policy.

use vstd::prelude::*;
use crate::analyze::{count_duplicates, duplicates, deserialize, used_size};
use crate::codec::{
    align4, entries, entries_from, key_at, key_len_at, le_u32, next_at, record_at, used, value_at,
    value_len_at,
};
use crate::codec::Entry;
use crate::keymap::{merge, upsert, KeyMap};

verus! {

/// Length of the globally unique identifier that starts every key.
pub const GUID_SIZE: usize = 16;

/// A record worth keeping: its key holds a name beyond the identifier, and
/// its value is not empty.
pub open spec fn storage_worthy(kv: (Seq<u8>, Seq<u8>)) -> bool {
    kv.0.len() > GUID_SIZE && kv.1.len() > 0
}

/// The storage-worthy entries of `s`, in order.
pub open spec fn worthy_entries(s: Seq<(Seq<u8>, Seq<u8>)>) -> Seq<(Seq<u8>, Seq<u8>)>
    decreases s.len(),
{
    if s.len() == 0 {
        seq![]
    } else if storage_worthy(s.last()) {
        worthy_entries(s.drop_last()).push(s.last())
    } else {
        worthy_entries(s.drop_last())
    }
}

/// Every key and value of `s` has a length that a `u32` holds.
pub open spec fn lengths_fit(s: Seq<(Seq<u8>, Seq<u8>)>) -> bool {
    forall|i: int|
        0 <= i < s.len() ==> (#[trigger] s[i]).0.len() <= u32::MAX && s[i].1.len() <= u32::MAX
}

/// The four little-endian bytes of `n`.
#[verifier::opaque]
pub open spec fn le_bytes(n: nat) -> Seq<u8> {
    seq![(n % 256) as u8, (n / 256 % 256) as u8, (n / 65536 % 256) as u8, (n / 16777216 % 256) as u8]
}

proof fn lemma_le_bytes_len(n: nat)
    ensures
        le_bytes(n).len() == 4,
{
    reveal(le_bytes);
}

/// `n` bytes of `0xFF`.
pub open spec fn erased(n: nat) -> Seq<u8> {
    Seq::new(n, |i: int| 0xFFu8)
}

/// One record as stored: lengths, key, value, terminator, padding.
#[verifier::opaque]
pub open spec fn encode_entry(kv: (Seq<u8>, Seq<u8>)) -> Seq<u8> {
    let body = le_bytes(kv.0.len()) + le_bytes(kv.1.len()) + kv.0 + kv.1 + seq![0u8];
    body + erased((align4(body.len()) - body.len()) as nat)
}

/// The records of `s` stored one after the other.
pub open spec fn encode_records(s: Seq<(Seq<u8>, Seq<u8>)>) -> Seq<u8>
    decreases s.len(),
{
    if s.len() == 0 {
        seq![]
    } else {
        encode_records(s.drop_last()) + encode_entry(s.last())
    }
}

/// What `serialize` makes of a map.
pub open spec fn serialized(s: Seq<(Seq<u8>, Seq<u8>)>) -> Seq<u8> {
    encode_records(worthy_entries(s))
}

/// `bytes` at the start of a region of `len` bytes, the rest erased; bytes
/// past the region are cut off.
pub open spec fn fill(bytes: Seq<u8>, len: nat) -> Seq<u8> {
    Seq::new(len, |i: int| if i < bytes.len() { bytes[i] } else { 0xFFu8 })
}

/// What `compact` makes of a region.
pub open spec fn compacted(d: Seq<u8>) -> Seq<u8> {
    fill(serialized(merge(entries(d))), d.len())
}

fn push_u32_le(raw: &mut Vec<u8>, n: u32)
    ensures
        final(raw)@ == old(raw)@ + le_bytes(n as nat),
{
    reveal(le_bytes);
    raw.push((n % 256) as u8);
    raw.push((n / 256 % 256) as u8);
    raw.push((n / 65536 % 256) as u8);
    raw.push((n / 16777216 % 256) as u8);
    assert(final(raw)@ =~= old(raw)@ + le_bytes(n as nat));
}

fn push_all(raw: &mut Vec<u8>, b: &[u8])
    ensures
        final(raw)@ == old(raw)@ + b@,
{
    let ghost start = raw@;
    let mut i: usize = 0;
    while i < b.len()
        invariant
            i <= b@.len(),
            raw@ == start + b@.subrange(0, i as int),
        decreases b.len() - i,
    {
        raw.push(b[i]);
        i = i + 1;
        assert(raw@ =~= start + b@.subrange(0, i as int));
    }
    assert(b@.subrange(0, i as int) =~= b@);
}

proof fn lemma_pad(k: nat, v: nat)
    ensures
        (9 + k + v) % 4 == (1 + k % 4 + v % 4) % 4,
{
    assert((9 + k + v) % 4 == (1 + k % 4 + v % 4) % 4) by (nonlinear_arith);
}

fn push_entry(raw: &mut Vec<u8>, key: &[u8], value: &[u8])
    requires
        key@.len() <= u32::MAX,
        value@.len() <= u32::MAX,
    ensures
        final(raw)@ == old(raw)@ + encode_entry((key@, value@)),
{
    let ghost start = raw@;
    push_u32_le(raw, key.len() as u32);
    push_u32_le(raw, value.len() as u32);
    push_all(raw, key);
    push_all(raw, value);
    raw.push(0);
    let ghost body = le_bytes(key@.len()) + le_bytes(value@.len()) + key@ + value@ + seq![0u8];
    assert(raw@ =~= start + body);
    let b = 1 + key.len() % 4 + value.len() % 4;
    proof {
        lemma_pad(key@.len(), value@.len());
        lemma_le_bytes_len(key@.len());
        lemma_le_bytes_len(value@.len());
        assert(body.len() == 9 + key@.len() + value@.len());
    }
    let pad: usize = if b % 4 == 0 {
        0
    } else {
        4 - b % 4
    };
    assert(pad == align4(body.len()) - body.len());
    let mut j: usize = 0;
    while j < pad
        invariant
            j <= pad,
            raw@ == start + body + erased(j as nat),
        decreases pad - j,
    {
        raw.push(0xFF);
        j = j + 1;
        assert(raw@ =~= start + body + erased(j as nat));
    }
    reveal(encode_entry);
    assert(start + encode_entry((key@, value@)) =~= start + body + erased(pad as nat));
}

/// The storage-worthy entries of `map`, in key order, as stored records.
pub fn serialize(map: KeyMap) -> (r: Vec<u8>)
    requires
        lengths_fit(map@),
    ensures
        r@ == serialized(map@),
{
    let mut raw: Vec<u8> = Vec::new();
    let n = map.len();
    let mut i: usize = 0;
    assert(map@.take(0) =~= Seq::<(Seq<u8>, Seq<u8>)>::empty());
    while i < n
        invariant
            n == map@.len(),
            i <= n,
            lengths_fit(map@),
            raw@ == serialized(map@.take(i as int)),
        decreases n - i,
    {
        let e = map.get(i);
        assert(map@.take(i as int + 1).drop_last() =~= map@.take(i as int));
        assert(map@.take(i as int + 1).last() == e@);
        assert(map@[i as int] == e@);
        let ghost w = worthy_entries(map@.take(i as int));
        if e.key.len() > GUID_SIZE && e.value.len() > 0 {
            push_entry(&mut raw, e.key.as_slice(), e.value.as_slice());
            assert(w.push(e@).drop_last() =~= w);
        }
        i = i + 1;
    }
    assert(map@.take(n as int) =~= map@);
    raw
}

proof fn lemma_le_u32_max(d: Seq<u8>, at: int)
    ensures
        le_u32(d, at) <= u32::MAX,
{
    reveal(le_u32);
}

pub(crate) proof fn lemma_entries_fit(d: Seq<u8>, off: nat)
    ensures
        lengths_fit(entries_from(d, off)),
    decreases d.len() + 8 - off,
{
    if record_at(d, off) {
        lemma_entries_fit(d, next_at(d, off));
        lemma_le_u32_max(d, off as int);
        lemma_le_u32_max(d, off + 4int);
        let s = entries_from(d, off);
        assert(key_at(d, off).len() == key_len_at(d, off));
        assert(value_at(d, off).len() == value_len_at(d, off));
        assert forall|i: int| 0 <= i < s.len() implies (#[trigger] s[i]).0.len() <= u32::MAX
            && s[i].1.len() <= u32::MAX by {
            if i > 0 {
                assert(s[i] == entries_from(d, next_at(d, off))[i - 1]);
            }
        }
    }
}

proof fn lemma_upsert_fits(s: Seq<(Seq<u8>, Seq<u8>)>, k: Seq<u8>, v: Seq<u8>)
    requires
        lengths_fit(s),
        k.len() <= u32::MAX,
        v.len() <= u32::MAX,
    ensures
        lengths_fit(upsert(s, k, v)),
    decreases s.len(),
{
    let u = upsert(s, k, v);
    if s.len() > 0 {
        let t = s.drop_first();
        lemma_upsert_fits(t, k, v);
        assert forall|i: int| 0 <= i < u.len() implies (#[trigger] u[i]).0.len() <= u32::MAX
            && u[i].1.len() <= u32::MAX by {
            if i > 0 {
                assert(s[i - 1] == s[i - 1]);
                assert(t.len() > 0 ==> t[0] == s[1]);
                if u == seq![s[0]] + upsert(t, k, v) {
                    assert(u[i] == upsert(t, k, v)[i - 1]);
                } else if u == seq![(k, v)] + s {
                    assert(u[i] == s[i - 1]);
                } else {
                    assert(u[i] == t[i - 1]);
                }
            }
        }
    }
}

/// A map built from records with `u32` lengths has `u32` lengths.
pub proof fn lemma_merge_fits(es: Seq<(Seq<u8>, Seq<u8>)>)
    requires
        lengths_fit(es),
    ensures
        lengths_fit(merge(es)),
    decreases es.len(),
{
    if es.len() > 0 {
        let p = es.drop_last();
        assert(lengths_fit(p)) by {
            assert forall|i: int| 0 <= i < p.len() implies (#[trigger] p[i]).0.len() <= u32::MAX
                && p[i].1.len() <= u32::MAX by {
                assert(p[i] == es[i]);
            }
        }
        lemma_merge_fits(p);
        assert(es.last() == es[es.len() - 1]);
        lemma_upsert_fits(merge(p), es.last().0, es.last().1);
    }
}

/// A region of the same size as `data`, holding the storage-worthy entries
/// of its map in key order, erased after them.
pub fn compact(data: &[u8]) -> (r: Vec<u8>)
    ensures
        r@ == compacted(data@),
{
    let map = deserialize(data);
    let bytes = serialize(map);
    let n = data.len();
    let mut out: Vec<u8> = Vec::with_capacity(n);
    let mut i: usize = 0;
    while i < n
        invariant
            i <= n,
            n == data@.len(),
            bytes@ == serialized(merge(entries(data@))),
            out@ == fill(bytes@, n as nat).take(i as int),
        decreases n - i,
    {
        if i < bytes.len() {
            out.push(bytes[i]);
        } else {
            out.push(0xFF);
        }
        i = i + 1;
        assert(out@ =~= fill(bytes@, n as nat).take(i as int));
    }
    assert(out@ =~= compacted(data@));
    out
}

/// The duplicate-count threshold of the boot-time rewrite in the firmware
/// payload; another generation used four.
pub const DEFAULT_DUPLICATE_THRESHOLD: usize = 16;

/// The rewrite policy: half of the region is used, or at least `threshold`
/// records repeat an earlier key.
pub open spec fn rewrite_due(d: Seq<u8>, threshold: nat) -> bool {
    used(d) >= d.len() / 2 || duplicates(entries(d)) >= threshold
}

/// Whether the region in `data` should be rewritten.
pub fn needs_rewrite(data: &[u8], duplicate_threshold: usize) -> (r: bool)
    requires
        data@.len() + 3 <= usize::MAX,
    ensures
        r == rewrite_due(data@, duplicate_threshold as nat),
{
    used_size(data) >= data.len() / 2 || count_duplicates(data) >= duplicate_threshold
}

/// One call to the store service.
#[derive(Debug)]
pub enum Command {
    /// Erase the region.
    Clear,
    /// Append one record.
    Append { key: Vec<u8>, value: Vec<u8> },
}

impl View for Command {
    /// `None` for a clear, the record for an append.
    type V = Option<(Seq<u8>, Seq<u8>)>;

    open spec fn view(&self) -> Option<(Seq<u8>, Seq<u8>)> {
        match self {
            Command::Clear => None,
            Command::Append { key, value } => Some((key@, value@)),
        }
    }
}

/// The appends that store `s`.
pub open spec fn appends(s: Seq<(Seq<u8>, Seq<u8>)>) -> Seq<Option<(Seq<u8>, Seq<u8>)>> {
    s.map_values(|kv: (Seq<u8>, Seq<u8>)| Some(kv))
}

/// The calls that rewrite a region: none where the policy does not ask for
/// it, else a clear and then one append per storage-worthy entry of the map,
/// in key order.
pub open spec fn rewrite_plan(d: Seq<u8>, threshold: nat) -> Seq<Option<(Seq<u8>, Seq<u8>)>> {
    if rewrite_due(d, threshold) {
        seq![None] + appends(worthy_entries(merge(entries(d))))
    } else {
        seq![]
    }
}

/// The calls to make to the store service for the region in `data`, to be
/// issued in order, stopping at the first failure.
pub fn rewrite_commands(data: &[u8], duplicate_threshold: usize) -> (r: Vec<Command>)
    requires
        data@.len() + 3 <= usize::MAX,
    ensures
        r@.map_values(|c: Command| c@) == rewrite_plan(data@, duplicate_threshold as nat),
{
    let mut out: Vec<Command> = Vec::new();
    if !needs_rewrite(data, duplicate_threshold) {
        assert(out@.map_values(|c: Command| c@) =~= rewrite_plan(
            data@,
            duplicate_threshold as nat,
        ));
        return out;
    }
    out.push(Command::Clear);
    let mut list = deserialize(data).into_entries();
    let ghost all = merge(entries(data@));
    let n = list.len();
    let mut i: usize = 0;
    assert(all.take(0) =~= Seq::<(Seq<u8>, Seq<u8>)>::empty());
    assert(out@.map_values(|c: Command| c@) =~= seq![None] + appends(worthy_entries(all.take(0))));
    while i < n
        invariant
            n == list@.len(),
            n == all.len(),
            i <= n,
            forall|j: int| i <= j < n ==> (#[trigger] list@[j])@ == all[j],
            out@.map_values(|c: Command| c@) == seq![None] + appends(worthy_entries(all.take(i as int))),
        decreases n - i,
    {
        let mut e = Entry { key: Vec::new(), value: Vec::new() };
        assert(list@[i as int]@ == all[i as int]);
        std::mem::swap(&mut list[i], &mut e);
        let ghost w = worthy_entries(all.take(i as int));
        let ghost before = out@.map_values(|c: Command| c@);
        assert(all.take(i as int + 1).drop_last() =~= all.take(i as int));
        assert(all.take(i as int + 1).last() == e@);
        if e.key.len() > GUID_SIZE && e.value.len() > 0 {
            let ghost kv = e@;
            out.push(Command::Append { key: e.key, value: e.value });
            assert(out@.map_values(|c: Command| c@) =~= before.push(Some(kv)));
            assert(appends(w.push(kv)) =~= appends(w).push(Some(kv)));
        }
        i = i + 1;
    }
    assert(all.take(n as int) =~= all);
    out
}

} // verus!
