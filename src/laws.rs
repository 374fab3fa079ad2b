//! Properties of the codec, the analyzer and compaction over whole regions.

use vstd::prelude::*;
use crate::analyze::duplicates;
use crate::codec::{
    align4, end_from, entries, entries_from, key_at, key_len_at, le_u32, next_at, record_at,
    terminator_at, used, value_at, value_len_at,
};
use crate::compaction::{
    appends, compacted, encode_entry, encode_records, fill, le_bytes, rewrite_due, rewrite_plan,
    serialized, storage_worthy, worthy_entries,
};
use crate::keymap::{
    has_key, lemma_lex_irreflexive, lemma_lex_transitive, lemma_upsert_sorted, lex_lt, merge,
    sorted_keys, upsert,
};

verus! {

/// Keys that a record header can carry (not a sentinel), values whose
/// length fits the header.
pub open spec fn decodable(s: Seq<(Seq<u8>, Seq<u8>)>) -> bool {
    forall|i: int|
        0 <= i < s.len() ==> 0 < (#[trigger] s[i]).0.len() < u32::MAX && s[i].1.len()
            <= u32::MAX
}

/// Every entry of `s` is storage-worthy.
pub open spec fn all_worthy(s: Seq<(Seq<u8>, Seq<u8>)>) -> bool {
    forall|i: int| 0 <= i < s.len() ==> storage_worthy(#[trigger] s[i])
}

proof fn lemma_le_round_trip(n: nat)
    requires
        n <= u32::MAX,
    ensures
        le_u32(le_bytes(n), 0) == n,
{
    reveal(le_u32);
    reveal(le_bytes);
    let b = le_bytes(n);
    assert(b[0] as nat + (b[1] as nat) * 256 + (b[2] as nat) * 65536 + (b[3] as nat) * 16777216
        == n) by (nonlinear_arith)
        requires
            n <= u32::MAX,
            b[0] as nat == n % 256,
            b[1] as nat == n / 256 % 256,
            b[2] as nat == n / 65536 % 256,
            b[3] as nat == n / 16777216 % 256,
    ;
}

proof fn lemma_encode_concat(a: Seq<(Seq<u8>, Seq<u8>)>, b: Seq<(Seq<u8>, Seq<u8>)>)
    ensures
        encode_records(a + b) == encode_records(a) + encode_records(b),
    decreases b.len(),
{
    if b.len() == 0 {
        assert(a + b =~= a);
        assert(encode_records(a) + encode_records(b) =~= encode_records(a));
    } else {
        assert((a + b).drop_last() =~= a + b.drop_last());
        assert((a + b).last() == b.last());
        lemma_encode_concat(a, b.drop_last());
        assert(encode_records(a + b) =~= encode_records(a) + encode_records(b));
    }
}

proof fn lemma_encode_front(x: (Seq<u8>, Seq<u8>), s: Seq<(Seq<u8>, Seq<u8>)>)
    ensures
        encode_records(seq![x] + s) == encode_entry(x) + encode_records(s),
{
    lemma_encode_concat(seq![x], s);
    let e = seq![x];
    assert(e.drop_last() =~= Seq::<(Seq<u8>, Seq<u8>)>::empty());
    assert(e.last() == x);
    assert(encode_records(e.drop_last()) =~= Seq::<u8>::empty());
    assert(encode_records(e) =~= encode_entry(x));
}

proof fn lemma_entry_len(x: (Seq<u8>, Seq<u8>))
    ensures
        encode_entry(x).len() == align4((9 + x.0.len() + x.1.len()) as nat),
        encode_entry(x).len() % 4 == 0,
        encode_entry(x).len() >= 9 + x.0.len() + x.1.len(),
{
    reveal(le_bytes);
    reveal(encode_entry);
}

proof fn lemma_encode_len_aligned(s: Seq<(Seq<u8>, Seq<u8>)>)
    ensures
        encode_records(s).len() % 4 == 0,
    decreases s.len(),
{
    if s.len() > 0 {
        lemma_encode_len_aligned(s.drop_last());
        lemma_entry_len(s.last());
    }
}

proof fn lemma_step(d: Seq<u8>, off: nat)
    requires
        off % 4 == 0,
        record_at(d, off),
    ensures
        next_at(d, off) == off + encode_entry((key_at(d, off), value_at(d, off))).len(),
        next_at(d, off) % 4 == 0,
        d.len() % 4 == 0 ==> next_at(d, off) <= d.len(),
        next_at(d, off) <= d.len() + 3,
        entries_from(d, off) == seq![(key_at(d, off), value_at(d, off))] + entries_from(
            d,
            next_at(d, off),
        ),
        end_from(d, off) == end_from(d, next_at(d, off)),
{
    let x = (key_at(d, off), value_at(d, off));
    lemma_entry_len(x);
    assert(x.0.len() == key_len_at(d, off));
    assert(x.1.len() == value_len_at(d, off));
    assert(terminator_at(d, off) < d.len());
}

proof fn lemma_end_from(d: Seq<u8>, off: nat)
    requires
        off % 4 == 0,
        off <= d.len(),
    ensures
        end_from(d, off) == off + encode_records(entries_from(d, off)).len(),
        d.len() % 4 == 0 ==> end_from(d, off) <= d.len(),
    decreases d.len() + 8 - off,
{
    if record_at(d, off) {
        let x = (key_at(d, off), value_at(d, off));
        let n = next_at(d, off);
        lemma_step(d, off);
        if n <= d.len() {
            lemma_end_from(d, n);
        } else {
            assert(!record_at(d, n));
            assert(entries_from(d, n) =~= Seq::<(Seq<u8>, Seq<u8>)>::empty());
            assert(encode_records(entries_from(d, n)) =~= Seq::<u8>::empty());
        }
        lemma_encode_front(x, entries_from(d, n));
    } else {
        assert(entries_from(d, off) =~= Seq::<(Seq<u8>, Seq<u8>)>::empty());
        assert(encode_records(entries_from(d, off)) =~= Seq::<u8>::empty());
    }
}

/// The used size of a region is where its last record ends: the total size
/// of the records decoded from it. In a region whose length is a multiple of
/// four it stays within the region (elsewhere the padding of the last record
/// may reach past the end).
pub proof fn law_used_size(x: Seq<u8>)
    ensures
        used(x) == encode_records(entries(x)).len(),
        x.len() % 4 == 0 ==> used(x) <= x.len(),
{
    lemma_end_from(x, 0);
}

proof fn lemma_upsert_len(s: Seq<(Seq<u8>, Seq<u8>)>, k: Seq<u8>, v: Seq<u8>)
    requires
        sorted_keys(s),
    ensures
        upsert(s, k, v).len() == s.len() + if has_key(s, k) {
            0int
        } else {
            1int
        },
    decreases s.len(),
{
    if s.len() > 0 {
        let t = s.drop_first();
        if s[0].0 == k {
            assert(s[0].0 == k);
        } else if lex_lt(k, s[0].0) {
            if has_key(s, k) {
                let j = choose|j: int| 0 <= j < s.len() && #[trigger] s[j].0 == k;
                if j > 0 {
                    lemma_lex_transitive(k, s[0].0, s[j].0);
                }
                lemma_lex_irreflexive(k);
            }
        } else {
            lemma_upsert_len(t, k, v);
            if has_key(s, k) {
                let j = choose|j: int| 0 <= j < s.len() && #[trigger] s[j].0 == k;
                assert(t[j - 1].0 == k);
            }
            if has_key(t, k) {
                let j = choose|j: int| 0 <= j < t.len() && #[trigger] t[j].0 == k;
                assert(s[j + 1].0 == k);
            }
        }
    }
}

/// The map of any sequence of records is sorted by key.
pub proof fn lemma_merge_sorted(es: Seq<(Seq<u8>, Seq<u8>)>)
    ensures
        sorted_keys(merge(es)),
    decreases es.len(),
{
    if es.len() > 0 {
        lemma_merge_sorted(es.drop_last());
        lemma_upsert_sorted(merge(es.drop_last()), es.last().0, es.last().1);
    }
}

proof fn lemma_duplicates(es: Seq<(Seq<u8>, Seq<u8>)>)
    ensures
        duplicates(es) + merge(es).len() == es.len(),
    decreases es.len(),
{
    if es.len() > 0 {
        let p = es.drop_last();
        lemma_duplicates(p);
        lemma_merge_sorted(p);
        lemma_upsert_len(merge(p), es.last().0, es.last().1);
    }
}

/// The number of duplicates is the number of records decoded less the
/// number of keys in the map built from them.
pub proof fn law_duplicate_count(x: Seq<u8>)
    ensures
        duplicates(entries(x)) == entries(x).len() - merge(entries(x)).len(),
{
    lemma_duplicates(entries(x));
}

/// Every entry of `a` is an entry of `b`.
pub open spec fn drawn_from(a: Seq<(Seq<u8>, Seq<u8>)>, b: Seq<(Seq<u8>, Seq<u8>)>) -> bool {
    forall|i: int|
        #![trigger a[i]]
        0 <= i < a.len() ==> exists|j: int| #![trigger b[j]] 0 <= j < b.len() && a[i] == b[j]
}

proof fn lemma_upsert_drawn(s: Seq<(Seq<u8>, Seq<u8>)>, k: Seq<u8>, v: Seq<u8>)
    ensures
        drawn_from(upsert(s, k, v), s.push((k, v))),
    decreases s.len(),
{
    let u = upsert(s, k, v);
    let sp = s.push((k, v));
    assert(sp[s.len() as int] == (k, v));
    if s.len() > 0 {
        let t = s.drop_first();
        lemma_upsert_drawn(t, k, v);
        assert forall|i: int| 0 <= i < u.len() implies exists|j: int|
            0 <= j < sp.len() && #[trigger] u[i] == sp[j] by {
            if s[0].0 == k {
                if i > 0 {
                    assert(u[i] == sp[i]);
                }
            } else if lex_lt(k, s[0].0) {
                if i > 0 {
                    assert(u[i] == sp[i - 1]);
                }
            } else {
                if i == 0 {
                    assert(u[i] == sp[0]);
                } else {
                    let w = upsert(t, k, v);
                    assert(u[i] == w[i - 1]);
                    let j = choose|j: int| 0 <= j < t.len() + 1 && w[i - 1] == #[trigger] t.push((k, v))[j];
                    if j < t.len() {
                        assert(u[i] == sp[j + 1]);
                    } else {
                        assert(u[i] == sp[s.len() as int]);
                    }
                }
            }
        }
    }
}

proof fn lemma_merge_drawn(es: Seq<(Seq<u8>, Seq<u8>)>)
    ensures
        drawn_from(merge(es), es),
    decreases es.len(),
{
    if es.len() > 0 {
        let p = es.drop_last();
        let m = merge(p);
        lemma_merge_drawn(p);
        lemma_upsert_drawn(m, es.last().0, es.last().1);
        assert(p.push(es.last()) =~= es);
        let mp = m.push((es.last().0, es.last().1));
        let u = merge(es);
        assert forall|i: int| #![trigger u[i]] 0 <= i < u.len() implies exists|j: int|
            #![trigger es[j]]
            0 <= j < es.len() && u[i] == es[j] by {
            let ui = u[i];
            assert(exists|j1: int| #![trigger mp[j1]] 0 <= j1 < mp.len() && ui == mp[j1]);
            let j1 = choose|j1: int| 0 <= j1 < mp.len() && ui == mp[j1];
            if j1 < m.len() {
                let mj = m[j1];
                assert(exists|j: int| #![trigger p[j]] 0 <= j < p.len() && mj == p[j]);
                let j = choose|j: int| 0 <= j < p.len() && mj == p[j];
                assert(ui == es[j]);
            } else {
                assert(ui == es[es.len() - 1]);
            }
        }
    }
}

proof fn lemma_worthy_drawn(s: Seq<(Seq<u8>, Seq<u8>)>)
    ensures
        forall|i: int|
            0 <= i < worthy_entries(s).len() ==> exists|j: int|
                0 <= j < s.len() && #[trigger] worthy_entries(s)[i] == s[j],
        all_worthy(worthy_entries(s)),
        worthy_entries(s).len() <= s.len(),
    decreases s.len(),
{
    if s.len() > 0 {
        let p = s.drop_last();
        lemma_worthy_drawn(p);
        let w = worthy_entries(s);
        let wp = worthy_entries(p);
        assert forall|i: int| 0 <= i < w.len() implies exists|j: int|
            0 <= j < s.len() && #[trigger] w[i] == s[j] by {
            if i < wp.len() {
                let j = choose|j: int| 0 <= j < p.len() && wp[i] == p[j];
                assert(w[i] == s[j]);
            } else {
                assert(w[i] == s[s.len() - 1]);
            }
        }
        assert forall|i: int| 0 <= i < w.len() implies storage_worthy(#[trigger] w[i]) by {
            if i < wp.len() {
                assert(w[i] == wp[i]);
            }
        }
    }
}

proof fn lemma_worthy_sorted(s: Seq<(Seq<u8>, Seq<u8>)>)
    requires
        sorted_keys(s),
    ensures
        sorted_keys(worthy_entries(s)),
    decreases s.len(),
{
    if s.len() > 0 {
        let p = s.drop_last();
        assert(sorted_keys(p)) by {
            assert forall|i: int, j: int| 0 <= i < j < p.len() implies lex_lt(
                #[trigger] p[i].0,
                #[trigger] p[j].0,
            ) by {
                assert(p[i] == s[i] && p[j] == s[j]);
            }
        }
        lemma_worthy_sorted(p);
        lemma_worthy_drawn(p);
        let w = worthy_entries(s);
        let wp = worthy_entries(p);
        assert forall|i: int, j: int| 0 <= i < j < w.len() implies lex_lt(
            #[trigger] w[i].0,
            #[trigger] w[j].0,
        ) by {
            if j >= wp.len() {
                let l = choose|l: int| 0 <= l < p.len() && wp[i] == p[l];
                assert(w[i] == s[l]);
                assert(w[j] == s[s.len() - 1]);
            } else {
                assert(w[i] == wp[i] && w[j] == wp[j]);
            }
        }
    }
}

proof fn lemma_worthy_identity(s: Seq<(Seq<u8>, Seq<u8>)>)
    requires
        all_worthy(s),
    ensures
        worthy_entries(s) == s,
    decreases s.len(),
{
    if s.len() > 0 {
        let p = s.drop_last();
        assert(all_worthy(p)) by {
            assert forall|i: int| 0 <= i < p.len() implies storage_worthy(#[trigger] p[i]) by {
                assert(p[i] == s[i]);
            }
        }
        lemma_worthy_identity(p);
        assert(storage_worthy(s[s.len() - 1]));
        assert(p.push(s.last()) =~= s);
    }
}

proof fn lemma_upsert_append(s: Seq<(Seq<u8>, Seq<u8>)>, k: Seq<u8>, v: Seq<u8>)
    requires
        forall|i: int| 0 <= i < s.len() ==> lex_lt(#[trigger] s[i].0, k),
    ensures
        upsert(s, k, v) == s.push((k, v)),
    decreases s.len(),
{
    if s.len() > 0 {
        let t = s.drop_first();
        assert(lex_lt(s[0].0, k));
        lemma_lex_irreflexive(k);
        if lex_lt(k, s[0].0) {
            lemma_lex_transitive(k, s[0].0, k);
        }
        assert forall|i: int| 0 <= i < t.len() implies lex_lt(#[trigger] t[i].0, k) by {
            assert(t[i] == s[i + 1]);
        }
        lemma_upsert_append(t, k, v);
        assert(seq![s[0]] + t.push((k, v)) =~= s.push((k, v)));
    }
}

proof fn lemma_merge_identity(s: Seq<(Seq<u8>, Seq<u8>)>)
    requires
        sorted_keys(s),
    ensures
        merge(s) == s,
    decreases s.len(),
{
    if s.len() > 0 {
        let p = s.drop_last();
        assert(sorted_keys(p)) by {
            assert forall|i: int, j: int| 0 <= i < j < p.len() implies lex_lt(
                #[trigger] p[i].0,
                #[trigger] p[j].0,
            ) by {
                assert(p[i] == s[i] && p[j] == s[j]);
            }
        }
        lemma_merge_identity(p);
        assert forall|i: int| 0 <= i < p.len() implies lex_lt(#[trigger] p[i].0, s.last().0) by {
            assert(p[i] == s[i]);
        }
        lemma_upsert_append(p, s.last().0, s.last().1);
        assert(p.push((s.last().0, s.last().1)) =~= s);
    }
}

proof fn lemma_upsert_size(s: Seq<(Seq<u8>, Seq<u8>)>, k: Seq<u8>, v: Seq<u8>)
    ensures
        encode_records(upsert(s, k, v)).len() <= encode_records(s).len() + encode_entry(
            (k, v),
        ).len(),
    decreases s.len(),
{
    let x = (k, v);
    if s.len() == 0 {
        lemma_encode_front(x, s);
    } else {
        let t = s.drop_first();
        assert(s =~= seq![s[0]] + t);
        lemma_encode_front(s[0], t);
        if s[0].0 == k {
            lemma_encode_front(x, t);
        } else if lex_lt(k, s[0].0) {
            lemma_encode_front(x, s);
        } else {
            lemma_upsert_size(t, k, v);
            lemma_encode_front(s[0], upsert(t, k, v));
        }
    }
}

proof fn lemma_merge_size(es: Seq<(Seq<u8>, Seq<u8>)>)
    ensures
        encode_records(merge(es)).len() <= encode_records(es).len(),
    decreases es.len(),
{
    if es.len() > 0 {
        let p = es.drop_last();
        lemma_merge_size(p);
        lemma_upsert_size(merge(p), es.last().0, es.last().1);
    }
}

proof fn lemma_worthy_size(s: Seq<(Seq<u8>, Seq<u8>)>)
    ensures
        encode_records(worthy_entries(s)).len() <= encode_records(s).len(),
    decreases s.len(),
{
    if s.len() > 0 {
        let p = s.drop_last();
        lemma_worthy_size(p);
        let wp = worthy_entries(p);
        if storage_worthy(s.last()) {
            assert(wp.push(s.last()).drop_last() =~= wp);
        }
    }
}

proof fn lemma_entries_decodable(d: Seq<u8>, off: nat)
    ensures
        decodable(entries_from(d, off)),
    decreases d.len() + 8 - off,
{
    if record_at(d, off) {
        lemma_entries_decodable(d, next_at(d, off));
        reveal(le_u32);
        let s = entries_from(d, off);
        assert(key_at(d, off).len() == key_len_at(d, off));
        assert(value_at(d, off).len() == value_len_at(d, off));
        assert forall|i: int| 0 <= i < s.len() implies 0 < (#[trigger] s[i]).0.len() < u32::MAX
            && s[i].1.len() <= u32::MAX by {
            if i > 0 {
                assert(s[i] == entries_from(d, next_at(d, off))[i - 1]);
            }
        }
    }
}

proof fn lemma_le_u32_frame(d1: Seq<u8>, a1: int, d2: Seq<u8>, a2: int)
    requires
        d1[a1] == d2[a2],
        d1[a1 + 1] == d2[a2 + 1],
        d1[a1 + 2] == d2[a2 + 2],
        d1[a1 + 3] == d2[a2 + 3],
    ensures
        le_u32(d1, a1) == le_u32(d2, a2),
{
    reveal(le_u32);
}

proof fn lemma_entry_bytes(x: (Seq<u8>, Seq<u8>))
    requires
        x.0.len() <= u32::MAX,
        x.1.len() <= u32::MAX,
    ensures
        le_u32(encode_entry(x), 0) == x.0.len(),
        le_u32(encode_entry(x), 4) == x.1.len(),
        encode_entry(x).subrange(8, 8int + x.0.len()) == x.0,
        encode_entry(x).subrange(8int + x.0.len(), 8int + x.0.len() + x.1.len()) == x.1,
        encode_entry(x)[8int + x.0.len() + x.1.len()] == 0,
{
    reveal(encode_entry);
    let e = encode_entry(x);
    let k = x.0.len() as int;
    let v = x.1.len() as int;
    let lk = le_bytes(k as nat);
    let lv = le_bytes(v as nat);
    lemma_entry_len(x);
    reveal(le_bytes);
    lemma_le_round_trip(k as nat);
    lemma_le_round_trip(v as nat);
    lemma_le_u32_frame(e, 0, lk, 0);
    lemma_le_u32_frame(e, 4, lv, 0);
    assert(e.subrange(8, 8 + k) =~= x.0);
    assert(e.subrange(8 + k, 8 + k + v) =~= x.1);
}

proof fn lemma_header_in(d: Seq<u8>, o: nat, x: (Seq<u8>, Seq<u8>), e: Seq<u8>)
    requires
        x.0.len() <= u32::MAX,
        x.1.len() <= u32::MAX,
        e == encode_entry(x),
        o + e.len() <= d.len(),
        forall|j: int| 0 <= j < e.len() ==> d[o + j] == #[trigger] e[j],
    ensures
        key_len_at(d, o) == x.0.len(),
        value_len_at(d, o) == x.1.len(),
        terminator_at(d, o) < d.len(),
        d[terminator_at(d, o) as int] == 0,
        key_at(d, o) == x.0,
        value_at(d, o) == x.1,
{
    lemma_entry_bytes(x);
    lemma_entry_len(x);
    let oi = o as int;
    let k = x.0.len() as int;
    let v = x.1.len() as int;
    assert(d[oi] == e[0] && d[oi + 1] == e[1] && d[oi + 2] == e[2] && d[oi + 3] == e[3]);
    lemma_le_u32_frame(d, oi, e, 0);
    assert(d[oi + 4] == e[4] && d[oi + 5] == e[5] && d[oi + 6] == e[6] && d[oi + 7] == e[7]);
    lemma_le_u32_frame(d, oi + 4, e, 4);
    assert(d[oi + 8 + k + v] == e[8 + k + v]);
    assert(key_at(d, o) =~= e.subrange(8, 8 + k));
    assert(value_at(d, o) =~= e.subrange(8 + k, 8 + k + v));
}

proof fn lemma_record_in(d: Seq<u8>, o: nat, x: (Seq<u8>, Seq<u8>))
    requires
        0 < x.0.len() < u32::MAX,
        x.1.len() <= u32::MAX,
        o % 4 == 0,
        o + encode_entry(x).len() <= d.len(),
        forall|j: int| 0 <= j < encode_entry(x).len() ==> d[o + j] == #[trigger] encode_entry(x)[j],
    ensures
        entries_from(d, o) == seq![x] + entries_from(d, o + encode_entry(x).len()),
{
    let e = encode_entry(x);
    lemma_header_in(d, o, x, e);
    lemma_entry_len(x);
    assert(record_at(d, o));
    lemma_step(d, o);
}

proof fn lemma_erased_end(d: Seq<u8>, o: nat)
    requires
        forall|j: int| o <= j < d.len() ==> #[trigger] d[j] == 0xFF,
    ensures
        entries_from(d, o) == Seq::<(Seq<u8>, Seq<u8>)>::empty(),
{
    if o + 8 <= d.len() {
        reveal(le_u32);
        assert(d[o as int] == 0xFF && d[o + 1int] == 0xFF && d[o + 2int] == 0xFF && d[o + 3int] == 0xFF);
        assert(le_u32(d, o as int) == 0xFFFF_FFFF);
    }
    assert(!record_at(d, o));
}

proof fn lemma_decode_from(es: Seq<(Seq<u8>, Seq<u8>)>, len: nat, i: int)
    requires
        decodable(es),
        0 <= i <= es.len(),
        encode_records(es).len() <= len,
    ensures
        entries_from(fill(encode_records(es), len), encode_records(es.take(i)).len()) == es.skip(
            i,
        ),
    decreases es.len() - i,
{
    let full = encode_records(es);
    let d = fill(full, len);
    let o = encode_records(es.take(i)).len();
    lemma_encode_len_aligned(es.take(i));
    if i == es.len() {
        assert(es.take(i) =~= es);
        lemma_erased_end(d, o);
        assert(es.skip(i) =~= Seq::<(Seq<u8>, Seq<u8>)>::empty());
    } else {
        let x = es[i];
        let rest = es.skip(i + 1);
        assert(es =~= es.take(i) + (seq![x] + rest));
        lemma_encode_concat(es.take(i), seq![x] + rest);
        lemma_encode_front(x, rest);
        let e = encode_entry(x);
        assert(full =~= encode_records(es.take(i)) + (e + encode_records(rest)));
        assert forall|j: int| 0 <= j < e.len() implies d[o + j] == #[trigger] e[j] by {
            assert(full[o + j] == e[j]);
        }
        assert(0 < x.0.len() < u32::MAX && x.1.len() <= u32::MAX);
        lemma_record_in(d, o, x);
        assert(es.take(i + 1).drop_last() =~= es.take(i));
        assert(es.take(i + 1).last() == x);
        lemma_decode_from(es, len, i + 1);
        assert(es.skip(i) =~= seq![x] + rest);
    }
}

/// A region laid out from records with valid lengths decodes to exactly
/// those records.
pub proof fn lemma_decode_encoded(es: Seq<(Seq<u8>, Seq<u8>)>, len: nat)
    requires
        decodable(es),
        encode_records(es).len() <= len,
    ensures
        entries(fill(encode_records(es), len)) == es,
{
    lemma_decode_from(es, len, 0);
    assert(es.take(0) =~= Seq::<(Seq<u8>, Seq<u8>)>::empty());
    assert(es.skip(0) =~= es);
}

proof fn lemma_compacted_parts(x: Seq<u8>)
    requires
        x.len() % 4 == 0,
    ensures
        decodable(worthy_entries(merge(entries(x)))),
        all_worthy(worthy_entries(merge(entries(x)))),
        sorted_keys(worthy_entries(merge(entries(x)))),
        encode_records(worthy_entries(merge(entries(x)))).len() <= x.len(),
{
    let es = entries(x);
    let m = merge(es);
    let w = worthy_entries(m);
    law_used_size(x);
    lemma_merge_size(es);
    lemma_worthy_size(m);
    lemma_entries_decodable(x, 0);
    lemma_merge_drawn(es);
    lemma_worthy_drawn(m);
    lemma_merge_sorted(es);
    lemma_worthy_sorted(m);
    assert forall|i: int| 0 <= i < w.len() implies 0 < (#[trigger] w[i]).0.len() < u32::MAX
        && w[i].1.len() <= u32::MAX by {
        let wi = w[i];
        let j = choose|j: int| 0 <= j < m.len() && #[trigger] w[i] == m[j];
        let mj = m[j];
        assert(exists|l: int| #![trigger es[l]] 0 <= l < es.len() && mj == es[l]);
        let l = choose|l: int| 0 <= l < es.len() && mj == es[l];
        assert(wi == es[l]);
    }
}

/// Compaction keeps exactly the storage-worthy entries of the map, in key
/// order: decoding a compacted region gives them back, and their records
/// fit in the region, for any region whose length is a multiple of four.
pub proof fn law_round_trip(x: Seq<u8>)
    requires
        x.len() % 4 == 0,
    ensures
        serialized(merge(entries(x))).len() <= x.len(),
        entries(compacted(x)) == worthy_entries(merge(entries(x))),
        sorted_keys(entries(compacted(x))),
{
    lemma_compacted_parts(x);
    lemma_decode_encoded(worthy_entries(merge(entries(x))), x.len());
}

/// A region that already holds sorted, unique, storage-worthy records,
/// packed from the start and erased after them, is left as it is by
/// compaction.
pub proof fn law_compact_fixed_point(es: Seq<(Seq<u8>, Seq<u8>)>, len: nat)
    requires
        sorted_keys(es),
        all_worthy(es),
        decodable(es),
        encode_records(es).len() <= len,
    ensures
        compacted(fill(encode_records(es), len)) == fill(encode_records(es), len),
{
    lemma_decode_encoded(es, len);
    lemma_merge_identity(es);
    lemma_worthy_identity(es);
}

/// Compacting twice gives the same region as compacting once.
pub proof fn law_compact_idempotent(x: Seq<u8>)
    requires
        x.len() % 4 == 0,
    ensures
        compacted(compacted(x)) == compacted(x),
{
    let w = worthy_entries(merge(entries(x)));
    lemma_compacted_parts(x);
    law_compact_fixed_point(w, x.len());
}

/// A triggered rewrite clears the region and then appends exactly the
/// records that compaction would leave in it, in the same order.
pub proof fn law_rewrite_stores_compacted(x: Seq<u8>, threshold: nat)
    requires
        x.len() % 4 == 0,
        rewrite_due(x, threshold),
    ensures
        rewrite_plan(x, threshold) == seq![None] + appends(entries(compacted(x))),
{
    law_round_trip(x);
}

} // verus!
