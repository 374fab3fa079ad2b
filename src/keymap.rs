//! The ordered key map: raw keys to raw values, unique by key, ordered by
//! byte-wise comparison of the keys, where a later insert of a key replaces
//! the earlier value.

use vstd::prelude::*;
use crate::codec::Entry;

verus! {

/// Byte-wise lexicographic order: `a` sorts strictly before `b`.
pub open spec fn lex_lt(a: Seq<u8>, b: Seq<u8>) -> bool
    decreases a.len(),
{
    if a.len() == 0 {
        b.len() > 0
    } else if b.len() == 0 {
        false
    } else if a[0] != b[0] {
        a[0] < b[0]
    } else {
        lex_lt(a.drop_first(), b.drop_first())
    }
}

/// `s` with `(k, v)` stored under its key: an entry of key `k` has its value
/// replaced, otherwise `(k, v)` goes in before the first greater key.
pub open spec fn upsert(s: Seq<(Seq<u8>, Seq<u8>)>, k: Seq<u8>, v: Seq<u8>) -> Seq<
    (Seq<u8>, Seq<u8>),
>
    decreases s.len(),
{
    if s.len() == 0 {
        seq![(k, v)]
    } else if s[0].0 == k {
        seq![(k, v)] + s.drop_first()
    } else if lex_lt(k, s[0].0) {
        seq![(k, v)] + s
    } else {
        seq![s[0]] + upsert(s.drop_first(), k, v)
    }
}

/// Some entry of `s` has key `k`.
pub open spec fn has_key(s: Seq<(Seq<u8>, Seq<u8>)>, k: Seq<u8>) -> bool {
    exists|i: int| 0 <= i < s.len() && #[trigger] s[i].0 == k
}

/// The entries of `es` stored in order into an empty map.
pub open spec fn merge(es: Seq<(Seq<u8>, Seq<u8>)>) -> Seq<(Seq<u8>, Seq<u8>)>
    decreases es.len(),
{
    if es.len() == 0 {
        seq![]
    } else {
        upsert(merge(es.drop_last()), es.last().0, es.last().1)
    }
}

/// Every key of `s` sorts strictly before the keys after it.
pub open spec fn sorted_keys(s: Seq<(Seq<u8>, Seq<u8>)>) -> bool {
    forall|i: int, j: int| 0 <= i < j < s.len() ==> lex_lt(#[trigger] s[i].0, #[trigger] s[j].0)
}

/// No key sorts before itself.
pub proof fn lemma_lex_irreflexive(a: Seq<u8>)
    ensures
        !lex_lt(a, a),
    decreases a.len(),
{
    if a.len() > 0 {
        lemma_lex_irreflexive(a.drop_first());
    }
}

/// The key order is transitive.
pub proof fn lemma_lex_transitive(a: Seq<u8>, b: Seq<u8>, c: Seq<u8>)
    requires
        lex_lt(a, b),
        lex_lt(b, c),
    ensures
        lex_lt(a, c),
    decreases a.len(),
{
    if a.len() > 0 && b.len() > 0 && c.len() > 0 && a[0] == b[0] && b[0] == c[0] {
        lemma_lex_transitive(a.drop_first(), b.drop_first(), c.drop_first());
    }
}

/// Of two distinct keys, one sorts before the other.
pub proof fn lemma_lex_total(a: Seq<u8>, b: Seq<u8>)
    requires
        a != b,
        !lex_lt(a, b),
    ensures
        lex_lt(b, a),
    decreases a.len(),
{
    if a.len() == 0 || b.len() == 0 {
        if a.len() == 0 {
            assert(a =~= b);
        }
    } else if a[0] == b[0] {
        assert(a =~= seq![a[0]] + a.drop_first());
        assert(b =~= seq![b[0]] + b.drop_first());
        lemma_lex_total(a.drop_first(), b.drop_first());
    }
}

proof fn lemma_not_after(s: Seq<(Seq<u8>, Seq<u8>)>, k: Seq<u8>, i: int, j: int)
    requires
        sorted_keys(s),
        0 <= i <= j < s.len(),
        lex_lt(k, s[i].0),
    ensures
        s[j].0 != k,
{
    if j > i {
        lemma_lex_transitive(k, s[i].0, s[j].0);
    }
    lemma_lex_irreflexive(k);
}

/// Storing into a sorted map keeps it sorted.
pub proof fn lemma_upsert_sorted(s: Seq<(Seq<u8>, Seq<u8>)>, k: Seq<u8>, v: Seq<u8>)
    requires
        sorted_keys(s),
    ensures
        sorted_keys(upsert(s, k, v)),
    decreases s.len(),
{
    if s.len() > 0 && s[0].0 != k && !lex_lt(k, s[0].0) {
        let t = s.drop_first();
        lemma_upsert_sorted(t, k, v);
        lemma_lex_total(k, s[0].0);
        lemma_upsert_keys(t, k, v);
        let u = upsert(s, k, v);
        assert forall|i: int, j: int| 0 <= i < j < u.len() implies lex_lt(
            #[trigger] u[i].0,
            #[trigger] u[j].0,
        ) by {
            if i == 0 {
                let m = upsert(t, k, v)[j - 1].0;
                if m != k {
                    let l = choose|l: int| 0 <= l < t.len() && t[l].0 == m;
                    assert(s[l + 1].0 == m);
                }
            }
        }
    } else if s.len() > 0 && s[0].0 != k {
        let u = upsert(s, k, v);
        assert forall|i: int, j: int| 0 <= i < j < u.len() implies lex_lt(
            #[trigger] u[i].0,
            #[trigger] u[j].0,
        ) by {
            if i == 0 && j > 1 {
                lemma_lex_transitive(k, s[0].0, s[j - 1].0);
            }
        }
    } else if s.len() > 0 {
        let u = upsert(s, k, v);
        assert forall|i: int, j: int| 0 <= i < j < u.len() implies lex_lt(
            #[trigger] u[i].0,
            #[trigger] u[j].0,
        ) by {
            assert(u[i].0 == s[i].0);
            assert(u[j].0 == s[j].0);
        }
    }
}

/// Every key of `upsert(s, k, v)` is `k` or a key of `s`.
pub proof fn lemma_upsert_keys(s: Seq<(Seq<u8>, Seq<u8>)>, k: Seq<u8>, v: Seq<u8>)
    ensures
        forall|i: int|
            0 <= i < upsert(s, k, v).len() ==> #[trigger] upsert(s, k, v)[i].0 == k || exists|
                l: int,
            | 0 <= l < s.len() && s[l].0 == upsert(s, k, v)[i].0,
    decreases s.len(),
{
    let u = upsert(s, k, v);
    if s.len() > 0 && s[0].0 != k && !lex_lt(k, s[0].0) {
        let t = s.drop_first();
        lemma_upsert_keys(t, k, v);
        assert forall|i: int| 0 <= i < u.len() implies #[trigger] u[i].0 == k || exists|l: int|
            0 <= l < s.len() && s[l].0 == u[i].0 by {
            if i == 0 {
                assert(s[0].0 == u[0].0);
            } else {
                assert(u[i] == upsert(t, k, v)[i - 1]);
                if u[i].0 != k {
                    let l = choose|l: int| 0 <= l < t.len() && t[l].0 == u[i].0;
                    assert(s[l + 1].0 == u[i].0);
                }
            }
        }
    } else if s.len() > 0 && s[0].0 != k {
        assert forall|i: int| 0 <= i < u.len() implies #[trigger] u[i].0 == k || exists|l: int|
            0 <= l < s.len() && s[l].0 == u[i].0 by {
            if i > 0 {
                assert(s[i - 1].0 == u[i].0);
            }
        }
    } else if s.len() > 0 {
        assert forall|i: int| 0 <= i < u.len() implies #[trigger] u[i].0 == k || exists|l: int|
            0 <= l < s.len() && s[l].0 == u[i].0 by {
            if i > 0 {
                assert(s[i].0 == u[i].0);
            }
        }
    }
}

/// How `a` compares with `b`.
#[derive(Clone, Copy, Debug, PartialEq, Eq, Structural)]
pub enum KeyOrder {
    Less,
    Equal,
    Greater,
}

proof fn lemma_lex_skip(a: Seq<u8>, b: Seq<u8>, i: int)
    requires
        0 <= i < a.len(),
        i < b.len(),
        a[i] == b[i],
        forall|j: int| 0 <= j < i ==> a[j] == b[j],
    ensures
        lex_lt(a.skip(i), b.skip(i)) == lex_lt(a.skip(i + 1), b.skip(i + 1)),
{
    assert(a.skip(i).drop_first() =~= a.skip(i + 1));
    assert(b.skip(i).drop_first() =~= b.skip(i + 1));
}

/// Compares two keys byte by byte.
pub fn compare_keys(a: &[u8], b: &[u8]) -> (r: KeyOrder)
    ensures
        (r == KeyOrder::Less) == lex_lt(a@, b@),
        (r == KeyOrder::Equal) == (a@ == b@),
{
    let mut i: usize = 0;
    assert(a@.skip(0) =~= a@);
    assert(b@.skip(0) =~= b@);
    while i < a.len() && i < b.len()
        invariant
            i <= a@.len(),
            i <= b@.len(),
            forall|j: int| 0 <= j < i ==> a@[j] == b@[j],
            lex_lt(a@, b@) == lex_lt(a@.skip(i as int), b@.skip(i as int)),
        decreases a.len() - i,
    {
        if a[i] != b[i] {
            assert(a@.skip(i as int)[0] == a@[i as int]);
            assert(b@.skip(i as int)[0] == b@[i as int]);
            return if a[i] < b[i] {
                KeyOrder::Less
            } else {
                KeyOrder::Greater
            };
        }
        proof {
            lemma_lex_skip(a@, b@, i as int);
        }
        i = i + 1;
    }
    if a.len() == b.len() {
        assert(a@ =~= b@);
        KeyOrder::Equal
    } else if i == a.len() {
        assert(a@.skip(i as int).len() == 0);
        KeyOrder::Less
    } else {
        assert(b@.skip(i as int).len() == 0);
        KeyOrder::Greater
    }
}

proof fn lemma_upsert_at(s: Seq<(Seq<u8>, Seq<u8>)>, k: Seq<u8>, v: Seq<u8>, i: int)
    requires
        0 <= i <= s.len(),
        forall|j: int| 0 <= j < i ==> s[j].0 != k && !lex_lt(k, #[trigger] s[j].0),
        i < s.len() ==> s[i].0 == k || lex_lt(k, s[i].0),
    ensures
        upsert(s, k, v) == if i < s.len() && s[i].0 == k {
            s.update(i, (k, v))
        } else {
            s.insert(i, (k, v))
        },
    decreases i,
{
    if i == 0 {
        if s.len() > 0 && s[0].0 == k {
            assert(seq![(k, v)] + s.drop_first() =~= s.update(0, (k, v)));
        } else if s.len() > 0 {
            assert(seq![(k, v)] + s =~= s.insert(0, (k, v)));
        } else {
            assert(seq![(k, v)] =~= s.insert(0, (k, v)));
        }
    } else {
        let t = s.drop_first();
        assert forall|j: int| 0 <= j < i - 1 implies t[j].0 != k && !lex_lt(k, #[trigger] t[j].0) by {
            assert(t[j] == s[j + 1]);
        }
        lemma_upsert_at(t, k, v, i - 1);
        if i < s.len() && s[i].0 == k {
            assert(seq![s[0]] + t.update(i - 1, (k, v)) =~= s.update(i, (k, v)));
        } else {
            assert(seq![s[0]] + t.insert(i - 1, (k, v)) =~= s.insert(i, (k, v)));
        }
    }
}

/// An ordered map from keys to values.
pub struct KeyMap {
    entries: Vec<Entry>,
}

impl KeyMap {
    #[verifier::type_invariant]
    spec fn inv(&self) -> bool {
        sorted_keys(self@)
    }
}

impl View for KeyMap {
    type V = Seq<(Seq<u8>, Seq<u8>)>;

    closed spec fn view(&self) -> Seq<(Seq<u8>, Seq<u8>)> {
        self.entries@.map_values(|e: Entry| e@)
    }
}

impl KeyMap {
    /// An empty map.
    pub fn new() -> (r: Self)
        ensures
            r@ == Seq::<(Seq<u8>, Seq<u8>)>::empty(),
    {
        let r = KeyMap { entries: Vec::new() };
        assert(r@ =~= Seq::<(Seq<u8>, Seq<u8>)>::empty());
        r
    }

    /// The number of keys.
    pub fn len(&self) -> (r: usize)
        ensures
            r == self@.len(),
    {
        self.entries.len()
    }

    /// The entry at position `i` in key order.
    pub fn get(&self, i: usize) -> (r: &Entry)
        requires
            i < self@.len(),
        ensures
            r@ == self@[i as int],
            sorted_keys(self@),
    {
        proof {
            use_type_invariant(self);
        }
        &self.entries[i]
    }

    /// The entries in key order.
    pub fn into_entries(self) -> (r: Vec<Entry>)
        ensures
            r@.map_values(|e: Entry| e@) == self@,
    {
        self.entries
    }

    /// Stores `value` under `key`, and hands back the value it replaces.
    pub fn insert(&mut self, key: Vec<u8>, value: Vec<u8>) -> (r: Option<Vec<u8>>)
        ensures
            final(self)@ == upsert(old(self)@, key@, value@),
            sorted_keys(final(self)@),
            r is Some <==> has_key(old(self)@, key@),
            r matches Some(o) ==> exists|i: int|
                0 <= i < old(self)@.len() && #[trigger] old(self)@[i] == (key@, o@),
            final(self)@.len() == old(self)@.len() + if r is Some {
                0int
            } else {
                1int
            },
    {
        proof {
            use_type_invariant(&*self);
            lemma_upsert_sorted(self@, key@, value@);
        }
        let ghost s = self@;
        let n = self.entries.len();
        let mut i: usize = 0;
        let mut stop: bool = false;
        let mut equal: bool = false;
        while i < n && !stop
            invariant
                n == self.entries@.len(),
                s == self@,
                i <= n,
                forall|j: int| 0 <= j < i ==> s[j].0 != key@ && !lex_lt(key@, #[trigger] s[j].0),
                stop ==> i < n && (s[i as int].0 == key@ || lex_lt(key@, s[i as int].0)),
                stop ==> (equal == (s[i as int].0 == key@)),
                !stop ==> !equal,
            decreases n - i + if stop {
                0int
            } else {
                1int
            },
        {
            let o = compare_keys(key.as_slice(), self.entries[i].key.as_slice());
            assert(s[i as int] == self.entries@[i as int]@);
            match o {
                KeyOrder::Greater => {
                    i = i + 1;
                },
                KeyOrder::Equal => {
                    stop = true;
                    equal = true;
                },
                KeyOrder::Less => {
                    stop = true;
                },
            }
        }
        proof {
            lemma_upsert_at(s, key@, value@, i as int);
        }
        let ghost kv = (key@, value@);
        let mut all: Vec<Entry> = Vec::new();
        assert(Seq::<Entry>::empty().map_values(|e: Entry| e@) =~= Seq::<(Seq<u8>, Seq<u8>)>::empty());
        std::mem::swap(&mut self.entries, &mut all);
        let r = if equal {
            let mut e = Entry { key, value };
            std::mem::swap(&mut all[i], &mut e);
            assert(all@.map_values(|e: Entry| e@) =~= s.update(i as int, kv));
            assert(s[i as int] == (kv.0, e.value@));
            Some(e.value)
        } else {
            all.insert(i, Entry { key, value });
            assert(all@.map_values(|e: Entry| e@) =~= s.insert(i as int, kv));
            proof {
                if has_key(s, kv.0) {
                    let j = choose|j: int| 0 <= j < s.len() && #[trigger] s[j].0 == kv.0;
                    if j >= i {
                        lemma_not_after(s, kv.0, i as int, j);
                    }
                }
            }
            None
        };
        std::mem::swap(&mut self.entries, &mut all);
        r
    }
}

} // verus!
