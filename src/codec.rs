//! Decoding of the raw region: `[key_len][value_len][key][value][0x00][padding]`
//! records, ended by a zero or all-ones key length, or by the end of the buffer.

use vstd::prelude::*;

verus! {

/// Why decoding stopped before the end of the log.
#[derive(Clone, Copy, Debug, PartialEq, Eq, Structural)]
pub enum CorruptionError {
    /// The declared key and value lengths run past the buffer, or leave no
    /// room for the terminator byte.
    Truncated,
    /// The byte after the value is not zero.
    BadTerminator,
}

/// One key/value record of the log.
#[derive(Debug)]
pub struct Entry {
    pub key: Vec<u8>,
    pub value: Vec<u8>,
}

impl View for Entry {
    type V = (Seq<u8>, Seq<u8>);

    open spec fn view(&self) -> (Seq<u8>, Seq<u8>) {
        (self.key@, self.value@)
    }
}

/// The little-endian `u32` stored at `at`.
#[verifier::opaque]
pub open spec fn le_u32(d: Seq<u8>, at: int) -> nat {
    (d[at] as nat) + (d[at + 1] as nat) * 256 + (d[at + 2] as nat) * 65536 + (d[at + 3] as nat)
        * 16777216
}

/// `n` rounded up to a multiple of four.
pub open spec fn align4(n: nat) -> nat {
    if n % 4 == 0 {
        n
    } else {
        (n + (4 - n % 4)) as nat
    }
}

proof fn lemma_align4(n: nat)
    ensures
        align4(n) % 4 == 0,
        n <= align4(n) <= n + 3,
{
}

/// The key length field of the record at `off`.
pub open spec fn key_len_at(d: Seq<u8>, off: nat) -> nat {
    le_u32(d, off as int)
}

/// The value length field of the record at `off`.
pub open spec fn value_len_at(d: Seq<u8>, off: nat) -> nat {
    le_u32(d, off + 4int)
}

/// The cursor at `off` has reached the end of the log: fewer than eight
/// bytes remain, or the key length is a sentinel.
pub open spec fn at_end(d: Seq<u8>, off: nat) -> bool {
    off + 8 > d.len() || key_len_at(d, off) == 0 || key_len_at(d, off) == 0xFFFF_FFFF
}

/// Offset of the terminator byte of the record at `off`.
pub open spec fn terminator_at(d: Seq<u8>, off: nat) -> nat {
    off + 8 + key_len_at(d, off) + value_len_at(d, off)
}

/// The corruption found in the record at `off`, if any (only meaningful
/// where `!at_end(d, off)`).
pub open spec fn fault_at(d: Seq<u8>, off: nat) -> Option<CorruptionError> {
    if terminator_at(d, off) >= d.len() {
        Some(CorruptionError::Truncated)
    } else if d[terminator_at(d, off) as int] != 0 {
        Some(CorruptionError::BadTerminator)
    } else {
        None
    }
}

/// The key of the record at `off`.
pub open spec fn key_at(d: Seq<u8>, off: nat) -> Seq<u8> {
    d.subrange(off + 8int, off + 8int + key_len_at(d, off))
}

/// The value of the record at `off`.
pub open spec fn value_at(d: Seq<u8>, off: nat) -> Seq<u8> {
    d.subrange(off + 8int + key_len_at(d, off), terminator_at(d, off) as int)
}

/// Where the record after the one at `off` starts.
pub open spec fn next_at(d: Seq<u8>, off: nat) -> nat {
    align4(terminator_at(d, off) + 1)
}

/// A well-formed record starts at `off`.
pub open spec fn record_at(d: Seq<u8>, off: nat) -> bool {
    !at_end(d, off) && fault_at(d, off) is None
}

/// The records decoded from `off` on, up to the end of the log or the first
/// corrupt record.
pub open spec fn entries_from(d: Seq<u8>, off: nat) -> Seq<(Seq<u8>, Seq<u8>)>
    decreases d.len() + 8 - off,
{
    if record_at(d, off) {
        seq![(key_at(d, off), value_at(d, off))] + entries_from(d, next_at(d, off))
    } else {
        seq![]
    }
}

/// The corruption that stops decoding from `off` on, if any.
pub open spec fn fault_from(d: Seq<u8>, off: nat) -> Option<CorruptionError>
    decreases d.len() + 8 - off,
{
    if at_end(d, off) {
        None
    } else if fault_at(d, off) is Some {
        fault_at(d, off)
    } else {
        fault_from(d, next_at(d, off))
    }
}

/// The offset just after the last record decoded from `off` on.
pub open spec fn end_from(d: Seq<u8>, off: nat) -> nat
    decreases d.len() + 8 - off,
{
    if record_at(d, off) {
        end_from(d, next_at(d, off))
    } else {
        off
    }
}

/// The records of a whole region.
pub open spec fn entries(d: Seq<u8>) -> Seq<(Seq<u8>, Seq<u8>)> {
    entries_from(d, 0)
}

/// The corruption of a whole region, if any.
pub open spec fn fault(d: Seq<u8>) -> Option<CorruptionError> {
    fault_from(d, 0)
}

/// The offset just after the last record of a whole region.
pub open spec fn used(d: Seq<u8>) -> nat {
    end_from(d, 0)
}

fn read_u32_le(d: &[u8], at: usize) -> (r: u32)
    requires
        at + 4 <= d@.len(),
    ensures
        r == le_u32(d@, at as int),
{
    reveal(le_u32);
    (d[at] as u32) + (d[at + 1] as u32) * 256 + (d[at + 2] as u32) * 65536 + (d[at + 3] as u32)
        * 16777216
}

fn copy_range(d: &[u8], start: usize, end: usize) -> (r: Vec<u8>)
    requires
        start <= end <= d@.len(),
    ensures
        r@ == d@.subrange(start as int, end as int),
{
    let mut r: Vec<u8> = Vec::with_capacity(end - start);
    let mut i: usize = start;
    while i < end
        invariant
            start <= i <= end <= d@.len(),
            r@ == d@.subrange(start as int, i as int),
        decreases end - i,
    {
        r.push(d[i]);
        i = i + 1;
        assert(r@ =~= d@.subrange(start as int, i as int));
    }
    r
}

/// A cursor over the records of a raw region. It stops for good at the end
/// of the log or after the first corrupt record.
pub struct Smmstore {
    data: Vec<u8>,
    offset: usize,
    done: bool,
}

impl Smmstore {
    /// The region being decoded.
    pub closed spec fn region(&self) -> Seq<u8> {
        self.data@
    }

    /// Where the next record starts.
    pub closed spec fn cursor(&self) -> nat {
        self.offset as nat
    }

    /// No record is left to decode.
    pub closed spec fn finished(&self) -> bool {
        self.done
    }

    /// The cursor's invariant.
    pub closed spec fn wf(&self) -> bool {
        self.offset <= self.data@.len() && self.offset % 4 == 0
    }

    /// Decreases with every record handed out.
    pub open spec fn measure(&self) -> nat {
        if self.finished() {
            0
        } else {
            (self.region().len() + 9 - self.cursor()) as nat
        }
    }

    /// What remains to be decoded.
    pub open spec fn pending(&self) -> Seq<(Seq<u8>, Seq<u8>)> {
        if self.finished() {
            seq![]
        } else {
            entries_from(self.region(), self.cursor())
        }
    }

    /// A cursor at the start of a copy of `data`.
    pub fn from_raw(data: &[u8]) -> (r: Self)
        ensures
            r.wf(),
            r.cursor() <= r.region().len(),
            r.cursor() % 4 == 0,
            r.region() == data@,
            r.cursor() == 0,
            !r.finished(),
            r.pending() == entries(data@),
    {
        Smmstore { data: copy_range(data, 0, data.len()), offset: 0, done: false }
    }

    /// Decodes the next record. `None` at the end of the log; `Some(Err(..))`
    /// for a corrupt record, after which the cursor is finished.
    #[verifier::rlimit(30)]
    pub fn next_entry(&mut self) -> (r: Option<Result<Entry, CorruptionError>>)
        requires
            old(self).wf(),
        ensures
            final(self).wf(),
            final(self).region() == old(self).region(),
            final(self).cursor() <= final(self).region().len(),
            final(self).cursor() % 4 == 0,
            old(self).finished() || at_end(old(self).region(), old(self).cursor()) ==> r is None
                && final(self).finished(),
            !old(self).finished() && !at_end(old(self).region(), old(self).cursor()) ==> r is Some,
            r matches Some(Err(e)) ==> fault_at(old(self).region(), old(self).cursor()) == Some(e)
                && final(self).finished(),
            r matches Some(Ok(e)) ==> record_at(old(self).region(), old(self).cursor()) && e@ == (
                key_at(old(self).region(), old(self).cursor()),
                value_at(old(self).region(), old(self).cursor()),
            ),
            r is Some && !final(self).finished() ==> final(self).cursor() == next_at(
                old(self).region(),
                old(self).cursor(),
            ),
            r matches Some(Ok(e)) ==> (final(self).finished() <==> next_at(
                old(self).region(),
                old(self).cursor(),
            ) > old(self).region().len()),
            r is Some ==> final(self).measure() < old(self).measure(),
            r matches Some(Ok(e)) ==> old(self).pending() == seq![e@] + final(self).pending(),
            r is Some && final(self).finished() ==> final(self).pending() == Seq::<
                (Seq<u8>, Seq<u8>),
            >::empty(),
    {
        let len = self.data.len();
        if self.done || len - self.offset < 8 {
            self.done = true;
            return None;
        }
        let off = self.offset;
        let key_len = read_u32_le(self.data.as_slice(), off);
        let value_len = read_u32_le(self.data.as_slice(), off + 4);
        if key_len == 0 || key_len == 0xFFFF_FFFF {
            self.done = true;
            return None;
        }
        let start = off + 8;
        let room = len - start;
        let k = key_len as usize;
        let v = value_len as usize;
        if k >= room || v >= room - k {
            self.done = true;
            return Some(Err(CorruptionError::Truncated));
        }
        let term = start + k + v;
        if self.data[term] != 0 {
            self.done = true;
            return Some(Err(CorruptionError::BadTerminator));
        }
        let key = copy_range(self.data.as_slice(), start, start + k);
        let value = copy_range(self.data.as_slice(), start + k, term);
        let end = term + 1;
        let pad = if end % 4 == 0 {
            0
        } else {
            4 - end % 4
        };
        if pad > len - end {
            self.done = true;
        } else {
            self.offset = end + pad;
        }
        proof {
            let d = self.data@;
            let nx = next_at(d, off as nat);
            lemma_align4(end as nat);
            assert(nx == end + pad);
            if self.done {
                assert(at_end(d, nx));
                assert(entries_from(d, nx) == Seq::<(Seq<u8>, Seq<u8>)>::empty());
            }
            assert(entries_from(d, off as nat) == seq![(key@, value@)] + entries_from(d, nx));
        }
        Some(Ok(Entry { key, value }))
    }
}

} // verus!
