use vstd::prelude::*;
use vstd::bytes::{
    spec_u128_from_le_bytes, spec_u128_to_le_bytes, spec_u64_from_le_bytes,
    spec_u64_to_le_bytes, u128_from_le_bytes, u128_to_le_bytes, u64_from_le_bytes,
    u64_to_le_bytes,
};
use vstd::slice::{slice_subrange, slice_to_vec};

verus! {

/// A live record as the database hands it out: a key, its value and the
/// timestamp of the write.
#[derive(Debug)]
pub struct DbEntry {
    pub key: Vec<u8>,
    pub value: Vec<u8>,
    pub timestamp: u128,
}

/// One mutation record: a key, its value (`None` for a tombstone, meaning the
/// key is deleted as of `timestamp`) and a timestamp in microseconds.
#[derive(Debug, Clone)]
pub struct Entry {
    pub key: Vec<u8>,
    pub value: Option<Vec<u8>>,
    pub timestamp: u128,
}

/// The mathematical value of an [`Entry`].
pub struct EntryView {
    pub key: Seq<u8>,
    pub value: Option<Seq<u8>>,
    pub timestamp: u128,
}

pub open spec fn opt_bytes(v: Option<Vec<u8>>) -> Option<Seq<u8>> {
    match v {
        Some(b) => Some(b@),
        None => None,
    }
}

impl View for Entry {
    type V = EntryView;

    open spec fn view(&self) -> EntryView {
        EntryView { key: self.key@, value: opt_bytes(self.value), timestamp: self.timestamp }
    }
}

impl View for DbEntry {
    type V = EntryView;

    open spec fn view(&self) -> EntryView {
        EntryView { key: self.key@, value: Some(self.value@), timestamp: self.timestamp }
    }
}

/// The on-disk framing of one record, little-endian:
/// `key_len: u64, key, tomb: u8, [value_len: u64, value], timestamp: u128`,
/// where `tomb` is 1 for a tombstone (and no value follows) and 0 otherwise.
pub open spec fn encode_entry(e: EntryView) -> Seq<u8> {
    spec_u64_to_le_bytes(e.key.len() as u64) + e.key + match e.value {
        None => seq![1u8],
        Some(v) => seq![0u8] + spec_u64_to_le_bytes(v.len() as u64) + v,
    } + spec_u128_to_le_bytes(e.timestamp)
}

/// Whether every length in the record fits the framing's `u64` fields.
pub open spec fn encodable(e: EntryView) -> bool {
    &&& e.key.len() <= u64::MAX
    &&& match e.value {
        Some(v) => v.len() <= u64::MAX,
        None => true,
    }
}

/// Decodes the record at the start of `s`: the record and the number of bytes
/// it spans, or `None` where `s` ends before the record does. A non-zero
/// tombstone byte marks a tombstone.
pub open spec fn decode_entry(s: Seq<u8>) -> Option<(EntryView, int)> {
    if s.len() < 8 {
        None
    } else {
        let klen = spec_u64_from_le_bytes(s.subrange(0, 8)) as int;
        let p = 8 + klen;
        if s.len() < p + 1 {
            None
        } else if s[p] != 0 {
            if s.len() < p + 17 {
                None
            } else {
                Some(
                    (
                        EntryView {
                            key: s.subrange(8, p),
                            value: None,
                            timestamp: spec_u128_from_le_bytes(s.subrange(p + 1, p + 17)),
                        },
                        p + 17,
                    ),
                )
            }
        } else if s.len() < p + 9 {
            None
        } else {
            let vlen = spec_u64_from_le_bytes(s.subrange(p + 1, p + 9)) as int;
            let q = p + 9 + vlen;
            if s.len() < q + 16 {
                None
            } else {
                Some(
                    (
                        EntryView {
                            key: s.subrange(8, p),
                            value: Some(s.subrange(p + 9, q)),
                            timestamp: spec_u128_from_le_bytes(s.subrange(q, q + 16)),
                        },
                        q + 16,
                    ),
                )
            }
        }
    }
}

/// Decoding the encoding of a record, followed by anything, gives the record
/// back together with the length of its encoding.
pub proof fn lemma_decode_encode(e: EntryView, rest: Seq<u8>)
    requires
        encodable(e),
    ensures
        decode_entry(encode_entry(e) + rest) == Some((e, encode_entry(e).len() as int)),
{
    vstd::bytes::lemma_auto_spec_u64_to_from_le_bytes();
    vstd::bytes::lemma_auto_spec_u128_to_from_le_bytes();
    let s = encode_entry(e) + rest;
    let kb = spec_u64_to_le_bytes(e.key.len() as u64);
    let tb = spec_u128_to_le_bytes(e.timestamp);
    let p: int = 8 + e.key.len() as int;
    assert(s.subrange(0, 8) =~= kb);
    assert(s.subrange(8, p) =~= e.key);
    match e.value {
        None => {
            assert(s[p] == 1u8);
            assert(s.subrange(p + 1, p + 17) =~= tb);
        },
        Some(v) => {
            let vb = spec_u64_to_le_bytes(v.len() as u64);
            let q: int = p + 9 + v.len() as int;
            assert(s[p] == 0u8);
            assert(s.subrange(p + 1, p + 9) =~= vb);
            assert(s.subrange(p + 9, q) =~= v);
            assert(s.subrange(q, q + 16) =~= tb);
        },
    }
}

/// Bytes after a complete record do not change how it decodes.
pub proof fn lemma_decode_extend(s: Seq<u8>, t: Seq<u8>)
    requires
        decode_entry(s) is Some,
    ensures
        decode_entry(s + t) == decode_entry(s),
{
    let u = s + t;
    assert(u.subrange(0, 8) =~= s.subrange(0, 8));
    let klen = spec_u64_from_le_bytes(s.subrange(0, 8)) as int;
    let p = 8 + klen;
    assert(u.subrange(8, p) =~= s.subrange(8, p));
    assert(u[p] == s[p]);
    if s[p] != 0 {
        assert(u.subrange(p + 1, p + 17) =~= s.subrange(p + 1, p + 17));
    } else {
        assert(u.subrange(p + 1, p + 9) =~= s.subrange(p + 1, p + 9));
        let vlen = spec_u64_from_le_bytes(s.subrange(p + 1, p + 9)) as int;
        let q = p + 9 + vlen;
        assert(u.subrange(p + 9, q) =~= s.subrange(p + 9, q));
        assert(u.subrange(q, q + 16) =~= s.subrange(q, q + 16));
    }
}

/// Every record of the library fits the framing's length fields.
pub proof fn lemma_entry_encodable(e: &Entry)
    ensures
        encodable(e@),
{
    assert(e.key@.len() == e.key.len());
    match &e.value {
        Some(v) => {
            assert(v@.len() == v.len());
        },
        None => {},
    }
}

/// Copies a byte slice into a new vector.
pub fn copy_bytes(b: &[u8]) -> (r: Vec<u8>)
    ensures
        r@ == b@,
{
    slice_to_vec(b)
}

impl Entry {
    pub fn new(key: Vec<u8>, value: Option<Vec<u8>>, timestamp: u128) -> (r: Self)
        ensures
            r.key == key,
            r.value == value,
            r.timestamp == timestamp,
    {
        Self { key, value, timestamp }
    }

    /// Whether the record is a tombstone.
    pub fn is_deleted(&self) -> (r: bool)
        ensures
            r == self.value.is_none(),
    {
        self.value.is_none()
    }

    /// A copy of the record.
    pub fn duplicate(&self) -> (r: Entry)
        ensures
            r@ == self@,
    {
        let value = match &self.value {
            Some(v) => Some(copy_bytes(v.as_slice())),
            None => None,
        };
        Entry { key: copy_bytes(self.key.as_slice()), value, timestamp: self.timestamp }
    }

    /// Appends the record's framing to `out`.
    pub fn write_to(&self, out: &mut Vec<u8>)
        ensures
            final(out)@ == old(out)@ + encode_entry(self@),
    {
        let ghost start = out@;
        let kl = u64_to_le_bytes(self.key.len() as u64);
        push_all(out, kl.as_slice());
        push_all(out, self.key.as_slice());
        match &self.value {
            None => {
                out.push(1u8);
            },
            Some(v) => {
                out.push(0u8);
                let vl = u64_to_le_bytes(v.len() as u64);
                push_all(out, vl.as_slice());
                push_all(out, v.as_slice());
            },
        }
        let tl = u128_to_le_bytes(self.timestamp);
        push_all(out, tl.as_slice());
        assert(out@ =~= start + encode_entry(self@));
    }

    /// Decodes the record that starts at `pos` in `bytes`, and returns it with
    /// the position just past it; `None` where the bytes end first.
    pub fn read_from(bytes: &[u8], pos: usize) -> (r: Option<(Entry, usize)>)
        requires
            pos <= bytes@.len(),
        ensures
            match decode_entry(bytes@.skip(pos as int)) {
                None => r is None,
                Some((e, n)) => r matches Some((entry, next)) && entry@ == e && next == pos + n,
            },
    {
        let ghost s = bytes@.skip(pos as int);
        let n = bytes.len();
        if n - pos < 8 {
            return None;
        }
        let klen = u64_from_le_bytes(slice_subrange(bytes, pos, pos + 8));
        assert(s.subrange(0, 8) =~= bytes@.subrange(pos as int, pos + 8));
        let rem = (n - pos - 8) as u64;
        if klen >= rem {
            return None;
        }
        let klen = klen as usize;
        let p = pos + 8 + klen;
        let key = slice_to_vec(slice_subrange(bytes, pos + 8, p));
        assert(s.subrange(8, 8 + klen) =~= key@);
        assert(s[8 + klen] == bytes@[p as int]);
        if bytes[p] != 0 {
            if n - p < 17 {
                return None;
            }
            let ts = u128_from_le_bytes(slice_subrange(bytes, p + 1, p + 17));
            assert(s.subrange(9 + klen, 25 + klen) =~= bytes@.subrange(p + 1, p + 17));
            return Some((Entry { key, value: None, timestamp: ts }, p + 17));
        }
        if n - p < 9 {
            return None;
        }
        let vlen = u64_from_le_bytes(slice_subrange(bytes, p + 1, p + 9));
        assert(s.subrange(9 + klen, 17 + klen) =~= bytes@.subrange(p + 1, p + 9));
        let rem2 = (n - p - 9) as u64;
        if vlen > rem2 || rem2 - vlen < 16 {
            return None;
        }
        let q = p + 9 + vlen as usize;
        let value = slice_to_vec(slice_subrange(bytes, p + 9, q));
        let ts = u128_from_le_bytes(slice_subrange(bytes, q, q + 16));
        assert(s.subrange(17 + klen, (q - pos) as int) =~= value@);
        assert(s.subrange((q - pos) as int, (q - pos) + 16) =~= bytes@.subrange(q as int, q + 16));
        Some((Entry { key, value: Some(value), timestamp: ts }, q + 16))
    }
}

/// Appends every byte of `b` to `out`.
pub fn push_all(out: &mut Vec<u8>, b: &[u8])
    ensures
        final(out)@ == old(out)@ + b@,
{
    let ghost start = out@;
    let mut i: usize = 0;
    while i < b.len()
        invariant
            0 <= i <= b@.len(),
            out@ == start + b@.subrange(0, i as int),
        decreases b@.len() - i,
    {
        out.push(b[i]);
        assert(b@.subrange(0, i + 1) =~= b@.subrange(0, i as int).push(b@[i as int]));
        i += 1;
    }
    assert(b@.subrange(0, b@.len() as int) =~= b@);
}

} // verus!
