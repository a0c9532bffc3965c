//! The packed encoding: values that live inside a single storage cell.
//!
//! Integers are four bytes, little endian. A tagged union is one discriminant
//! byte followed by the payload of its variant. A sequence is its length as
//! an integer followed by its elements in order. A map is encoded as the
//! sequence of its entries in ascending key order.
use vstd::prelude::*;

verus! {

/// Why a byte sequence could not be decoded.
#[derive(Clone, Copy, Debug, PartialEq, Eq)]
pub enum DecodeError {
    /// Fewer bytes remain than the format needs at this point.
    Truncated,
    /// A discriminant names no variant of its union.
    UnknownVariant,
}

/// The four little-endian bytes of an integer.
pub open spec fn le_bytes(x: u32) -> Seq<u8> {
    seq![x as u8, (x >> 8u32) as u8, (x >> 16u32) as u8, (x >> 24u32) as u8]
}

/// The integer whose little-endian bytes are the given four.
pub open spec fn le_value(b0: u8, b1: u8, b2: u8, b3: u8) -> u32 {
    (b0 as u32) | ((b1 as u32) << 8u32) | ((b2 as u32) << 16u32) | ((b3 as u32) << 24u32)
}

/// The integer stored at offset `i` of `s`.
pub open spec fn le_at(s: Seq<u8>, i: int) -> u32 {
    le_value(s[i], s[i + 1], s[i + 2], s[i + 3])
}

/// Reading back the bytes of an integer gives the integer.
pub proof fn lemma_le_round_trip(x: u32)
    ensures
        le_value(x as u8, (x >> 8u32) as u8, (x >> 16u32) as u8, (x >> 24u32) as u8) == x,
{
    assert(((x as u8) as u32) | ((((x >> 8u32) as u8) as u32) << 8u32) | ((((x >> 16u32) as u8)
        as u32) << 16u32) | ((((x >> 24u32) as u8) as u32) << 24u32) == x) by (bit_vector);
}

/// Relies on parity_scale_codec's `Encode` for `u32`: four bytes, little endian.
#[verifier::external_body]
fn scale_encode_u32(x: u32) -> (r: Vec<u8>)
    ensures
        r@ == le_bytes(x),
{
    parity_scale_codec::Encode::encode(&x)
}

/// Relies on parity_scale_codec's `Decode` for `u32`: it reads four bytes,
/// little endian, and fails where fewer remain.
#[verifier::external_body]
fn scale_decode_u32(bytes: &Vec<u8>, pos: usize) -> (r: Option<u32>)
    requires
        pos <= bytes.len(),
    ensures
        pos + 4 <= bytes.len() ==> r == Some(le_at(bytes@, pos as int)),
        pos + 4 > bytes.len() ==> r is None,
{
    let mut input: &[u8] = &bytes[pos..];
    <u32 as parity_scale_codec::Decode>::decode(&mut input).ok()
}

/// The bytes of `s` from `pos` on.
pub open spec fn rest(s: Seq<u8>, pos: int) -> Seq<u8> {
    s.subrange(pos, s.len() as int)
}

// ---------------------------------------------------------------- integers

/// Decodes an integer: the value and the number of bytes read.
pub open spec fn parse_u32(s: Seq<u8>) -> Result<(u32, int), DecodeError> {
    if s.len() < 4 {
        Err(DecodeError::Truncated)
    } else {
        Ok((le_at(s, 0), 4))
    }
}

/// Appends the encoding of an integer.
pub fn encode_u32(x: u32, out: &mut Vec<u8>)
    ensures
        final(out)@ == old(out)@ + le_bytes(x),
{
    let mut b = scale_encode_u32(x);
    out.append(&mut b);
}

/// Decodes an integer at `pos`; on success also returns the position after it.
pub fn decode_u32(bytes: &Vec<u8>, pos: usize) -> (r: Result<(u32, usize), DecodeError>)
    requires
        pos <= bytes.len(),
    ensures
        match parse_u32(rest(bytes@, pos as int)) {
            Ok((v, n)) => r == Ok::<(u32, usize), DecodeError>((v, (pos + n) as usize)),
            Err(e) => r == Err::<(u32, usize), DecodeError>(e),
        },
{
    let ghost s = rest(bytes@, pos as int);
    match scale_decode_u32(bytes, pos) {
        Some(v) => {
            assert(le_at(s, 0) == le_at(bytes@, pos as int));
            Ok((v, pos + 4))
        },
        None => Err(DecodeError::Truncated),
    }
}

/// An encoded integer reads back as itself, whatever follows it.
pub proof fn lemma_u32_round_trip(x: u32, tail: Seq<u8>)
    ensures
        parse_u32(le_bytes(x) + tail) == Ok::<(u32, int), DecodeError>((x, 4)),
{
    lemma_le_round_trip(x);
    let s = le_bytes(x) + tail;
    assert(s[0] == x as u8 && s[1] == (x >> 8u32) as u8 && s[2] == (x >> 16u32) as u8 && s[3]
        == (x >> 24u32) as u8);
}

// ------------------------------------------------------------ tagged unions

/// The encoding of a flag: a union of two variants without payload.
pub open spec fn enc_bool(b: bool) -> Seq<u8> {
    seq![if b { 1u8 } else { 0u8 }]
}

/// Decodes a flag.
pub open spec fn parse_bool(s: Seq<u8>) -> Result<(bool, int), DecodeError> {
    if s.len() < 1 {
        Err(DecodeError::Truncated)
    } else if s[0] == 0 {
        Ok((false, 1))
    } else if s[0] == 1 {
        Ok((true, 1))
    } else {
        Err(DecodeError::UnknownVariant)
    }
}

/// Appends the encoding of a flag.
pub fn encode_bool(b: bool, out: &mut Vec<u8>)
    ensures
        final(out)@ == old(out)@ + enc_bool(b),
{
    let tag: u8 = if b { 1 } else { 0 };
    out.push(tag);
    assert(final(out)@ =~= old(out)@ + enc_bool(b));
}

/// Decodes a flag at `pos`.
pub fn decode_bool(bytes: &Vec<u8>, pos: usize) -> (r: Result<(bool, usize), DecodeError>)
    requires
        pos <= bytes.len(),
    ensures
        match parse_bool(rest(bytes@, pos as int)) {
            Ok((v, n)) => r == Ok::<(bool, usize), DecodeError>((v, (pos + n) as usize)),
            Err(e) => r == Err::<(bool, usize), DecodeError>(e),
        },
{
    if pos >= bytes.len() {
        return Err(DecodeError::Truncated);
    }
    let tag = bytes[pos];
    if tag == 0 {
        Ok((false, pos + 1))
    } else if tag == 1 {
        Ok((true, pos + 1))
    } else {
        Err(DecodeError::UnknownVariant)
    }
}

/// An encoded flag reads back as itself.
pub proof fn lemma_bool_round_trip(b: bool, tail: Seq<u8>)
    ensures
        parse_bool(enc_bool(b) + tail) == Ok::<(bool, int), DecodeError>((b, 1)),
{
    assert((enc_bool(b) + tail)[0] == enc_bool(b)[0]);
}

/// The encoding of an optional integer: discriminant 0 for none, 1 followed
/// by the integer for some.
pub open spec fn enc_opt(o: Option<u32>) -> Seq<u8> {
    match o {
        None => seq![0u8],
        Some(x) => seq![1u8] + le_bytes(x),
    }
}

/// Decodes an optional integer.
pub open spec fn parse_opt(s: Seq<u8>) -> Result<(Option<u32>, int), DecodeError> {
    if s.len() < 1 {
        Err(DecodeError::Truncated)
    } else if s[0] == 0 {
        Ok((None, 1))
    } else if s[0] == 1 {
        match parse_u32(s.subrange(1, s.len() as int)) {
            Ok((x, n)) => Ok((Some(x), 1 + n)),
            Err(e) => Err(e),
        }
    } else {
        Err(DecodeError::UnknownVariant)
    }
}

/// Appends the encoding of an optional integer.
pub fn encode_opt(o: Option<u32>, out: &mut Vec<u8>)
    ensures
        final(out)@ == old(out)@ + enc_opt(o),
{
    match o {
        None => {
            out.push(0u8);
            assert(final(out)@ =~= old(out)@ + enc_opt(o));
        },
        Some(x) => {
            out.push(1u8);
            encode_u32(x, out);
            assert(final(out)@ =~= old(out)@ + enc_opt(o));
        },
    }
}

/// Decodes an optional integer at `pos`.
pub fn decode_opt(bytes: &Vec<u8>, pos: usize) -> (r: Result<(Option<u32>, usize), DecodeError>)
    requires
        pos <= bytes.len(),
    ensures
        match parse_opt(rest(bytes@, pos as int)) {
            Ok((v, n)) => r == Ok::<(Option<u32>, usize), DecodeError>((v, (pos + n) as usize)),
            Err(e) => r == Err::<(Option<u32>, usize), DecodeError>(e),
        },
{
    let ghost s = rest(bytes@, pos as int);
    if pos >= bytes.len() {
        return Err(DecodeError::Truncated);
    }
    let tag = bytes[pos];
    if tag == 0 {
        Ok((None, pos + 1))
    } else if tag == 1 {
        assert(s.subrange(1, s.len() as int) =~= rest(bytes@, pos + 1));
        match decode_u32(bytes, pos + 1) {
            Ok((x, next)) => Ok((Some(x), next)),
            Err(e) => Err(e),
        }
    } else {
        Err(DecodeError::UnknownVariant)
    }
}

/// An encoded optional integer reads back as itself.
pub proof fn lemma_opt_round_trip(o: Option<u32>, tail: Seq<u8>)
    ensures
        parse_opt(enc_opt(o) + tail) == Ok::<(Option<u32>, int), DecodeError>(
            (o, enc_opt(o).len() as int),
        ),
{
    let s = enc_opt(o) + tail;
    assert(s[0] == enc_opt(o)[0]);
    match o {
        None => {},
        Some(x) => {
            assert(s.subrange(1, s.len() as int) =~= le_bytes(x) + tail);
            lemma_u32_round_trip(x, tail);
        },
    }
}

// ---------------------------------------------------------------- sequences

/// The encodings of the elements, one after another.
pub open spec fn enc_elems(v: Seq<u32>) -> Seq<u8>
    decreases v.len(),
{
    if v.len() == 0 {
        Seq::empty()
    } else {
        enc_elems(v.drop_last()) + le_bytes(v.last())
    }
}

/// The encoding of a sequence of integers: its length, then its elements.
pub open spec fn enc_seq(v: Seq<u32>) -> Seq<u8> {
    le_bytes(v.len() as u32) + enc_elems(v)
}

/// Decodes a sequence of integers.
pub open spec fn parse_seq(s: Seq<u8>) -> Result<(Seq<u32>, int), DecodeError> {
    match parse_u32(s) {
        Err(e) => Err(e),
        Ok((count, _)) => if s.len() < 4 + 4 * count {
            Err(DecodeError::Truncated)
        } else {
            Ok((Seq::new(count as nat, |i: int| le_at(s, 4 + 4 * i)), 4 + 4 * count))
        },
    }
}

/// The elements' encodings sit at consecutive offsets of four bytes.
pub proof fn lemma_enc_elems_layout(v: Seq<u32>)
    ensures
        enc_elems(v).len() == 4 * v.len(),
        forall|i: int, k: int|
            0 <= i < v.len() && 0 <= k < 4 ==> #[trigger] enc_elems(v)[4 * i + k] == le_bytes(
                v[i],
            )[k],
    decreases v.len(),
{
    if v.len() > 0 {
        lemma_enc_elems_layout(v.drop_last());
        let e = enc_elems(v);
        let p = enc_elems(v.drop_last());
        assert forall|i: int, k: int| 0 <= i < v.len() && 0 <= k < 4 implies #[trigger] e[4 * i
            + k] == le_bytes(v[i])[k] by {
            if i < v.len() - 1 {
                assert(e[4 * i + k] == p[4 * i + k]);
                assert(v.drop_last()[i] == v[i]);
            } else {
                assert(e[4 * i + k] == le_bytes(v.last())[k]);
            }
        }
    }
}

/// Appends the encoding of a sequence of integers.
pub fn encode_seq(v: &Vec<u32>, out: &mut Vec<u8>)
    requires
        v.len() <= u32::MAX,
    ensures
        final(out)@ == old(out)@ + enc_seq(v@),
{
    encode_u32(v.len() as u32, out);
    let mut i: usize = 0;
    while i < v.len()
        invariant
            i <= v.len(),
            v.len() <= u32::MAX,
            out@ == old(out)@ + le_bytes(v.len() as u32) + enc_elems(v@.subrange(0, i as int)),
        decreases v.len() - i,
    {
        let ghost before = out@;
        encode_u32(v[i], out);
        assert(v@.subrange(0, i + 1).drop_last() =~= v@.subrange(0, i as int));
        assert(out@ =~= old(out)@ + le_bytes(v.len() as u32) + enc_elems(
            v@.subrange(0, i + 1),
        ));
        i = i + 1;
    }
    assert(v@.subrange(0, v.len() as int) =~= v@);
    assert(final(out)@ =~= old(out)@ + enc_seq(v@));
}

/// Decodes a sequence of integers at `pos`.
pub fn decode_seq(bytes: &Vec<u8>, pos: usize) -> (r: Result<(Vec<u32>, usize), DecodeError>)
    requires
        pos <= bytes.len(),
    ensures
        match parse_seq(rest(bytes@, pos as int)) {
            Ok((v, n)) => r is Ok && r->Ok_0.0@ == v && r->Ok_0.1 == pos + n,
            Err(e) => r == Err::<(Vec<u32>, usize), DecodeError>(e),
        },
{
    let ghost s = rest(bytes@, pos as int);
    let (count, start) = match decode_u32(bytes, pos) {
        Ok(p) => p,
        Err(e) => return Err(e),
    };
    let avail = bytes.len() - start;
    if (count as u64) * 4 > avail as u64 {
        return Err(DecodeError::Truncated);
    }
    let mut out: Vec<u32> = Vec::new();
    let mut i: usize = 0;
    while i < count as usize
        invariant
            start == pos + 4,
            start <= bytes.len(),
            4 * count <= bytes.len() - start,
            i <= count,
            out@ =~= Seq::new(i as nat, |j: int| le_at(s, 4 + 4 * j)),
            s == rest(bytes@, pos as int),
        decreases count - i,
    {
        let p = start + 4 * i;
        let x = match decode_u32(bytes, p) {
            Ok((x, _)) => x,
            Err(e) => return Err(e),
        };
        assert(le_at(rest(bytes@, p as int), 0) == le_at(s, 4 + 4 * i));
        out.push(x);
        i = i + 1;
    }
    Ok((out, start + 4 * (count as usize)))
}

/// An encoded sequence of integers reads back as itself.
pub proof fn lemma_seq_round_trip(v: Seq<u32>, tail: Seq<u8>)
    requires
        v.len() <= u32::MAX,
    ensures
        parse_seq(enc_seq(v) + tail) == Ok::<(Seq<u32>, int), DecodeError>(
            (v, enc_seq(v).len() as int),
        ),
{
    let s = enc_seq(v) + tail;
    lemma_enc_elems_layout(v);
    assert(s =~= le_bytes(v.len() as u32) + (enc_elems(v) + tail));
    lemma_u32_round_trip(v.len() as u32, enc_elems(v) + tail);
    let w = Seq::new(v.len(), |i: int| le_at(s, 4 + 4 * i));
    assert forall|i: int| 0 <= i < v.len() implies w[i] == v[i] by {
        let e = enc_elems(v);
        assert(s[4 + 4 * i] == e[4 * i + 0]);
        assert(s[4 + 4 * i + 1] == e[4 * i + 1]);
        assert(s[4 + 4 * i + 2] == e[4 * i + 2]);
        assert(s[4 + 4 * i + 3] == e[4 * i + 3]);
        lemma_le_round_trip(v[i]);
    }
    assert(w =~= v);
}

// --------------------------------------------------------------------- maps

/// Entries whose keys strictly ascend.
pub open spec fn ascending(s: Seq<(u32, u32)>) -> bool {
    forall|i: int, j: int| 0 <= i < j < s.len() ==> (#[trigger] s[i]).0 < (#[trigger] s[j]).0
}

/// The map that a list of distinct-keyed entries stands for.
pub open spec fn entries_map(s: Seq<(u32, u32)>) -> Map<u32, u32> {
    Map::new(
        |k: u32| exists|i: int| 0 <= i < s.len() && s[i].0 == k,
        |k: u32| s[choose|i: int| 0 <= i < s.len() && s[i].0 == k].1,
    )
}

/// The map that inserting the entries one after another, from an empty map,
/// leaves: a later entry replaces an earlier one with the same key.
pub open spec fn inserted_map(s: Seq<(u32, u32)>) -> Map<u32, u32>
    decreases s.len(),
{
    if s.len() == 0 {
        Map::empty()
    } else {
        inserted_map(s.drop_last()).insert(s.last().0, s.last().1)
    }
}

/// In ascending entries each entry is what the map holds at its key.
pub proof fn lemma_entries_map_at(s: Seq<(u32, u32)>, i: int)
    requires
        ascending(s),
        0 <= i < s.len(),
    ensures
        entries_map(s).contains_key(s[i].0),
        entries_map(s)[s[i].0] == s[i].1,
{
    let k = s[i].0;
    assert(exists|j: int| 0 <= j < s.len() && s[j].0 == k);
    let j = choose|j: int| 0 <= j < s.len() && s[j].0 == k;
    if j < i {
        assert(s[j].0 < s[i].0);
    } else if i < j {
        assert(s[i].0 < s[j].0);
    }
}

/// For ascending entries, inserting them one by one gives the map they stand for.
pub proof fn lemma_inserted_map(s: Seq<(u32, u32)>)
    requires
        ascending(s),
    ensures
        inserted_map(s) == entries_map(s),
    decreases s.len(),
{
    if s.len() > 0 {
        let p = s.drop_last();
        assert(ascending(p));
        lemma_inserted_map(p);
        let last = s.last();
        assert forall|k: u32| #[trigger] entries_map(s).contains_key(k) <==> entries_map(p).insert(
            last.0,
            last.1,
        ).contains_key(k) by {
            if entries_map(s).contains_key(k) {
                let j = choose|j: int| 0 <= j < s.len() && s[j].0 == k;
                if j < s.len() - 1 {
                    assert(p[j].0 == k);
                }
            }
            if entries_map(p).contains_key(k) {
                let j = choose|j: int| 0 <= j < p.len() && p[j].0 == k;
                assert(s[j].0 == k);
            }
            if k == last.0 {
                assert(s[s.len() - 1].0 == k);
            }
        }
        assert forall|k: u32| #[trigger] entries_map(s).contains_key(k) implies entries_map(s)[k]
            == entries_map(p).insert(last.0, last.1)[k] by {
            let j = choose|j: int| 0 <= j < s.len() && s[j].0 == k;
            lemma_entries_map_at(s, j);
            if j < s.len() - 1 {
                assert(p[j] == s[j]);
                lemma_entries_map_at(p, j);
                assert(s[j].0 < s[s.len() - 1].0);
            }
        }
        assert(entries_map(s) =~= entries_map(p).insert(last.0, last.1));
    }
}

/// Two ascending entry lists that stand for the same map are the same list.
pub proof fn lemma_ascending_unique(a: Seq<(u32, u32)>, b: Seq<(u32, u32)>)
    requires
        ascending(a),
        ascending(b),
        entries_map(a) == entries_map(b),
    ensures
        a == b,
    decreases a.len(),
{
    if a.len() == 0 {
        if b.len() > 0 {
            lemma_entries_map_at(b, 0);
        }
        assert(b =~= a);
    } else if b.len() == 0 {
        lemma_entries_map_at(a, 0);
    } else {
        let la = a.len() - 1;
        let lb = b.len() - 1;
        lemma_entries_map_at(a, la);
        lemma_entries_map_at(b, lb);
        let ja = choose|j: int| 0 <= j < b.len() && b[j].0 == a[la].0;
        let jb = choose|j: int| 0 <= j < a.len() && a[j].0 == b[lb].0;
        assert(a[la].0 == b[lb].0) by {
            if ja < lb {
                assert(b[ja].0 < b[lb].0);
            }
            if jb < la {
                assert(a[jb].0 < a[la].0);
            }
        }
        lemma_entries_map_at(b, lb);
        let pa = a.drop_last();
        let pb = b.drop_last();
        assert(ascending(pa));
        assert(ascending(pb));
        lemma_inserted_map(a);
        lemma_inserted_map(b);
        lemma_inserted_map(pa);
        lemma_inserted_map(pb);
        let k = a[la].0;
        assert(!entries_map(pa).contains_key(k)) by {
            if entries_map(pa).contains_key(k) {
                let j = choose|j: int| 0 <= j < pa.len() && pa[j].0 == k;
                assert(a[j].0 < a[la].0);
            }
        }
        assert(!entries_map(pb).contains_key(k)) by {
            if entries_map(pb).contains_key(k) {
                let j = choose|j: int| 0 <= j < pb.len() && pb[j].0 == k;
                assert(b[j].0 < b[lb].0);
            }
        }
        assert(entries_map(pa) =~= entries_map(a).remove(k));
        assert(entries_map(pb) =~= entries_map(b).remove(k));
        lemma_ascending_unique(pa, pb);
        assert(a =~= pa.push(a[la]));
        assert(b =~= pb.push(b[lb]));
    }
}

/// An associative container of integers, kept in ascending key order so that
/// its encoding does not depend on the order of insertion.
#[derive(Debug)]
pub struct PackedMap {
    entries: Vec<(u32, u32)>,
}

impl View for PackedMap {
    type V = Map<u32, u32>;

    open spec fn view(&self) -> Map<u32, u32> {
        entries_map(self.entries_spec())
    }
}

impl PackedMap {
    /// The entries in ascending key order.
    pub closed spec fn entries_spec(&self) -> Seq<(u32, u32)> {
        self.entries@
    }

    /// The entries ascend by key.
    pub open spec fn wf(&self) -> bool {
        ascending(self.entries_spec())
    }

    /// An empty map.
    pub fn new() -> (r: PackedMap)
        ensures
            r.wf(),
            r@ == Map::<u32, u32>::empty(),
            r.entries_spec().len() == 0,
    {
        let r = PackedMap { entries: Vec::new() };
        assert(r@ =~= Map::<u32, u32>::empty());
        r
    }

    /// The number of entries.
    pub fn len(&self) -> (r: usize)
        requires
            self.wf(),
        ensures
            r == self@.dom().len(),
            r == self.entries_spec().len(),
    {
        proof {
            lemma_inserted_map(self.entries@);
            lemma_ascending_dom_len(self.entries@);
        }
        self.entries.len()
    }

    /// The value stored under `k`, if any.
    pub fn get(&self, k: u32) -> (r: Option<u32>)
        requires
            self.wf(),
        ensures
            r == (if self@.contains_key(k) { Some(self@[k]) } else { None }),
    {
        let mut i: usize = 0;
        while i < self.entries.len()
            invariant
                self.wf(),
                i <= self.entries.len(),
                forall|j: int| 0 <= j < i ==> (#[trigger] self.entries@[j]).0 != k,
            decreases self.entries.len() - i,
        {
            if self.entries[i].0 == k {
                proof {
                    lemma_entries_map_at(self.entries@, i as int);
                }
                return Some(self.entries[i].1);
            }
            i = i + 1;
        }
        None
    }

    /// The entries in ascending key order.
    pub fn entries(&self) -> (r: &Vec<(u32, u32)>)
        ensures
            r@ == self.entries_spec(),
    {
        &self.entries
    }

    /// Stores `v` under `k`, replacing what was there.
    pub fn insert(&mut self, k: u32, v: u32)
        requires
            old(self).wf(),
        ensures
            final(self).wf(),
            final(self)@ == old(self)@.insert(k, v),
    {
        let ghost s = self.entries@;
        let mut i: usize = 0;
        while i < self.entries.len() && self.entries[i].0 < k
            invariant
                self.entries@ == s,
                ascending(s),
                i <= s.len(),
                forall|j: int| 0 <= j < i ==> (#[trigger] s[j]).0 < k,
            decreases s.len() - i,
        {
            i = i + 1;
        }
        if i < self.entries.len() && self.entries[i].0 == k {
            self.entries.remove(i);
            self.entries.insert(i, (k, v));
            assert(self.entries@ =~= s.update(i as int, (k, v)));
        } else {
            self.entries.insert(i, (k, v));
            assert(self.entries@ =~= s.insert(i as int, (k, v)));
        }
        let ghost t = self.entries@;
        assert(ascending(t)) by {
            assert forall|a: int, b: int| 0 <= a < b < t.len() implies (#[trigger] t[a]).0 < (
            #[trigger] t[b]).0 by {
                if t.len() == s.len() {
                    assert(s[a].0 < s[b].0);
                } else {
                    if b < i {
                        assert(s[a].0 < s[b].0);
                    } else if a < i && b == i {
                    } else if a < i {
                        assert(s[a].0 < s[b - 1].0);
                    } else if a == i {
                        assert(s[b - 1].0 >= k);
                        if b - 1 > i {
                            assert(s[i as int].0 < s[b - 1].0);
                        }
                    } else {
                        assert(s[a - 1].0 < s[b - 1].0);
                    }
                }
            }
        }
        assert forall|key: u32| #[trigger] entries_map(t).contains_key(key) <==> entries_map(
            s,
        ).insert(k, v).contains_key(key) by {
            if entries_map(t).contains_key(key) {
                let j = choose|j: int| 0 <= j < t.len() && t[j].0 == key;
                if t.len() == s.len() {
                    if j != i {
                        assert(s[j].0 == key);
                    }
                } else if j < i {
                    assert(s[j].0 == key);
                } else if j > i {
                    assert(s[j - 1].0 == key);
                }
            }
            if entries_map(s).contains_key(key) {
                let j = choose|j: int| 0 <= j < s.len() && s[j].0 == key;
                if t.len() == s.len() {
                    if j != i {
                        assert(t[j].0 == key);
                    }
                } else if j < i {
                    assert(t[j].0 == key);
                } else {
                    assert(t[j + 1].0 == key);
                }
            }
            assert(t[i as int].0 == k);
        }
        assert forall|key: u32| #[trigger] entries_map(t).contains_key(key) implies entries_map(
            t,
        )[key] == entries_map(s).insert(k, v)[key] by {
            let j = choose|j: int| 0 <= j < t.len() && t[j].0 == key;
            lemma_entries_map_at(t, j);
            if key != k {
                let js: int = if t.len() == s.len() || j < i {
                    j
                } else {
                    j - 1
                };
                assert(s[js] == t[j]);
                lemma_entries_map_at(s, js);
            }
        }
        assert(entries_map(t) =~= entries_map(s).insert(k, v));
    }
}

/// Ascending entries have as many keys as entries.
pub proof fn lemma_ascending_dom_len(s: Seq<(u32, u32)>)
    requires
        ascending(s),
    ensures
        entries_map(s).dom().finite(),
        entries_map(s).dom().len() == s.len(),
    decreases s.len(),
{
    lemma_inserted_map(s);
    if s.len() > 0 {
        let p = s.drop_last();
        assert(ascending(p));
        lemma_ascending_dom_len(p);
        lemma_inserted_map(p);
        assert(!entries_map(p).contains_key(s.last().0)) by {
            if entries_map(p).contains_key(s.last().0) {
                let j = choose|j: int| 0 <= j < p.len() && p[j].0 == s.last().0;
                assert(s[j].0 < s[s.len() - 1].0);
            }
        }
    }
}

/// The encodings of the entries, one after another: key, then value.
pub open spec fn enc_pairs(s: Seq<(u32, u32)>) -> Seq<u8>
    decreases s.len(),
{
    if s.len() == 0 {
        Seq::empty()
    } else {
        enc_pairs(s.drop_last()) + le_bytes(s.last().0) + le_bytes(s.last().1)
    }
}

/// The encoding of a map given by its ascending entries: the number of
/// entries, then the entries.
pub open spec fn enc_map(s: Seq<(u32, u32)>) -> Seq<u8> {
    le_bytes(s.len() as u32) + enc_pairs(s)
}

/// The `n` entries that follow the count at the start of `s`.
pub open spec fn pairs_at(s: Seq<u8>, n: nat) -> Seq<(u32, u32)> {
    Seq::new(n, |i: int| (le_at(s, 4 + 8 * i), le_at(s, 8 + 8 * i)))
}

/// Decodes a map: its entries are inserted in the order they come.
pub open spec fn parse_map(s: Seq<u8>) -> Result<(Map<u32, u32>, int), DecodeError> {
    match parse_u32(s) {
        Err(e) => Err(e),
        Ok((count, _)) => if s.len() < 4 + 8 * count {
            Err(DecodeError::Truncated)
        } else {
            Ok((inserted_map(pairs_at(s, count as nat)), 4 + 8 * count))
        },
    }
}

/// The entries' encodings sit at consecutive offsets of eight bytes.
pub proof fn lemma_enc_pairs_layout(v: Seq<(u32, u32)>)
    ensures
        enc_pairs(v).len() == 8 * v.len(),
        forall|i: int, k: int|
            0 <= i < v.len() && 0 <= k < 4 ==> #[trigger] enc_pairs(v)[8 * i + k] == le_bytes(
                v[i].0,
            )[k] && enc_pairs(v)[8 * i + 4 + k] == le_bytes(v[i].1)[k],
    decreases v.len(),
{
    if v.len() > 0 {
        lemma_enc_pairs_layout(v.drop_last());
        let e = enc_pairs(v);
        let p = enc_pairs(v.drop_last());
        assert forall|i: int, k: int| 0 <= i < v.len() && 0 <= k < 4 implies #[trigger] e[8 * i
            + k] == le_bytes(v[i].0)[k] && e[8 * i + 4 + k] == le_bytes(v[i].1)[k] by {
            if i < v.len() - 1 {
                assert(e[8 * i + k] == p[8 * i + k]);
                assert(e[8 * i + 4 + k] == p[8 * i + 4 + k]);
                assert(v.drop_last()[i] == v[i]);
            }
        }
    }
}

/// Appends the encoding of a map.
pub fn encode_map(m: &PackedMap, out: &mut Vec<u8>)
    requires
        m.wf(),
        m@.dom().len() <= u32::MAX,
    ensures
        final(out)@ == old(out)@ + enc_map(m.entries_spec()),
{
    let es = m.entries();
    let n = m.len();
    encode_u32(n as u32, out);
    let mut i: usize = 0;
    while i < es.len()
        invariant
            i <= es.len(),
            es@ == m.entries_spec(),
            n == es.len(),
            out@ == old(out)@ + le_bytes(n as u32) + enc_pairs(es@.subrange(0, i as int)),
        decreases es.len() - i,
    {
        let (k, v) = es[i];
        encode_u32(k, out);
        encode_u32(v, out);
        assert(es@.subrange(0, i + 1).drop_last() =~= es@.subrange(0, i as int));
        assert(out@ =~= old(out)@ + le_bytes(n as u32) + enc_pairs(es@.subrange(0, i + 1)));
        i = i + 1;
    }
    assert(es@.subrange(0, es.len() as int) =~= es@);
    assert(final(out)@ =~= old(out)@ + enc_map(m.entries_spec()));
}

/// Decodes a map at `pos`.
pub fn decode_map(bytes: &Vec<u8>, pos: usize) -> (r: Result<(PackedMap, usize), DecodeError>)
    requires
        pos <= bytes.len(),
    ensures
        match parse_map(rest(bytes@, pos as int)) {
            Ok((m, n)) => r is Ok && r->Ok_0.0.wf() && r->Ok_0.0@ == m && r->Ok_0.1 == pos + n,
            Err(e) => r is Err && r->Err_0 == e,
        },
{
    let ghost s = rest(bytes@, pos as int);
    let (count, start) = match decode_u32(bytes, pos) {
        Ok(p) => p,
        Err(e) => return Err(e),
    };
    let avail = bytes.len() - start;
    if (count as u64) * 8 > avail as u64 {
        return Err(DecodeError::Truncated);
    }
    let ghost pairs = pairs_at(s, count as nat);
    let mut m = PackedMap::new();
    let mut i: usize = 0;
    while i < count as usize
        invariant
            start == pos + 4,
            start <= bytes.len(),
            8 * count <= bytes.len() - start,
            i <= count,
            s == rest(bytes@, pos as int),
            pairs == pairs_at(s, count as nat),
            m.wf(),
            m@ == inserted_map(pairs.subrange(0, i as int)),
        decreases count - i,
    {
        let p = start + 8 * i;
        let k = match decode_u32(bytes, p) {
            Ok((x, _)) => x,
            Err(e) => return Err(e),
        };
        let v = match decode_u32(bytes, p + 4) {
            Ok((x, _)) => x,
            Err(e) => return Err(e),
        };
        assert(le_at(rest(bytes@, p as int), 0) == le_at(s, 4 + 8 * i));
        assert(le_at(rest(bytes@, p + 4), 0) == le_at(s, 8 + 8 * i));
        m.insert(k, v);
        assert(pairs.subrange(0, i + 1).drop_last() =~= pairs.subrange(0, i as int));
        i = i + 1;
    }
    assert(pairs.subrange(0, count as int) =~= pairs);
    Ok((m, start + 8 * (count as usize)))
}

/// An encoded map reads back as the same map.
pub proof fn lemma_map_round_trip(m: PackedMap, tail: Seq<u8>)
    requires
        m.wf(),
        m@.dom().len() <= u32::MAX,
    ensures
        parse_map(enc_map(m.entries_spec()) + tail) == Ok::<(Map<u32, u32>, int), DecodeError>(
            (m@, enc_map(m.entries_spec()).len() as int),
        ),
{
    let v = m.entries_spec();
    lemma_ascending_dom_len(v);
    let s = enc_map(v) + tail;
    lemma_enc_pairs_layout(v);
    assert(s =~= le_bytes(v.len() as u32) + (enc_pairs(v) + tail));
    lemma_u32_round_trip(v.len() as u32, enc_pairs(v) + tail);
    let w = pairs_at(s, v.len());
    assert forall|i: int| 0 <= i < v.len() implies w[i] == v[i] by {
        let e = enc_pairs(v);
        assert(s[4 + 8 * i] == e[8 * i + 0]);
        assert(s[4 + 8 * i + 1] == e[8 * i + 1]);
        assert(s[4 + 8 * i + 2] == e[8 * i + 2]);
        assert(s[4 + 8 * i + 3] == e[8 * i + 3]);
        assert(s[8 + 8 * i] == e[8 * i + 4 + 0]);
        assert(s[8 + 8 * i + 1] == e[8 * i + 4 + 1]);
        assert(s[8 + 8 * i + 2] == e[8 * i + 4 + 2]);
        assert(s[8 + 8 * i + 3] == e[8 * i + 4 + 3]);
        lemma_le_round_trip(v[i].0);
        lemma_le_round_trip(v[i].1);
    }
    assert(w =~= v);
    lemma_inserted_map(v);
}

/// Two maps with the same contents have the same encoding, whatever order
/// their entries were inserted in.
pub proof fn lemma_map_encoding_order_independent(a: PackedMap, b: PackedMap)
    requires
        a.wf(),
        b.wf(),
        a@ == b@,
    ensures
        enc_map(a.entries_spec()) == enc_map(b.entries_spec()),
{
    lemma_ascending_unique(a.entries_spec(), b.entries_spec());
}

// ----------------------------------------------------------- nested values

/// A tagged union whose variants carry scalars, a nested union, a tuple, a
/// sequence or a map.
#[derive(Debug)]
pub enum Entry {
    Empty,
    Flag(bool),
    Number(Option<u32>),
    Pair(u32, u32),
    List(Vec<u32>),
    Table(PackedMap),
}

/// What an [`Entry`] holds.
pub enum EntryModel {
    Empty,
    Flag(bool),
    Number(Option<u32>),
    Pair(u32, u32),
    List(Seq<u32>),
    Table(Map<u32, u32>),
}

impl View for Entry {
    type V = EntryModel;

    open spec fn view(&self) -> EntryModel {
        match self {
            Entry::Empty => EntryModel::Empty,
            Entry::Flag(b) => EntryModel::Flag(*b),
            Entry::Number(o) => EntryModel::Number(*o),
            Entry::Pair(a, b) => EntryModel::Pair(*a, *b),
            Entry::List(v) => EntryModel::List(v@),
            Entry::Table(m) => EntryModel::Table(m@),
        }
    }
}

impl Entry {
    /// The entry can be encoded: its containers are well formed and their
    /// lengths fit the length prefix.
    pub open spec fn wf(&self) -> bool {
        match self {
            Entry::List(v) => v.len() <= u32::MAX,
            Entry::Table(m) => m.wf() && m@.dom().len() <= u32::MAX,
            _ => true,
        }
    }
}

/// The encoding of an entry: its variant's index, then its payload.
pub open spec fn enc_entry(e: Entry) -> Seq<u8> {
    match e {
        Entry::Empty => seq![0u8],
        Entry::Flag(b) => seq![1u8] + enc_bool(b),
        Entry::Number(o) => seq![2u8] + enc_opt(o),
        Entry::Pair(a, b) => seq![3u8] + le_bytes(a) + le_bytes(b),
        Entry::List(v) => seq![4u8] + enc_seq(v@),
        Entry::Table(m) => seq![5u8] + enc_map(m.entries_spec()),
    }
}

/// Decodes an entry.
pub open spec fn parse_entry(s: Seq<u8>) -> Result<(EntryModel, int), DecodeError> {
    if s.len() < 1 {
        Err(DecodeError::Truncated)
    } else {
        let p = s.subrange(1, s.len() as int);
        if s[0] == 0 {
            Ok((EntryModel::Empty, 1))
        } else if s[0] == 1 {
            match parse_bool(p) {
                Ok((b, n)) => Ok((EntryModel::Flag(b), 1 + n)),
                Err(e) => Err(e),
            }
        } else if s[0] == 2 {
            match parse_opt(p) {
                Ok((o, n)) => Ok((EntryModel::Number(o), 1 + n)),
                Err(e) => Err(e),
            }
        } else if s[0] == 3 {
            if p.len() < 8 {
                Err(DecodeError::Truncated)
            } else {
                Ok((EntryModel::Pair(le_at(p, 0), le_at(p, 4)), 9))
            }
        } else if s[0] == 4 {
            match parse_seq(p) {
                Ok((v, n)) => Ok((EntryModel::List(v), 1 + n)),
                Err(e) => Err(e),
            }
        } else if s[0] == 5 {
            match parse_map(p) {
                Ok((m, n)) => Ok((EntryModel::Table(m), 1 + n)),
                Err(e) => Err(e),
            }
        } else {
            Err(DecodeError::UnknownVariant)
        }
    }
}

/// Appends the encoding of an entry.
pub fn encode_entry(e: &Entry, out: &mut Vec<u8>)
    requires
        e.wf(),
    ensures
        final(out)@ == old(out)@ + enc_entry(*e),
{
    match e {
        Entry::Empty => {
            out.push(0u8);
        },
        Entry::Flag(b) => {
            out.push(1u8);
            encode_bool(*b, out);
        },
        Entry::Number(o) => {
            out.push(2u8);
            encode_opt(*o, out);
        },
        Entry::Pair(a, b) => {
            out.push(3u8);
            encode_u32(*a, out);
            encode_u32(*b, out);
        },
        Entry::List(v) => {
            out.push(4u8);
            encode_seq(v, out);
        },
        Entry::Table(m) => {
            out.push(5u8);
            encode_map(m, out);
        },
    }
    assert(final(out)@ =~= old(out)@ + enc_entry(*e));
}

/// Decodes an entry at `pos`.
pub fn decode_entry(bytes: &Vec<u8>, pos: usize) -> (r: Result<(Entry, usize), DecodeError>)
    requires
        pos <= bytes.len(),
    ensures
        match parse_entry(rest(bytes@, pos as int)) {
            Ok((v, n)) => r is Ok && r->Ok_0.0.wf() && r->Ok_0.0@ == v && r->Ok_0.1 == pos + n,
            Err(e) => r is Err && r->Err_0 == e,
        },
{
    let ghost s = rest(bytes@, pos as int);
    if pos >= bytes.len() {
        return Err(DecodeError::Truncated);
    }
    let tag = bytes[pos];
    let next = pos + 1;
    assert(s.subrange(1, s.len() as int) =~= rest(bytes@, next as int));
    if tag == 0 {
        Ok((Entry::Empty, next))
    } else if tag == 1 {
        match decode_bool(bytes, next) {
            Ok((b, end)) => Ok((Entry::Flag(b), end)),
            Err(e) => Err(e),
        }
    } else if tag == 2 {
        match decode_opt(bytes, next) {
            Ok((o, end)) => Ok((Entry::Number(o), end)),
            Err(e) => Err(e),
        }
    } else if tag == 3 {
        let (a, mid) = match decode_u32(bytes, next) {
            Ok(p) => p,
            Err(e) => return Err(e),
        };
        match decode_u32(bytes, mid) {
            Ok((b, end)) => {
                assert(le_at(rest(bytes@, mid as int), 0) == le_at(rest(bytes@, next as int), 4));
                Ok((Entry::Pair(a, b), end))
            },
            Err(e) => Err(e),
        }
    } else if tag == 4 {
        match decode_seq(bytes, next) {
            Ok((v, end)) => {
                proof {
                    lemma_parsed_len_fits(rest(bytes@, next as int));
                }
                Ok((Entry::List(v), end))
            },
            Err(e) => Err(e),
        }
    } else if tag == 5 {
        match decode_map(bytes, next) {
            Ok((m, end)) => {
                proof {
                    lemma_parsed_map_fits(rest(bytes@, next as int));
                    lemma_ascending_dom_len(m.entries_spec());
                }
                Ok((Entry::Table(m), end))
            },
            Err(e) => Err(e),
        }
    } else {
        Err(DecodeError::UnknownVariant)
    }
}

/// A decoded sequence has no more elements than its count allows.
pub proof fn lemma_parsed_len_fits(s: Seq<u8>)
    ensures
        parse_seq(s) is Ok ==> parse_seq(s)->Ok_0.0.len() <= u32::MAX,
{
}

/// A decoded map has no more keys than its count allows.
pub proof fn lemma_parsed_map_fits(s: Seq<u8>)
    ensures
        parse_map(s) is Ok ==> parse_map(s)->Ok_0.0.dom().finite() && parse_map(s)->Ok_0.0.dom().len() <= u32::MAX,
{
    if parse_map(s) is Ok {
        let count = le_at(s, 0);
        lemma_inserted_map_dom(pairs_at(s, count as nat));
    }
}

/// Inserting entries one by one gives at most as many keys as entries.
pub proof fn lemma_inserted_map_dom(s: Seq<(u32, u32)>)
    ensures
        inserted_map(s).dom().finite(),
        inserted_map(s).dom().len() <= s.len(),
    decreases s.len(),
{
    if s.len() > 0 {
        lemma_inserted_map_dom(s.drop_last());
    }
}

/// An encoded entry reads back as itself.
pub proof fn lemma_entry_round_trip(e: Entry, tail: Seq<u8>)
    requires
        e.wf(),
    ensures
        parse_entry(enc_entry(e) + tail) == Ok::<(EntryModel, int), DecodeError>(
            (e@, enc_entry(e).len() as int),
        ),
{
    let s = enc_entry(e) + tail;
    let p = s.subrange(1, s.len() as int);
    assert(s[0] == enc_entry(e)[0]);
    match e {
        Entry::Empty => {},
        Entry::Flag(b) => {
            assert(p =~= enc_bool(b) + tail);
            lemma_bool_round_trip(b, tail);
        },
        Entry::Number(o) => {
            assert(p =~= enc_opt(o) + tail);
            lemma_opt_round_trip(o, tail);
        },
        Entry::Pair(a, b) => {
            assert(p =~= le_bytes(a) + (le_bytes(b) + tail));
            lemma_u32_round_trip(a, le_bytes(b) + tail);
            assert(p.subrange(4, p.len() as int) =~= le_bytes(b) + tail);
            lemma_u32_round_trip(b, tail);
            assert(le_at(p, 4) == le_at(p.subrange(4, p.len() as int), 0));
        },
        Entry::List(v) => {
            assert(p =~= enc_seq(v@) + tail);
            lemma_seq_round_trip(v@, tail);
        },
        Entry::Table(m) => {
            assert(p =~= enc_map(m.entries_spec()) + tail);
            lemma_map_round_trip(m, tail);
        },
    }
}

/// A record: its fields are encoded one after another in declared order.
#[derive(Debug)]
pub struct Record {
    pub id: u32,
    pub active: bool,
    pub entry: Entry,
}

impl View for Record {
    type V = (u32, bool, EntryModel);

    open spec fn view(&self) -> (u32, bool, EntryModel) {
        (self.id, self.active, self.entry@)
    }
}

/// The encoding of a record.
pub open spec fn enc_record(r: Record) -> Seq<u8> {
    le_bytes(r.id) + enc_bool(r.active) + enc_entry(r.entry)
}

/// Decodes a record: the first failing field decides the error.
pub open spec fn parse_record(s: Seq<u8>) -> Result<((u32, bool, EntryModel), int), DecodeError> {
    match parse_u32(s) {
        Err(e) => Err(e),
        Ok((id, n1)) => match parse_bool(s.subrange(n1, s.len() as int)) {
            Err(e) => Err(e),
            Ok((active, n2)) => match parse_entry(s.subrange(n1 + n2, s.len() as int)) {
                Err(e) => Err(e),
                Ok((entry, n3)) => Ok(((id, active, entry), n1 + n2 + n3)),
            },
        },
    }
}

/// Appends the encoding of a record.
pub fn encode_record(r: &Record, out: &mut Vec<u8>)
    requires
        r.entry.wf(),
    ensures
        final(out)@ == old(out)@ + enc_record(*r),
{
    encode_u32(r.id, out);
    encode_bool(r.active, out);
    encode_entry(&r.entry, out);
    assert(final(out)@ =~= old(out)@ + enc_record(*r));
}

/// Decodes a record at `pos`.
pub fn decode_record(bytes: &Vec<u8>, pos: usize) -> (r: Result<(Record, usize), DecodeError>)
    requires
        pos <= bytes.len(),
    ensures
        match parse_record(rest(bytes@, pos as int)) {
            Ok((v, n)) => r is Ok && r->Ok_0.0.entry.wf() && r->Ok_0.0@ == v && r->Ok_0.1 == pos
                + n,
            Err(e) => r is Err && r->Err_0 == e,
        },
{
    let ghost s = rest(bytes@, pos as int);
    let (id, p1) = match decode_u32(bytes, pos) {
        Ok(x) => x,
        Err(e) => return Err(e),
    };
    assert(s.subrange(4, s.len() as int) =~= rest(bytes@, p1 as int));
    let (active, p2) = match decode_bool(bytes, p1) {
        Ok(x) => x,
        Err(e) => return Err(e),
    };
    assert(s.subrange(5, s.len() as int) =~= rest(bytes@, p2 as int));
    match decode_entry(bytes, p2) {
        Ok((entry, end)) => Ok((Record { id, active, entry }, end)),
        Err(e) => Err(e),
    }
}

/// Encodes a record into a fresh buffer.
pub fn encode(r: &Record) -> (bytes: Vec<u8>)
    requires
        r.entry.wf(),
    ensures
        bytes@ == enc_record(*r),
{
    let mut out: Vec<u8> = Vec::new();
    encode_record(r, &mut out);
    assert(out@ =~= enc_record(*r));
    out
}

/// Decodes a record from the start of `bytes`; bytes after it are left
/// unread.
pub fn decode(bytes: &Vec<u8>) -> (r: Result<Record, DecodeError>)
    ensures
        match parse_record(bytes@) {
            Ok((v, _)) => r is Ok && r->Ok_0.entry.wf() && r->Ok_0@ == v,
            Err(e) => r is Err && r->Err_0 == e,
        },
{
    assert(rest(bytes@, 0) =~= bytes@);
    match decode_record(bytes, 0) {
        Ok((rec, _)) => Ok(rec),
        Err(e) => Err(e),
    }
}

/// An encoded record reads back as itself.
pub proof fn lemma_record_round_trip(r: Record, tail: Seq<u8>)
    requires
        r.entry.wf(),
    ensures
        parse_record(enc_record(r) + tail) == Ok::<((u32, bool, EntryModel), int), DecodeError>(
            (r@, enc_record(r).len() as int),
        ),
{
    let s = enc_record(r) + tail;
    let t2 = enc_entry(r.entry) + tail;
    let t1 = enc_bool(r.active) + t2;
    assert(s =~= le_bytes(r.id) + t1);
    lemma_u32_round_trip(r.id, t1);
    assert(s.subrange(4, s.len() as int) =~= t1);
    lemma_bool_round_trip(r.active, t2);
    assert(s.subrange(5, s.len() as int) =~= t2);
    lemma_entry_round_trip(r.entry, tail);
}

/// Decoding an encoded record, with nothing after it, gives the record back.
pub proof fn lemma_decode_encode(r: Record)
    requires
        r.entry.wf(),
    ensures
        parse_record(enc_record(r)) matches Ok((v, n)) && v == r@ && n == enc_record(r).len(),
{
    lemma_record_round_trip(r, Seq::empty());
    assert(enc_record(r) + Seq::<u8>::empty() =~= enc_record(r));
}

/// An empty input decodes to a truncation error against every value type,
/// nested ones included.
pub proof fn lemma_empty_input_truncated()
    ensures
        parse_u32(Seq::empty()) == Err::<(u32, int), DecodeError>(DecodeError::Truncated),
        parse_bool(Seq::empty()) == Err::<(bool, int), DecodeError>(DecodeError::Truncated),
        parse_opt(Seq::empty()) == Err::<(Option<u32>, int), DecodeError>(DecodeError::Truncated),
        parse_seq(Seq::empty()) == Err::<(Seq<u32>, int), DecodeError>(DecodeError::Truncated),
        parse_map(Seq::empty()) == Err::<(Map<u32, u32>, int), DecodeError>(
            DecodeError::Truncated,
        ),
        parse_entry(Seq::empty()) == Err::<(EntryModel, int), DecodeError>(
            DecodeError::Truncated,
        ),
        parse_record(Seq::empty()) == Err::<((u32, bool, EntryModel), int), DecodeError>(
            DecodeError::Truncated,
        ),
{
}

/// Every strict prefix of an encoded integer is truncated.
pub proof fn lemma_u32_prefix_truncated(x: u32, n: int)
    requires
        0 <= n < 4,
    ensures
        parse_u32(le_bytes(x).subrange(0, n)) == Err::<(u32, int), DecodeError>(
            DecodeError::Truncated,
        ),
{
}

/// Every strict prefix of an encoded optional integer is truncated.
pub proof fn lemma_opt_prefix_truncated(o: Option<u32>, n: int)
    requires
        0 <= n < enc_opt(o).len(),
    ensures
        parse_opt(enc_opt(o).subrange(0, n)) == Err::<(Option<u32>, int), DecodeError>(
            DecodeError::Truncated,
        ),
{
    let s = enc_opt(o).subrange(0, n);
    if n > 0 {
        assert(s[0] == enc_opt(o)[0]);
    }
}

/// Every strict prefix of an encoded sequence is truncated.
pub proof fn lemma_seq_prefix_truncated(v: Seq<u32>, n: int)
    requires
        v.len() <= u32::MAX,
        0 <= n < enc_seq(v).len(),
    ensures
        parse_seq(enc_seq(v).subrange(0, n)) == Err::<(Seq<u32>, int), DecodeError>(
            DecodeError::Truncated,
        ),
{
    lemma_enc_elems_layout(v);
    if n >= 4 {
        let s = enc_seq(v).subrange(0, n);
        lemma_u32_round_trip(v.len() as u32, enc_elems(v));
        assert(s[0] == enc_seq(v)[0] && s[1] == enc_seq(v)[1] && s[2] == enc_seq(v)[2] && s[3]
            == enc_seq(v)[3]);
        assert(le_at(s, 0) == le_at(enc_seq(v), 0));
        assert(enc_seq(v) == le_bytes(v.len() as u32) + enc_elems(v));
    }
}

/// Every strict prefix of an encoded map is truncated.
pub proof fn lemma_map_prefix_truncated(m: PackedMap, n: int)
    requires
        m.wf(),
        m@.dom().len() <= u32::MAX,
        0 <= n < enc_map(m.entries_spec()).len(),
    ensures
        parse_map(enc_map(m.entries_spec()).subrange(0, n)) == Err::<
            (Map<u32, u32>, int),
            DecodeError,
        >(DecodeError::Truncated),
{
    let v = m.entries_spec();
    lemma_ascending_dom_len(v);
    lemma_enc_pairs_layout(v);
    if n >= 4 {
        let s = enc_map(v).subrange(0, n);
        lemma_u32_round_trip(v.len() as u32, enc_pairs(v));
        assert(s[0] == enc_map(v)[0] && s[1] == enc_map(v)[1] && s[2] == enc_map(v)[2] && s[3]
            == enc_map(v)[3]);
        assert(le_at(s, 0) == le_at(enc_map(v), 0));
        assert(enc_map(v) == le_bytes(v.len() as u32) + enc_pairs(v));
    }
}

/// Every strict prefix of an encoded entry is truncated.
pub proof fn lemma_entry_prefix_truncated(e: Entry, n: int)
    requires
        e.wf(),
        0 <= n < enc_entry(e).len(),
    ensures
        parse_entry(enc_entry(e).subrange(0, n)) == Err::<(EntryModel, int), DecodeError>(
            DecodeError::Truncated,
        ),
{
    let s = enc_entry(e).subrange(0, n);
    if n > 0 {
        assert(s[0] == enc_entry(e)[0]);
        let p = s.subrange(1, s.len() as int);
        match e {
            Entry::Empty => {},
            Entry::Flag(b) => {},
            Entry::Number(o) => {
                assert(p =~= enc_opt(o).subrange(0, n - 1));
                lemma_opt_prefix_truncated(o, n - 1);
            },
            Entry::Pair(a, b) => {},
            Entry::List(v) => {
                assert(p =~= enc_seq(v@).subrange(0, n - 1));
                lemma_seq_prefix_truncated(v@, n - 1);
            },
            Entry::Table(m) => {
                assert(p =~= enc_map(m.entries_spec()).subrange(0, n - 1));
                lemma_map_prefix_truncated(m, n - 1);
            },
        }
    }
}

/// Every strict prefix of an encoded record, the empty input included, is
/// truncated: decoding never runs past the end of its input.
pub proof fn lemma_record_prefix_truncated(r: Record, n: int)
    requires
        r.entry.wf(),
        0 <= n < enc_record(r).len(),
    ensures
        parse_record(enc_record(r).subrange(0, n)) == Err::<
            ((u32, bool, EntryModel), int),
            DecodeError,
        >(DecodeError::Truncated),
{
    let full = enc_record(r);
    let s = full.subrange(0, n);
    if n >= 4 {
        lemma_u32_round_trip(r.id, enc_bool(r.active) + enc_entry(r.entry));
        assert(full =~= le_bytes(r.id) + (enc_bool(r.active) + enc_entry(r.entry)));
        assert(s[0] == full[0] && s[1] == full[1] && s[2] == full[2] && s[3] == full[3]);
        assert(le_at(s, 0) == le_at(full, 0));
        if n >= 5 {
            let s1 = s.subrange(4, s.len() as int);
            assert(s1[0] == full[4]);
            assert(full[4] == enc_bool(r.active)[0]);
            let s2 = s.subrange(5, s.len() as int);
            assert(s2 =~= enc_entry(r.entry).subrange(0, n - 5));
            lemma_entry_prefix_truncated(r.entry, n - 5);
        }
    }
}

} // verus!
