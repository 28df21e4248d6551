//! Byte-level network primitives: VarInt, big-endian `i32`, `bool` and raw
//! byte runs, with a reader over an owned buffer and writers that append to a
//! `Vec<u8>`.

use vstd::prelude::*;

verus! {

/// A protocol VarInt: an `i32` sent as little-endian groups of seven bits,
/// the high bit of each byte marking that another byte follows.
#[derive(Clone, Copy, Debug, PartialEq, Eq, Structural)]
pub struct VarInt(pub i32);

/// Upper bound on the byte length of a VarInt.
pub const VAR_INT_MAX_SIZE: usize = 5;

/// Why a read failed.
#[derive(Debug)]
pub enum ReadingError {
    /// The input ended before the value was complete.
    Incomplete(String),
    /// A value was longer than the format allows.
    TooLarge(String),
    /// The bytes were well framed but their content is not acceptable.
    Message(String),
}

/// The class of a read failure, as contracts speak of it.
#[derive(Clone, Copy, Debug, PartialEq, Eq, Structural)]
pub enum ErrorKind {
    Incomplete,
    TooLarge,
    Message,
}

/// A failure as contracts speak of it: its class and its text.
pub type Failure = (ErrorKind, Seq<char>);

impl ReadingError {
    /// The class and the text of this failure.
    pub open spec fn failure(&self) -> Failure {
        match self {
            ReadingError::Incomplete(m) => (ErrorKind::Incomplete, m@),
            ReadingError::TooLarge(m) => (ErrorKind::TooLarge, m@),
            ReadingError::Message(m) => (ErrorKind::Message, m@),
        }
    }
}

/// The failure of a read that runs out of input.
pub open spec fn end_of_input() -> Failure {
    (ErrorKind::Incomplete, "unexpected end of input"@)
}

/// A failure of class `Message` with text `m`.
pub open spec fn message(m: Seq<char>) -> Failure {
    (ErrorKind::Message, m)
}

/// The outcome of reading a value at the front of some bytes: the value and
/// the number of bytes it takes, or the failure and the number of bytes
/// consumed before it was found.
pub type ReadOutcome<T> = Result<(T, nat), (Failure, nat)>;

/// A read that returned `res` and moved a reader holding `before` to
/// holding `after` did what `o` describes.
pub open spec fn read_agrees<T>(
    o: ReadOutcome<T>,
    res: Result<T, ReadingError>,
    before: Seq<u8>,
    after: Seq<u8>,
) -> bool {
    match o {
        Ok((v, n)) => res matches Ok(x) && x == v && n <= before.len() && after == before.skip(
            n as int,
        ),
        Err((f, n)) => res matches Err(e) && e.failure() == f && n <= before.len() && after
            == before.skip(n as int),
    }
}

/// Why a write failed.
#[derive(Debug)]
pub enum WritingError {
    /// The value cannot be represented on the wire.
    Message(String),
}

// ---------------------------------------------------------------------------
// VarInt encoding
// ---------------------------------------------------------------------------

/// The byte sent for the seven-bit group `w & 0x7f` when more groups follow.
pub open spec fn cont_byte(w: u32) -> u8 {
    ((w & 0x7f) | 0x80) as u8
}

/// The bits that byte `b`, read as the `k`-th group, adds to a VarInt.
pub open spec fn group_bits(b: u8, k: u32) -> u32 {
    ((b & 0x7f) as u32) << (7 * k)
}

/// The bytes of the seven-bit-group encoding of `u`, lowest group first.
pub open spec fn leb_bytes(u: u32) -> Seq<u8>
    decreases u,
{
    if u >> 7u32 == 0 {
        seq![u as u8]
    } else {
        proof {
            lemma_shr7_decreases(u);
        }
        seq![cont_byte(u)] + leb_bytes(u >> 7u32)
    }
}

/// The wire bytes of a VarInt holding `v`.
pub open spec fn var_int_bytes(v: i32) -> Seq<u8> {
    leb_bytes(v as u32)
}

/// The low `7 * k` bits of a 32-bit word, for `k <= 5`.
pub open spec fn low_mask(k: u32) -> u32 {
    if k == 0 {
        0
    } else if k == 1 {
        0x7f
    } else if k == 2 {
        0x3fff
    } else if k == 3 {
        0x1f_ffff
    } else if k == 4 {
        0xfff_ffff
    } else {
        0xffff_ffff
    }
}

/// Decoding of a VarInt from `s`, where `k` groups (and `acc` holding their
/// bits) have already been read: the value as a 32-bit word and the number of
/// further bytes taken. A value whose first five bytes all carry the
/// continuation bit is refused.
pub open spec fn leb_decode(s: Seq<u8>, k: u32, acc: u32) -> Option<(u32, nat)>
    decreases 5 - k,
{
    if k >= 5 || s.len() == 0 {
        None
    } else {
        let b = s[0];
        let acc2 = acc | group_bits(b, k);
        if b & 0x80 == 0 {
            Some((acc2, 1nat))
        } else {
            match leb_decode(s.drop_first(), (k + 1) as u32, acc2) {
                Some((v, n)) => Some((v, n + 1)),
                None => None,
            }
        }
    }
}

/// The VarInt at the front of `s` and the number of bytes it takes.
pub open spec fn parse_var_int(s: Seq<u8>) -> Option<(i32, nat)> {
    match leb_decode(s, 0, 0) {
        Some((u, n)) => Some((u as i32, n)),
        None => None,
    }
}

/// `s` starts with five bytes that all announce a further byte.
pub open spec fn var_int_too_long(s: Seq<u8>) -> bool {
    &&& s.len() >= 5
    &&& forall|j: int| 0 <= j < 5 ==> #[trigger] s[j] & 0x80 != 0
}

/// The outcome of reading a VarInt at the front of `s`: five bytes that all
/// announce a further one are refused, and input that ends first is
/// consumed whole.
pub open spec fn var_int_result(s: Seq<u8>) -> ReadOutcome<i32> {
    match parse_var_int(s) {
        Some(r) => Ok(r),
        None => if var_int_too_long(s) {
            Err(((ErrorKind::TooLarge, "VarInt"@), 5nat))
        } else {
            Err((end_of_input(), s.len()))
        },
    }
}

proof fn lemma_leb_decode_len(s: Seq<u8>, k: u32, acc: u32)
    ensures
        leb_decode(s, k, acc) matches Some((v, n)) ==> 1 <= n <= s.len() && n <= 5 - k,
    decreases 5 - k,
{
    if k < 5 && s.len() > 0 {
        lemma_leb_decode_len(s.drop_first(), (k + 1) as u32, acc | group_bits(s[0], k));
    }
}

/// A VarInt that reads takes between one and five of the available bytes;
/// one that fails has consumed no more than there was.
pub proof fn lemma_var_int_result_len(s: Seq<u8>)
    ensures
        var_int_result(s) matches Ok((v, n)) ==> 1 <= n <= s.len() && n <= 5,
        var_int_result(s) matches Err((f, n)) ==> n <= s.len(),
{
    lemma_leb_decode_len(s, 0, 0);
}

/// Dropping a seven-bit group from a non-zero remainder makes it smaller.
pub proof fn lemma_shr7_decreases(u: u32)
    ensures
        u >> 7u32 != 0 ==> u >> 7u32 < u,
{
    assert(u >> 7u32 != 0 ==> u >> 7u32 < u) by (bit_vector);
}

proof fn lemma_leb_step_last(u: u32, k: u32)
    requires
        k <= 4,
        (u >> (7 * k)) >> 7u32 == 0,
    ensures
        (low_mask(k) & u) | group_bits((u >> (7 * k)) as u8, k) == u,
        (u >> (7 * k)) as u8 & 0x80 == 0,
{
    let w = u >> (7 * k);
    assert(k <= 4 && (u >> (7 * k)) >> 7u32 == 0 ==> (low_mask(k) & u) | group_bits(
        (u >> (7 * k)) as u8,
        k,
    ) == u) by (bit_vector);
    assert(w >> 7u32 == 0 ==> w as u8 & 0x80 == 0) by (bit_vector);
}

proof fn lemma_leb_step_more(u: u32, k: u32)
    requires
        k <= 4,
    ensures
        (low_mask(k) & u) | group_bits(cont_byte(u >> (7 * k)), k) == low_mask((k + 1) as u32) & u,
        cont_byte(u >> (7 * k)) & 0x80 != 0,
        (u >> (7 * k)) >> 7u32 == u >> (7 * (k + 1)),
        k == 4 ==> (u >> (7 * k)) >> 7u32 == 0,
{
    let w = u >> (7 * k);
    assert(k <= 4 ==> (low_mask(k) & u) | group_bits(cont_byte(u >> (7 * k)), k) == low_mask(
        (k + 1) as u32,
    ) & u) by (bit_vector);
    assert(cont_byte(w) & 0x80 != 0) by (bit_vector);
    assert(k <= 4 ==> (u >> (7 * k)) >> 7u32 == u >> (7 * (k + 1))) by (bit_vector);
    assert(k == 4 ==> (u >> (7 * k)) >> 7u32 == 0) by (bit_vector);
}

proof fn lemma_leb_decode_encode(u: u32, k: u32, rest: Seq<u8>)
    requires
        k <= 4,
    ensures
        leb_decode(leb_bytes(u >> (7 * k)) + rest, k, low_mask(k) & u) == Some(
            (u, leb_bytes(u >> (7 * k)).len()),
        ),
    decreases 5 - k,
{
    let w = u >> (7 * k);
    let s = leb_bytes(w) + rest;
    if w >> 7u32 == 0 {
        lemma_leb_step_last(u, k);
        assert(s[0] == w as u8);
    } else {
        lemma_leb_step_more(u, k);
        lemma_shr7_decreases(w);
        assert(s[0] == cont_byte(w));
        assert(s.drop_first() =~= leb_bytes(w >> 7u32) + rest);
        lemma_leb_decode_encode(u, (k + 1) as u32, rest);
    }
}

/// Reading a VarInt back from the front of its own encoding, whatever
/// follows it, gives the value written and consumes exactly its bytes.
pub proof fn lemma_var_int_roundtrip(v: i32, rest: Seq<u8>)
    ensures
        parse_var_int(var_int_bytes(v) + rest) == Some((v, var_int_bytes(v).len())),
        1 <= var_int_bytes(v).len() <= 5,
{
    let u = v as u32;
    assert(u >> 0u32 == u) by (bit_vector);
    assert(0u32 & u == 0u32) by (bit_vector);
    lemma_leb_decode_encode(u, 0, rest);
    assert((v as u32) as i32 == v) by (bit_vector);
    lemma_leb_len(u, 0);
}

proof fn lemma_leb_len(u: u32, k: u32)
    requires
        k <= 4,
    ensures
        1 <= leb_bytes(u >> (7 * k)).len() <= 5 - k,
    decreases 5 - k,
{
    let w = u >> (7 * k);
    if w >> 7u32 != 0 {
        lemma_leb_step_more(u, k);
        lemma_shr7_decreases(w);
        lemma_leb_len(u, (k + 1) as u32);
    }
}

// ---------------------------------------------------------------------------
// Fixed-width values
// ---------------------------------------------------------------------------

/// The big-endian bytes of `v`.
pub open spec fn i32_bytes(v: i32) -> Seq<u8> {
    let u = v as u32;
    seq![(u >> 24u32) as u8, (u >> 16u32) as u8, (u >> 8u32) as u8, u as u8]
}

/// The `i32` whose big-endian bytes are `b0 b1 b2 b3`.
pub open spec fn i32_from_bytes(b0: u8, b1: u8, b2: u8, b3: u8) -> i32 {
    ((b0 as u32) << 24u32 | (b1 as u32) << 16u32 | (b2 as u32) << 8u32 | b3 as u32) as i32
}

fn i32_of_bytes(b0: u8, b1: u8, b2: u8, b3: u8) -> (v: i32)
    ensures
        v == i32_from_bytes(b0, b1, b2, b3),
{
    ((b0 as u32) << 24u32 | (b1 as u32) << 16u32 | (b2 as u32) << 8u32 | b3 as u32) as i32
}

/// The big-endian `i32` at the front of `s`.
pub open spec fn parse_i32(s: Seq<u8>) -> Option<(i32, nat)> {
    if s.len() < 4 {
        None
    } else {
        Some((i32_from_bytes(s[0], s[1], s[2], s[3]), 4nat))
    }
}

/// The outcome of reading a big-endian `i32` at the front of `s`.
pub open spec fn i32_result(s: Seq<u8>) -> ReadOutcome<i32> {
    match parse_i32(s) {
        Some(r) => Ok(r),
        None => Err((end_of_input(), 0nat)),
    }
}

/// The outcome of reading the next `n` bytes of `s`.
pub open spec fn bytes_result(s: Seq<u8>, n: nat) -> ReadOutcome<Seq<u8>> {
    if n <= s.len() {
        Ok((s.take(n as int), n))
    } else {
        Err((end_of_input(), 0nat))
    }
}

/// The byte of a boolean.
pub open spec fn bool_byte(b: bool) -> u8 {
    if b {
        1
    } else {
        0
    }
}

/// The boolean at the front of `s`: any non-zero byte is `true`.
pub open spec fn parse_bool(s: Seq<u8>) -> Option<(bool, nat)> {
    if s.len() < 1 {
        None
    } else {
        Some((s[0] != 0, 1nat))
    }
}

/// The outcome of reading a boolean at the front of `s`.
pub open spec fn bool_result(s: Seq<u8>) -> ReadOutcome<bool> {
    match parse_bool(s) {
        Some(r) => Ok(r),
        None => Err((end_of_input(), 0nat)),
    }
}

/// Reading an `i32` back from the front of its encoding gives the value.
pub proof fn lemma_i32_roundtrip(v: i32, rest: Seq<u8>)
    ensures
        parse_i32(i32_bytes(v) + rest) == Some((v, 4nat)),
{
    let s = i32_bytes(v) + rest;
    let u = v as u32;
    assert(i32_from_bytes((u >> 24u32) as u8, (u >> 16u32) as u8, (u >> 8u32) as u8, u as u8) == v)
        by (bit_vector)
        requires
            u == v as u32,
    ;
    assert(s[0] == (u >> 24u32) as u8);
    assert(s[1] == (u >> 16u32) as u8);
    assert(s[2] == (u >> 8u32) as u8);
    assert(s[3] == u as u8);
}

/// Reading a boolean back from the front of its encoding gives the value.
pub proof fn lemma_bool_roundtrip(b: bool, rest: Seq<u8>)
    ensures
        parse_bool(seq![bool_byte(b)] + rest) == Some((b, 1nat)),
{
    assert((seq![bool_byte(b)] + rest)[0] == bool_byte(b));
}

/// Skipping `a` bytes and then `b` more is skipping `a + b`.
pub proof fn lemma_skip_skip(s: Seq<u8>, a: int, b: int)
    requires
        0 <= a,
        0 <= b,
        a + b <= s.len(),
    ensures
        s.skip(a).skip(b) == s.skip(a + b),
{
    assert(s.skip(a).skip(b) =~= s.skip(a + b));
}

/// A value read from the front of `x + rest`, where `x` is the value's whole
/// encoding, leaves exactly `rest`.
pub proof fn lemma_skip_prefix(x: Seq<u8>, rest: Seq<u8>)
    ensures
        (x + rest).skip(x.len() as int) == rest,
{
    assert((x + rest).skip(x.len() as int) =~= rest);
}

// ---------------------------------------------------------------------------
// Reader
// ---------------------------------------------------------------------------

/// A cursor over an owned byte buffer.
pub struct ByteReader {
    data: Vec<u8>,
    pos: usize,
}

impl View for ByteReader {
    type V = Seq<u8>;

    /// The bytes not read yet.
    closed spec fn view(&self) -> Seq<u8> {
        self.data@.subrange(self.pos as int, self.data@.len() as int)
    }
}

impl ByteReader {
    #[verifier::type_invariant]
    spec fn inv(self) -> bool {
        self.pos <= self.data.len()
    }

    /// The number of bytes consumed so far.
    pub closed spec fn consumed(&self) -> nat {
        self.pos as nat
    }

    /// A reader positioned at the first byte of `data`.
    pub fn new(data: Vec<u8>) -> (r: ByteReader)
        ensures
            r@ == data@,
            r.consumed() == 0,
    {
        let r = ByteReader { data, pos: 0 };
        assert(r@ =~= data@);
        r
    }

    /// The number of bytes consumed so far.
    pub fn position(&self) -> (p: usize)
        ensures
            p == self.consumed(),
    {
        self.pos
    }

    /// The number of bytes left.
    pub fn remaining(&self) -> (n: usize)
        ensures
            n == self@.len(),
    {
        proof {
            use_type_invariant(self);
        }
        self.data.len() - self.pos
    }

    /// Takes one byte.
    pub fn get_u8(&mut self) -> (res: Result<u8, ReadingError>)
        ensures
            match res {
                Ok(b) => {
                    &&& old(self)@.len() > 0
                    &&& b == old(self)@[0]
                    &&& final(self)@ == old(self)@.drop_first()
                    &&& final(self).consumed() == old(self).consumed() + 1
                },
                Err(e) => {
                    &&& old(self)@.len() == 0
                    &&& e.failure() == end_of_input()
                    &&& final(self)@ == old(self)@
                    &&& final(self).consumed() == old(self).consumed()
                },
            },
    {
        proof {
            use_type_invariant(&*self);
        }
        if self.pos < self.data.len() {
            let b = self.data[self.pos];
            self.pos = self.pos + 1;
            proof {
                assert(self@ =~= old(self)@.drop_first());
            }
            Ok(b)
        } else {
            Err(ReadingError::Incomplete(String::from_str("unexpected end of input")))
        }
    }

    /// Takes a VarInt.
    pub fn get_var_int(&mut self) -> (res: Result<VarInt, ReadingError>)
        ensures
            match res {
                Ok(v) => var_int_result(old(self)@) matches Ok((x, n)) && x == v.0 && final(self)@
                    == old(self)@.skip(n as int),
                Err(e) => var_int_result(old(self)@) matches Err((f, n)) && e.failure() == f
                    && final(self)@ == old(self)@.skip(n as int),
            },
    {
        let ghost orig = self@;
        let mut val: u32 = 0;
        let mut k: u32 = 0;
        assert(low_mask(0) & 0u32 == 0u32) by (bit_vector);
        loop
            invariant
                orig == old(self)@,
                k <= 5,
                k < 5 ==> val == low_mask(k) & val,
                self@ == orig.skip(k as int),
                k <= orig.len(),
                forall|j: int| 0 <= j < k ==> #[trigger] orig[j] & 0x80 != 0,
                leb_decode(orig, 0, 0) == match leb_decode(self@, k, val) {
                    Some((v, n)) => Some((v, (n + k) as nat)),
                    None => None::<(u32, nat)>,
                },
            decreases 5 - k,
        {
            if k == 5 {
                proof {
                    assert(leb_decode(self@, k, val) is None);
                    assert(orig.len() >= 5);
                    assert(var_int_too_long(orig));
                    assert(self@ =~= orig.skip(5));
                }
                return Err(ReadingError::TooLarge(String::from_str("VarInt")));
            }
            let ghost before = self@;
            let b = match self.get_u8() {
                Ok(b) => b,
                Err(e) => {
                    proof {
                        assert(self@.len() == 0);
                        assert(leb_decode(self@, k, val) is None);
                        assert(orig.len() == k);
                        assert(!var_int_too_long(orig));
                        assert(self@ =~= orig.skip(orig.len() as int));
                    }
                    return Err(e);
                },
            };
            let ghost acc_before = val;
            val = val | (((b & 0x7f) as u32) << (7 * k));
            assert(val == acc_before | group_bits(b, k));
            if b & 0x80 == 0 {
                proof {
                    assert(leb_decode(before, k, acc_before) == Some((val, 1nat)));
                    assert(orig.skip((k + 1) as int) =~= self@);
                    if var_int_too_long(orig) {
                        assert(orig[k as int] & 0x80 != 0);
                    }
                }
                let ghost n = (k + 1) as nat;
                let r = #[verifier::truncate] (val as i32);
                assert(parse_var_int(orig) == Some((r, n)));
                return Ok(VarInt(r));
            }
            proof {
                assert(self@ =~= orig.skip((k + 1) as int));
                assert(before.drop_first() =~= self@);
                if k < 4 {
                    assert(val == low_mask((k + 1) as u32) & val) by {
                        lemma_mask_grow(acc_before, b, k);
                    }
                }
            }
            k = k + 1;
        }
    }

    /// Takes a big-endian `i32`.
    pub fn get_i32(&mut self) -> (res: Result<i32, ReadingError>)
        ensures
            read_agrees(i32_result(old(self)@), res, old(self)@, final(self)@),
    {
        proof {
            use_type_invariant(&*self);
        }
        if self.data.len() - self.pos < 4 {
            proof {
                assert(self@ =~= old(self)@.skip(0));
            }
            return Err(ReadingError::Incomplete(String::from_str("unexpected end of input")));
        }
        let p = self.pos;
        let b0 = self.data[p];
        let b1 = self.data[p + 1];
        let b2 = self.data[p + 2];
        let b3 = self.data[p + 3];
        self.pos = p + 4;
        let v = i32_of_bytes(b0, b1, b2, b3);
        proof {
            assert(self@ =~= old(self)@.skip(4));
        }
        Ok(v)
    }

    /// Takes a boolean byte: zero is `false`, anything else `true`.
    pub fn get_bool(&mut self) -> (res: Result<bool, ReadingError>)
        ensures
            read_agrees(bool_result(old(self)@), res, old(self)@, final(self)@),
    {
        match self.get_u8() {
            Ok(b) => {
                assert(self@ =~= old(self)@.skip(1));
                Ok(b != 0)
            },
            Err(e) => {
                assert(self@ =~= old(self)@.skip(0));
                Err(e)
            },
        }
    }

    /// Takes the next `n` bytes.
    pub fn read_bytes(&mut self, n: usize) -> (res: Result<Vec<u8>, ReadingError>)
        ensures
            match res {
                Ok(bytes) => bytes_result(old(self)@, n as nat) matches Ok((b, m)) && b == bytes@
                    && final(self)@ == old(self)@.skip(n as int),
                Err(e) => bytes_result(old(self)@, n as nat) matches Err((f, m)) && e.failure() == f
                    && final(self)@ == old(self)@,
            },
    {
        proof {
            use_type_invariant(&*self);
        }
        if self.data.len() - self.pos < n {
            return Err(ReadingError::Incomplete(String::from_str("unexpected end of input")));
        }
        let mut out: Vec<u8> = Vec::new();
        let start = self.pos;
        let mut i: usize = 0;
        while i < n
            invariant
                start == self.pos,
                start + n <= self.data.len(),
                i <= n,
                out@ == self.data@.subrange(start as int, start + i),
            decreases n - i,
        {
            out.push(self.data[start + i]);
            i = i + 1;
            proof {
                assert(out@ =~= self.data@.subrange(start as int, start + i));
            }
        }
        self.pos = start + n;
        proof {
            assert(out@ =~= old(self)@.take(n as int));
            assert(self@ =~= old(self)@.skip(n as int));
        }
        Ok(out)
    }
}

proof fn lemma_mask_grow(acc: u32, b: u8, k: u32)
    requires
        k < 4,
        acc == low_mask(k) & acc,
    ensures
        acc | group_bits(b, k) == low_mask((k + 1) as u32) & (acc | group_bits(b, k)),
{
    assert(k < 4 && acc == low_mask(k) & acc ==> acc | group_bits(b, k) == low_mask((k + 1) as u32)
        & (acc | group_bits(b, k))) by (bit_vector);
}

// ---------------------------------------------------------------------------
// Writers
// ---------------------------------------------------------------------------

/// Appends the VarInt encoding of `v`.
pub fn put_var_int(buf: &mut Vec<u8>, v: &VarInt)
    ensures
        final(buf)@ == old(buf)@ + var_int_bytes(v.0),
{
    let mut val: u32 = v.0 as u32;
    loop
        invariant
            buf@ + leb_bytes(val) == old(buf)@ + leb_bytes(v.0 as u32),
        decreases val,
    {
        let ghost before = buf@;
        if val >> 7u32 == 0 {
            buf.push(val as u8);
            proof {
                assert(buf@ =~= before + leb_bytes(val));
            }
            return ;
        }
        buf.push(((val & 0x7f) | 0x80) as u8);
        proof {
            lemma_shr7_decreases(val);
            assert(buf@ + leb_bytes(val >> 7u32) =~= before + leb_bytes(val));
        }
        val = val >> 7u32;
    }
}

/// Appends the big-endian bytes of `v`.
pub fn put_i32(buf: &mut Vec<u8>, v: i32)
    ensures
        final(buf)@ == old(buf)@ + i32_bytes(v),
{
    let u = v as u32;
    buf.push((u >> 24u32) as u8);
    buf.push((u >> 16u32) as u8);
    buf.push((u >> 8u32) as u8);
    buf.push(u as u8);
    assert(buf@ =~= old(buf)@ + i32_bytes(v));
}

/// Appends one byte for a boolean.
pub fn put_bool(buf: &mut Vec<u8>, b: bool)
    ensures
        final(buf)@ == old(buf)@.push(bool_byte(b)),
{
    if b {
        buf.push(1u8);
    } else {
        buf.push(0u8);
    }
}

/// Appends raw bytes.
pub fn write_slice(buf: &mut Vec<u8>, bytes: &[u8])
    ensures
        final(buf)@ == old(buf)@ + bytes@,
{
    let mut i: usize = 0;
    while i < bytes.len()
        invariant
            i <= bytes@.len(),
            buf@ == old(buf)@ + bytes@.take(i as int),
        decreases bytes@.len() - i,
    {
        buf.push(bytes[i]);
        i = i + 1;
        proof {
            assert(buf@ =~= old(buf)@ + bytes@.take(i as int));
        }
    }
    assert(bytes@.take(i as int) =~= bytes@);
}

} // verus!
