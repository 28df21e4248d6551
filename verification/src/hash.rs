//! Hashed item stacks: the form in which a client describes a slot's content
//! by component checksums rather than by full component data.

use vstd::prelude::*;

use crate::item::{ItemStack, PatchEntry, added_count, counts_fit, removed_count};
use crate::slot::item_component_counts;
use crate::wire::{
    ByteReader, Failure, bool_result, message, lemma_bool_roundtrip, put_bool, ReadOutcome, ReadingError, VarInt, WritingError, i32_bytes, i32_result,
    lemma_i32_roundtrip, lemma_skip_prefix, lemma_skip_skip, lemma_var_int_result_len,
    lemma_var_int_roundtrip, put_i32, put_var_int, var_int_bytes, var_int_result,
};

verus! {

/// The largest number of added or of removed entries a hashed patch may list.
pub const MAX_HASHED_COMPONENTS: i32 = 256;

/// The checksums of the components a stack adds and the ids of those it
/// removes.
#[derive(Debug, Clone)]
pub struct ItemComponentHash {
    pub added: Vec<(VarInt, i32)>,
    pub removed: Vec<VarInt>,
}

// ---------------------------------------------------------------------------
// Encoding
// ---------------------------------------------------------------------------

/// The bytes of the added entries: each a VarInt id then its `i32` checksum.
pub open spec fn added_hash_bytes(a: Seq<(VarInt, i32)>) -> Seq<u8>
    decreases a.len(),
{
    if a.len() == 0 {
        Seq::empty()
    } else {
        added_hash_bytes(a.drop_last()) + var_int_bytes(a.last().0.0) + i32_bytes(a.last().1)
    }
}

/// The bytes of the removed entries: each a VarInt id.
pub open spec fn removed_hash_bytes(r: Seq<VarInt>) -> Seq<u8>
    decreases r.len(),
{
    if r.len() == 0 {
        Seq::empty()
    } else {
        removed_hash_bytes(r.drop_last()) + var_int_bytes(r.last().0)
    }
}

/// The bytes of a hashed patch: the added count, the added entries, the
/// removed count, the removed ids.
pub open spec fn component_hash_bytes(a: Seq<(VarInt, i32)>, r: Seq<VarInt>) -> Seq<u8> {
    var_int_bytes(a.len() as i32) + added_hash_bytes(a) + var_int_bytes(r.len() as i32)
        + removed_hash_bytes(r)
}

// ---------------------------------------------------------------------------
// Decoding
// ---------------------------------------------------------------------------

/// The outcome of reading `n` added entries from the front of `s`.
pub open spec fn added_hash_result(s: Seq<u8>, n: nat) -> ReadOutcome<Seq<(VarInt, i32)>>
    decreases n,
{
    if n == 0 {
        Ok((Seq::empty(), 0nat))
    } else {
        match added_hash_result(s, (n - 1) as nat) {
            Err(e) => Err(e),
            Ok((xs, l)) => match var_int_result(s.skip(l as int)) {
                Err((f, m)) => Err((f, l + m)),
                Ok((id, l1)) => match i32_result(s.skip((l + l1) as int)) {
                    Err((f, m)) => Err((f, l + l1 + m)),
                    Ok((v, l2)) => Ok((xs.push((VarInt(id), v)), l + l1 + l2)),
                },
            },
        }
    }
}

/// The outcome of reading `n` removed ids from the front of `s`.
pub open spec fn removed_hash_result(s: Seq<u8>, n: nat) -> ReadOutcome<Seq<VarInt>>
    decreases n,
{
    if n == 0 {
        Ok((Seq::empty(), 0nat))
    } else {
        match removed_hash_result(s, (n - 1) as nat) {
            Err(e) => Err(e),
            Ok((xs, l)) => match var_int_result(s.skip(l as int)) {
                Err((f, m)) => Err((f, l + m)),
                Ok((id, l1)) => Ok((xs.push(VarInt(id)), l + l1)),
            },
        }
    }
}

/// The outcome of reading an entry count, which must lie in
/// `0..=MAX_HASHED_COMPONENTS`; one outside fails with text `refusal`.
pub open spec fn hash_count_result(s: Seq<u8>, refusal: Seq<char>) -> ReadOutcome<i32> {
    match var_int_result(s) {
        Err(e) => Err(e),
        Ok((c, l)) => if c < 0 || c > MAX_HASHED_COMPONENTS {
            Err((message(refusal), l))
        } else {
            Ok((c, l))
        },
    }
}

/// The outcome of reading a hashed patch from the front of `s`.
pub open spec fn component_hash_result(s: Seq<u8>) -> ReadOutcome<
    (Seq<(VarInt, i32)>, Seq<VarInt>),
> {
    match hash_count_result(s, "added_length out of bounds"@) {
        Err(e) => Err(e),
        Ok((na, l0)) => match added_hash_result(s.skip(l0 as int), na as nat) {
            Err((f, m)) => Err((f, l0 + m)),
            Ok((a, l1)) => match hash_count_result(
                s.skip((l0 + l1) as int),
                "removed_length out of bounds"@,
            ) {
                Err((f, m)) => Err((f, l0 + l1 + m)),
                Ok((nr, l2)) => match removed_hash_result(s.skip((l0 + l1 + l2) as int), nr as nat) {
                    Err((f, m)) => Err((f, l0 + l1 + l2 + m)),
                    Ok((r, l3)) => Ok(((a, r), l0 + l1 + l2 + l3)),
                },
            },
        },
    }
}

// ---------------------------------------------------------------------------
// Lemmas
// ---------------------------------------------------------------------------

proof fn lemma_added_result_err(s: Seq<u8>, i: nat, n: nat)
    requires
        i <= n,
        added_hash_result(s, i) is Err,
    ensures
        added_hash_result(s, n) == added_hash_result(s, i),
    decreases n,
{
    if n > i {
        lemma_added_result_err(s, i, (n - 1) as nat);
    }
}

proof fn lemma_removed_result_err(s: Seq<u8>, i: nat, n: nat)
    requires
        i <= n,
        removed_hash_result(s, i) is Err,
    ensures
        removed_hash_result(s, n) == removed_hash_result(s, i),
    decreases n,
{
    if n > i {
        lemma_removed_result_err(s, i, (n - 1) as nat);
    }
}

proof fn lemma_added_result_len(s: Seq<u8>, n: nat)
    ensures
        added_hash_result(s, n) matches Ok((xs, l)) ==> xs.len() == n && l <= s.len(),
        added_hash_result(s, n) matches Err((f, l)) ==> l <= s.len(),
    decreases n,
{
    if n > 0 {
        lemma_added_result_len(s, (n - 1) as nat);
        if let Ok((xs, l)) = added_hash_result(s, (n - 1) as nat) {
            lemma_var_int_result_len(s.skip(l as int));
        }
    }
}

proof fn lemma_removed_result_len(s: Seq<u8>, n: nat)
    ensures
        removed_hash_result(s, n) matches Ok((xs, l)) ==> xs.len() == n && l <= s.len(),
        removed_hash_result(s, n) matches Err((f, l)) ==> l <= s.len(),
    decreases n,
{
    if n > 0 {
        lemma_removed_result_len(s, (n - 1) as nat);
        if let Ok((xs, l)) = removed_hash_result(s, (n - 1) as nat) {
            lemma_var_int_result_len(s.skip(l as int));
        }
    }
}

proof fn lemma_added_roundtrip(a: Seq<(VarInt, i32)>, t: Seq<u8>)
    ensures
        added_hash_result(added_hash_bytes(a) + t, a.len()) == Ok::<
            (Seq<(VarInt, i32)>, nat),
            (Failure, nat),
        >((a, added_hash_bytes(a).len())),
    decreases a.len(),
{
    if a.len() > 0 {
        let init = a.drop_last();
        let e = a.last();
        let tail = var_int_bytes(e.0.0) + i32_bytes(e.1) + t;
        assert(added_hash_bytes(a) + t =~= added_hash_bytes(init) + tail);
        lemma_added_roundtrip(init, tail);
        let s = added_hash_bytes(a) + t;
        let l = added_hash_bytes(init).len();
        lemma_skip_prefix(added_hash_bytes(init), tail);
        lemma_var_int_roundtrip(e.0.0, i32_bytes(e.1) + t);
        assert(tail =~= var_int_bytes(e.0.0) + (i32_bytes(e.1) + t));
        let l1 = var_int_bytes(e.0.0).len();
        lemma_skip_skip(s, l as int, l1 as int);
        lemma_skip_prefix(var_int_bytes(e.0.0), i32_bytes(e.1) + t);
        lemma_i32_roundtrip(e.1, t);
        assert(init.push((VarInt(e.0.0), e.1)) =~= a);
        assert(added_hash_result(s, init.len()) == Ok::<(Seq<(VarInt, i32)>, nat), (Failure, nat)>((init, l)));
        assert(s.skip(l as int) == tail);
        assert(var_int_result(s.skip(l as int)) == Ok::<(i32, nat), (Failure, nat)>((e.0.0, l1)));
        assert(s.skip((l + l1) as int) == i32_bytes(e.1) + t);
        assert(i32_result(s.skip((l + l1) as int)) == Ok::<(i32, nat), (Failure, nat)>((e.1, 4nat)));
        assert(added_hash_bytes(a).len() == l + l1 + 4);
    } else {
        assert(a =~= Seq::empty());
    }
}

proof fn lemma_removed_roundtrip(r: Seq<VarInt>, t: Seq<u8>)
    ensures
        removed_hash_result(removed_hash_bytes(r) + t, r.len()) == Ok::<(Seq<VarInt>, nat), (Failure, nat)>(
            (r, removed_hash_bytes(r).len()),
        ),
    decreases r.len(),
{
    if r.len() > 0 {
        let init = r.drop_last();
        let e = r.last();
        let tail = var_int_bytes(e.0) + t;
        assert(removed_hash_bytes(r) + t =~= removed_hash_bytes(init) + tail);
        lemma_removed_roundtrip(init, tail);
        lemma_skip_prefix(removed_hash_bytes(init), tail);
        lemma_var_int_roundtrip(e.0, t);
        assert(init.push(VarInt(e.0)) =~= r);
    } else {
        assert(r =~= Seq::empty());
    }
}

/// Reading a hashed patch back from its own encoding, whatever follows it,
/// gives the entries written, provided neither list is longer than the
/// reader accepts.
pub proof fn lemma_component_hash_roundtrip(a: Seq<(VarInt, i32)>, r: Seq<VarInt>, rest: Seq<u8>)
    requires
        a.len() <= MAX_HASHED_COMPONENTS,
        r.len() <= MAX_HASHED_COMPONENTS,
    ensures
        component_hash_result(component_hash_bytes(a, r) + rest) == Ok::<
            ((Seq<(VarInt, i32)>, Seq<VarInt>), nat),
            (Failure, nat),
        >(((a, r), component_hash_bytes(a, r).len())),
{
    let ca = var_int_bytes(a.len() as i32);
    let ba = added_hash_bytes(a);
    let cr = var_int_bytes(r.len() as i32);
    let br = removed_hash_bytes(r);
    let s = component_hash_bytes(a, r) + rest;
    assert(s =~= ca + (ba + (cr + (br + rest))));
    lemma_var_int_roundtrip(a.len() as i32, ba + (cr + (br + rest)));
    lemma_skip_prefix(ca, ba + (cr + (br + rest)));
    lemma_added_roundtrip(a, cr + (br + rest));
    lemma_skip_skip(s, ca.len() as int, ba.len() as int);
    lemma_skip_prefix(ba, cr + (br + rest));
    lemma_var_int_roundtrip(r.len() as i32, br + rest);
    lemma_skip_skip(s, (ca.len() + ba.len()) as int, cr.len() as int);
    lemma_skip_prefix(cr, br + rest);
    lemma_removed_roundtrip(r, rest);
}

// ---------------------------------------------------------------------------
// Reading and writing
// ---------------------------------------------------------------------------

impl ItemComponentHash {
    /// Reads a hashed patch.
    #[verifier::loop_isolation(false)]
    #[verifier::rlimit(40)]
    pub fn read(read: &mut ByteReader) -> (res: Result<Self, ReadingError>)
        ensures
            match res {
                Ok(h) => component_hash_result(old(read)@) matches Ok((ar, n)) && h.added@ == ar.0
                    && h.removed@ == ar.1 && final(read)@ == old(read)@.skip(n as int),
                Err(e) => component_hash_result(old(read)@) matches Err((f, n)) && e.failure() == f
                    && final(read)@ == old(read)@.skip(n as int),
            },
    {
        let ghost s = read@;
        let added_length = read.get_var_int()?;
        if added_length.0 < 0 || added_length.0 > MAX_HASHED_COMPONENTS {
            return Err(ReadingError::Message(String::from_str("added_length out of bounds")));
        }
        let ghost l0: nat = (s.len() - read@.len()) as nat;
        let ghost s1 = read@;
        proof {
            lemma_var_int_result_len(s);
            assert(s1 == s.skip(l0 as int));
        }
        let mut added: Vec<(VarInt, i32)> = Vec::with_capacity(added_length.0 as usize);
        let mut i: i32 = 0;
        let ghost mut used: nat = 0;
        while i < added_length.0
            invariant
                0 <= i <= added_length.0,
                added_hash_result(s1, i as nat) == Ok::<(Seq<(VarInt, i32)>, nat), (Failure, nat)>(
                    (added@, used),
                ),
                read@ == s1.skip(used as int),
                used <= s1.len(),
            decreases added_length.0 - i,
        {
            let ghost before = read@;
            let component_id = match read.get_var_int() {
                Ok(v) => v,
                Err(e) => {
                    proof {
                        lemma_added_result_err(s1, (i + 1) as nat, added_length.0 as nat);
                        lemma_var_int_result_len(before);
                        let m = var_int_result(before)->Err_0.1;
                        lemma_skip_skip(s1, used as int, m as int);
                        lemma_skip_skip(s, l0 as int, (used + m) as int);
                    }
                    return Err(e);
                },
            };
            let ghost l1: nat = (before.len() - read@.len()) as nat;
            proof {
                lemma_var_int_result_len(before);
                lemma_skip_skip(s1, used as int, l1 as int);
            }
            let component_value = match read.get_i32() {
                Ok(v) => v,
                Err(e) => {
                    proof {
                        lemma_added_result_err(s1, (i + 1) as nat, added_length.0 as nat);
                        lemma_skip_skip(s, l0 as int, (used + l1) as int);
                    }
                    return Err(e);
                },
            };
            proof {
                lemma_skip_skip(s1, (used + l1) as int, 4);
                used = used + l1 + 4;
            }
            added.push((component_id, component_value));
            i = i + 1;
        }
        let ghost l1 = used;
        let ghost s2 = read@;
        proof {
            lemma_skip_skip(s, l0 as int, l1 as int);
        }
        let removed_length = match read.get_var_int() {
            Ok(v) => v,
            Err(e) => {
                proof {
                    lemma_var_int_result_len(s2);
                    let m = var_int_result(s2)->Err_0.1;
                    lemma_skip_skip(s, (l0 + l1) as int, m as int);
                }
                return Err(e);
            },
        };
        let ghost l2: nat = (s2.len() - read@.len()) as nat;
        let ghost s3 = read@;
        proof {
            lemma_var_int_result_len(s2);
            lemma_skip_skip(s, (l0 + l1) as int, l2 as int);
        }
        if removed_length.0 < 0 || removed_length.0 > MAX_HASHED_COMPONENTS {
            return Err(ReadingError::Message(String::from_str("removed_length out of bounds")));
        }
        let mut removed: Vec<VarInt> = Vec::with_capacity(removed_length.0 as usize);
        let mut j: i32 = 0;
        let ghost mut used2: nat = 0;
        while j < removed_length.0
            invariant
                0 <= j <= removed_length.0,
                removed_hash_result(s3, j as nat) == Ok::<(Seq<VarInt>, nat), (Failure, nat)>(
                    (removed@, used2),
                ),
                read@ == s3.skip(used2 as int),
                used2 <= s3.len(),
            decreases removed_length.0 - j,
        {
            let ghost before = read@;
            let component_id = match read.get_var_int() {
                Ok(v) => v,
                Err(e) => {
                    proof {
                        lemma_removed_result_err(s3, (j + 1) as nat, removed_length.0 as nat);
                        lemma_var_int_result_len(before);
                        let m = var_int_result(before)->Err_0.1;
                        lemma_skip_skip(s3, used2 as int, m as int);
                        lemma_skip_skip(s, (l0 + l1 + l2) as int, (used2 + m) as int);
                    }
                    return Err(e);
                },
            };
            let ghost l: nat = (before.len() - read@.len()) as nat;
            proof {
                lemma_var_int_result_len(before);
                lemma_skip_skip(s3, used2 as int, l as int);
                used2 = used2 + l;
            }
            removed.push(component_id);
            j = j + 1;
        }
        proof {
            lemma_skip_skip(s, (l0 + l1 + l2) as int, used2 as int);
        }
        Ok(ItemComponentHash { added, removed })
    }

    /// Writes this hashed patch.
    pub fn write(&self, buf: &mut Vec<u8>) -> (res: Result<(), WritingError>)
        ensures
            res is Ok,
            final(buf)@ == old(buf)@ + component_hash_bytes(self.added@, self.removed@),
    {
        let ghost start = buf@;
        let na = #[verifier::truncate] (self.added.len() as i32);
        put_var_int(buf, &VarInt(na));
        let mut i: usize = 0;
        while i < self.added.len()
            invariant
                i <= self.added@.len(),
                buf@ == start + var_int_bytes(self.added@.len() as i32) + added_hash_bytes(
                    self.added@.take(i as int),
                ),
            decreases self.added@.len() - i,
        {
            let (id, val) = self.added[i];
            put_var_int(buf, &id);
            put_i32(buf, val);
            proof {
                assert(self.added@.take(i + 1).drop_last() =~= self.added@.take(i as int));
            }
            i = i + 1;
        }
        assert(self.added@.take(i as int) =~= self.added@);
        let nr = #[verifier::truncate] (self.removed.len() as i32);
        put_var_int(buf, &VarInt(nr));
        let mut j: usize = 0;
        while j < self.removed.len()
            invariant
                j <= self.removed@.len(),
                buf@ == start + var_int_bytes(self.added@.len() as i32) + added_hash_bytes(
                    self.added@,
                ) + var_int_bytes(self.removed@.len() as i32) + removed_hash_bytes(
                    self.removed@.take(j as int),
                ),
            decreases self.removed@.len() - j,
        {
            let id = self.removed[j];
            put_var_int(buf, &id);
            proof {
                assert(self.removed@.take(j + 1).drop_last() =~= self.removed@.take(j as int));
            }
            j = j + 1;
        }
        assert(self.removed@.take(j as int) =~= self.removed@);
        assert(buf@ =~= start + component_hash_bytes(self.added@, self.removed@));
        Ok(())
    }
}

// ---------------------------------------------------------------------------
// Hashed stacks
// ---------------------------------------------------------------------------

/// A stack described by item id, count and hashed patch.
#[derive(Debug, Clone)]
pub struct ItemStackHash {
    item_id: VarInt,
    count: VarInt,
    components: ItemComponentHash,
}

/// The abstract content of a hashed stack: item id, count, added entries,
/// removed ids.
pub type StackHashView = (i32, i32, Seq<(VarInt, i32)>, Seq<VarInt>);

impl View for ItemStackHash {
    type V = StackHashView;

    closed spec fn view(&self) -> StackHashView {
        (self.item_id.0, self.count.0, self.components.added@, self.components.removed@)
    }
}

/// A slot as the client hashes it: empty, or a hashed stack.
#[derive(Debug, Clone)]
pub struct OptionalItemStackHash(pub Option<ItemStackHash>);

impl View for OptionalItemStackHash {
    type V = Option<StackHashView>;

    open spec fn view(&self) -> Option<StackHashView> {
        match self.0 {
            Some(h) => Some(h@),
            None => None,
        }
    }
}

/// The bytes of a hashed slot: a presence flag, then the item id, the count
/// and the hashed patch.
pub open spec fn optional_hash_bytes(o: Option<StackHashView>) -> Seq<u8> {
    match o {
        None => seq![0u8],
        Some(h) => seq![1u8] + var_int_bytes(h.0) + var_int_bytes(h.1) + component_hash_bytes(
            h.2,
            h.3,
        ),
    }
}

/// The outcome of reading a hashed slot from the front of `s`.
pub open spec fn optional_hash_result(s: Seq<u8>) -> ReadOutcome<Option<StackHashView>> {
    match bool_result(s) {
        Err(e) => Err(e),
        Ok((false, l0)) => Ok((None, l0)),
        Ok((true, l0)) => match var_int_result(s.skip(l0 as int)) {
            Err((f, m)) => Err((f, l0 + m)),
            Ok((id, l1)) => match var_int_result(s.skip((l0 + l1) as int)) {
                Err((f, m)) => Err((f, l0 + l1 + m)),
                Ok((count, l2)) => match component_hash_result(s.skip((l0 + l1 + l2) as int)) {
                    Err((f, m)) => Err((f, l0 + l1 + l2 + m)),
                    Ok(((a, r), l3)) => Ok((Some((id, count, a, r)), l0 + l1 + l2 + l3)),
                },
            },
        },
    }
}

proof fn lemma_optional_hash_some(
    s: Seq<u8>,
    h: StackHashView,
    l1: nat,
    l2: nat,
    l3: nat,
)
    requires
        bool_result(s) == Ok::<(bool, nat), (Failure, nat)>((true, 1nat)),
        var_int_result(s.skip(1)) == Ok::<(i32, nat), (Failure, nat)>((h.0, l1)),
        var_int_result(s.skip((1 + l1) as int)) == Ok::<(i32, nat), (Failure, nat)>((h.1, l2)),
        component_hash_result(s.skip((1 + l1 + l2) as int)) == Ok::<
            ((Seq<(VarInt, i32)>, Seq<VarInt>), nat),
            (Failure, nat),
        >(((h.2, h.3), l3)),
    ensures
        optional_hash_result(s) == Ok::<(Option<StackHashView>, nat), (Failure, nat)>(
            (Some(h), 1 + l1 + l2 + l3),
        ),
{
}

/// Reading a hashed slot back from its own encoding, whatever follows it,
/// gives the slot written, provided its patch lists are no longer than the
/// reader accepts.
#[verifier::spinoff_prover]
pub proof fn lemma_optional_hash_roundtrip(o: Option<StackHashView>, rest: Seq<u8>)
    requires
        o matches Some(h) ==> h.2.len() <= MAX_HASHED_COMPONENTS && h.3.len()
            <= MAX_HASHED_COMPONENTS,
    ensures
        optional_hash_result(optional_hash_bytes(o) + rest) == Ok::<
            (Option<StackHashView>, nat),
            (Failure, nat),
        >((o, optional_hash_bytes(o).len())),
{
    let s = optional_hash_bytes(o) + rest;
    match o {
        None => {
            lemma_bool_roundtrip(false, rest);
        },
        Some(h) => {
            let bi = var_int_bytes(h.0);
            let bc = var_int_bytes(h.1);
            let bh = component_hash_bytes(h.2, h.3);
            assert(s =~= seq![1u8] + (bi + (bc + (bh + rest))));
            lemma_bool_roundtrip(true, bi + (bc + (bh + rest)));
            lemma_skip_prefix(seq![1u8], bi + (bc + (bh + rest)));
            lemma_var_int_roundtrip(h.0, bc + (bh + rest));
            lemma_skip_skip(s, 1, bi.len() as int);
            lemma_skip_prefix(bi, bc + (bh + rest));
            lemma_var_int_roundtrip(h.1, bh + rest);
            lemma_skip_skip(s, (1 + bi.len()) as int, bc.len() as int);
            lemma_skip_prefix(bc, bh + rest);
            lemma_component_hash_roundtrip(h.2, h.3, rest);
            lemma_optional_hash_some(s, h, bi.len(), bc.len(), bh.len());
        },
    }
}

impl OptionalItemStackHash {
    /// Reads a hashed slot.
    pub fn read(read: &mut ByteReader) -> (res: Result<Self, ReadingError>)
        ensures
            match res {
                Ok(h) => optional_hash_result(old(read)@) matches Ok((o, n)) && h@ == o && final(read)@ == old(read)@.skip(n as int),
                Err(e) => optional_hash_result(old(read)@) matches Err((f, n)) && e.failure() == f
                    && final(read)@ == old(read)@.skip(n as int),
            },
    {
        let ghost s = read@;
        let is_some = read.get_bool()?;
        if is_some {
            let ghost s1 = read@;
            proof {
                lemma_var_int_result_len(s1);
            }
            let item_id = match read.get_var_int() {
                Ok(v) => v,
                Err(e) => {
                    proof {
                        lemma_skip_skip(s, 1, var_int_result(s1)->Err_0.1 as int);
                    }
                    return Err(e);
                },
            };
            let ghost s2 = read@;
            let ghost l1 = (s1.len() - s2.len()) as nat;
            proof {
                lemma_skip_skip(s, 1, l1 as int);
                lemma_var_int_result_len(s2);
            }
            let count = match read.get_var_int() {
                Ok(v) => v,
                Err(e) => {
                    proof {
                        lemma_skip_skip(s, (1 + l1) as int, var_int_result(s2)->Err_0.1 as int);
                    }
                    return Err(e);
                },
            };
            let ghost s3 = read@;
            let ghost l2 = (s2.len() - s3.len()) as nat;
            proof {
                lemma_skip_skip(s, (1 + l1) as int, l2 as int);
                lemma_component_hash_result_len(s3);
            }
            let components = match ItemComponentHash::read(read) {
                Ok(c) => c,
                Err(e) => {
                    proof {
                        lemma_skip_skip(s, (1 + l1 + l2) as int, component_hash_result(s3)->Err_0.1 as int);
                    }
                    return Err(e);
                },
            };
            proof {
                let l3 = component_hash_result(s3)->Ok_0.1;
                lemma_skip_skip(s, (1 + l1 + l2) as int, l3 as int);
            }
            Ok(Self(Some(ItemStackHash { item_id, count, components })))
        } else {
            Ok(Self(None))
        }
    }

    /// Writes this hashed slot.
    pub fn write(&self, buf: &mut Vec<u8>) -> (res: Result<(), WritingError>)
        ensures
            res is Ok,
            final(buf)@ == old(buf)@ + optional_hash_bytes(self@),
    {
        if let Some(hash) = &self.0 {
            put_bool(buf, true);
            put_var_int(buf, &hash.item_id);
            put_var_int(buf, &hash.count);
            let ghost mid = buf@;
            let r = hash.components.write(buf);
            assert(buf@ =~= old(buf)@ + optional_hash_bytes(self@));
        } else {
            put_bool(buf, false);
            assert(buf@ =~= old(buf)@ + optional_hash_bytes(self@));
        }
        Ok(())
    }
}

proof fn lemma_component_hash_result_len(s: Seq<u8>)
    ensures
        component_hash_result(s) matches Ok((ar, n)) ==> n <= s.len(),
        component_hash_result(s) matches Err((f, n)) ==> n <= s.len(),
{
    lemma_var_int_result_len(s);
    if let Ok((na, l0)) = hash_count_result(s, "added_length out of bounds"@) {
        lemma_added_result_len(s.skip(l0 as int), na as nat);
        if let Ok((a, l1)) = added_hash_result(s.skip(l0 as int), na as nat) {
            lemma_var_int_result_len(s.skip((l0 + l1) as int));
            if let Ok((nr, l2)) = hash_count_result(
                s.skip((l0 + l1) as int),
                "removed_length out of bounds"@,
            ) {
                lemma_removed_result_len(s.skip((l0 + l1 + l2) as int), nr as nat);
            }
        }
    }
}

// ---------------------------------------------------------------------------
// Comparing a hashed slot with a stack
// ---------------------------------------------------------------------------

/// The first added entry with id `id`, if any, carries checksum `checksum`.
pub open spec fn first_added_matches(a: Seq<(VarInt, i32)>, id: VarInt, checksum: i32) -> bool {
    forall|k: int|
        #![trigger a[k]]
        0 <= k < a.len() && a[k].0 == id && (forall|j: int| 0 <= j < k ==> a[j].0 != id) ==> a[k].1
            == checksum
}

/// Patch entry `e` agrees with hashed patch `h`: a set value with the
/// checksum of the first added entry of its id (if listed), a removal with
/// some removed entry of its id.
pub open spec fn entry_matches(h: StackHashView, e: PatchEntry) -> bool {
    match e.1 {
        Some(d) => first_added_matches(h.2, VarInt(e.0.0 as i32), d.checksum),
        None => h.3.contains(VarInt(e.0.0 as i32)),
    }
}

/// The hashed slot `o` describes `stack`: no hash for an empty stack; else
/// the same item id and count, as many added and removed entries as the
/// patch sets and removes, and every patch entry agreeing with them.
pub open spec fn hash_matches(o: Option<StackHashView>, stack: ItemStack) -> bool {
    match o {
        None => stack.spec_is_empty(),
        Some(h) => {
            &&& h.0 == stack.item_id as i32
            &&& h.1 == stack.item_count as i32
            &&& added_count(stack.patch@) == h.2.len()
            &&& removed_count(stack.patch@) == h.3.len()
            &&& forall|i: int|
                #![trigger stack.patch@[i]]
                0 <= i < stack.patch@.len() ==> entry_matches(h, stack.patch@[i])
        },
    }
}

fn first_added_checksum_ok(added: &Vec<(VarInt, i32)>, id: VarInt, checksum: i32) -> (b: bool)
    ensures
        b == first_added_matches(added@, id, checksum),
{
    let n = added.len();
    let mut i: usize = 0;
    while i < n
        invariant
            n == added@.len(),
            i <= n,
            forall|j: int| 0 <= j < i ==> #[trigger] added@[j].0 != id,
        decreases n - i,
    {
        let (entry_id, entry_hash) = added[i];
        if entry_id == id {
            proof {
                if entry_hash != checksum {
                    assert(added@[i as int].0 == id);
                }
            }
            return entry_hash == checksum;
        }
        i = i + 1;
    }
    true
}

fn contains_var_int(ids: &Vec<VarInt>, id: VarInt) -> (b: bool)
    ensures
        b == ids@.contains(id),
{
    let n = ids.len();
    let mut i: usize = 0;
    while i < n
        invariant
            n == ids@.len(),
            i <= n,
            forall|j: int| 0 <= j < i ==> #[trigger] ids@[j] != id,
        decreases n - i,
    {
        if ids[i] == id {
            assert(ids@[i as int] == id);
            return true;
        }
        i = i + 1;
    }
    false
}

impl OptionalItemStackHash {
    /// Whether this hashed slot describes `other`.
    pub fn hash_equals(&self, other: &ItemStack) -> (b: bool)
        requires
            self@ matches Some(h) && h.0 == other.item_id as i32 && h.1 == other.item_count as i32
                ==> counts_fit(*other),
        ensures
            b == hash_matches(self@, *other),
    {
        if let Some(hash) = &self.0 {
            if hash.item_id != VarInt(other.item_id as i32) || hash.count != VarInt(
                other.item_count as i32,
            ) {
                return false;
            }
            let (to_add, to_remove) = patch_counts(other);
            if to_add as usize != hash.components.added.len() || to_remove as usize
                != hash.components.removed.len() {
                return false;
            }
            let ghost h = hash@;
            let n = other.patch.len();
            let mut i: usize = 0;
            while i < n
                invariant
                    n == other.patch@.len(),
                    i <= n,
                    h == hash@,
                    self@ == Some(h),
                    h.0 == other.item_id as i32,
                    h.1 == other.item_count as i32,
                    added_count(other.patch@) == h.2.len(),
                    removed_count(other.patch@) == h.3.len(),
                    forall|k: int|
                        #![trigger other.patch@[k]]
                        0 <= k < i ==> entry_matches(h, other.patch@[k]),
                decreases n - i,
            {
                let (other_id, data) = &other.patch[i];
                let key = VarInt(other_id.to_id() as i32);
                if let Some(data) = data {
                    if !first_added_checksum_ok(&hash.components.added, key, data.checksum) {
                        assert(!entry_matches(h, other.patch@[i as int]));
                        return false;
                    }
                } else if !contains_var_int(&hash.components.removed, key) {
                    assert(!entry_matches(h, other.patch@[i as int]));
                    return false;
                }
                i = i + 1;
            }
            true
        } else {
            other.is_empty()
        }
    }
}

/// The number of set-value and of removal entries of a stack's patch.
fn patch_counts(stack: &ItemStack) -> (r: (u8, u8))
    requires
        counts_fit(*stack),
    ensures
        r.0 == added_count(stack.patch@),
        r.1 == removed_count(stack.patch@),
{
    item_component_counts(stack)
}

/// A hashed slot that describes a stack lists exactly as many added
/// checksums as the stack's patch sets values and exactly as many removed
/// ids as it removes components, and names the stack's item and count; an
/// absent hash describes only an empty stack.
pub proof fn lemma_hash_match_counts(o: Option<StackHashView>, stack: ItemStack)
    requires
        hash_matches(o, stack),
    ensures
        o matches Some(h) ==> h.2.len() == added_count(stack.patch@) && h.3.len() == removed_count(
            stack.patch@,
        ) && h.0 == stack.item_id as i32 && h.1 == stack.item_count as i32,
        o is None ==> stack.spec_is_empty(),
{
}

/// A hashed slot that describes a stack has, for each removal of the
/// stack's patch, that component among its removed ids, and for each set
/// value, the value's checksum on the first added entry of that component,
/// if it lists one.
pub proof fn lemma_hash_match_entries(h: StackHashView, stack: ItemStack, i: int)
    requires
        hash_matches(Some(h), stack),
        0 <= i < stack.patch@.len(),
    ensures
        stack.patch@[i].1 is None ==> h.3.contains(VarInt(stack.patch@[i].0.0 as i32)),
        stack.patch@[i].1 matches Some(d) ==> first_added_matches(
            h.2,
            VarInt(stack.patch@[i].0.0 as i32),
            d.checksum,
        ),
{
    assert(entry_matches(h, stack.patch@[i]));
}

} // verus!
