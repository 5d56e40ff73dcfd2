use vstd::prelude::*;

use core::cmp::Ordering;
use vstd::std_specs::cmp::PartialOrdSpecImpl;
use vstd::std_specs::convert::FromSpecImpl;
use vstd::arithmetic::div_mod::lemma_fundamental_div_mod_converse;
use vstd::arithmetic::power::pow;

verus! {

/// How many bytes a full key has: those of a `u32`.
pub const BYTES_AMOUNT: u8 = 4;

/// The big-endian bytes of `v`, most significant first.
pub open spec fn be_bytes(v: u32) -> Seq<u8> {
    seq![
        (v / 0x1000000) as u8,
        ((v / 0x10000) % 0x100) as u8,
        ((v / 0x100) % 0x100) as u8,
        (v % 0x100) as u8,
    ]
}

/// `a` starts `b`.
pub open spec fn prefix_of(a: Seq<u8>, b: Seq<u8>) -> bool {
    a.len() <= b.len() && b.subrange(0, a.len() as int) == a
}

/// `a` comes strictly before `b` in dictionary order: at the first place where
/// they differ `a` has the smaller byte, or `a` ends first.
pub open spec fn lex_lt(a: Seq<u8>, b: Seq<u8>) -> bool {
    exists|i: int|
        #![trigger a.subrange(0, i)]
        0 <= i <= a.len() && i <= b.len() && a.subrange(0, i) == b.subrange(0, i) && ((i == a.len()
            && i < b.len()) || (i < a.len() && i < b.len() && a[i] < b[i]))
}

/// The unit that a step of a key with `length` bytes adds to its value, if it fits a `u32`.
pub open spec fn step_unit(length: u8) -> Option<u32> {
    if length == 0 {
        Some(1u32)
    } else if length == 1 {
        Some(0x100u32)
    } else if length == 2 {
        Some(0x10000u32)
    } else if length == 3 {
        Some(0x1000000u32)
    } else {
        None
    }
}

/// `u32::checked_shl`: `x << rhs`, or `None` when `rhs` is 32 or more, as
/// its documentation says.
#[verifier::external_body]
fn u32_checked_shl(x: u32, rhs: u32) -> (r: Option<u32>)
    ensures
        rhs >= 32 ==> r is None,
        rhs < 32 ==> r == Some(x << rhs),
{
    x.checked_shl(rhs)
}

/// The step unit of a key: `1 << (8 * length)` when that shift fits.
fn unit_of(length: u8) -> (r: Option<u32>)
    requires
        length <= 4,
    ensures
        r == step_unit(length),
{
    let r = u32_checked_shl(1u32, (length * 8) as u32);
    proof {
        if length == 0 {
            assert(1u32 << 0u32 == 1u32) by (bit_vector);
        } else if length == 1 {
            assert(1u32 << 8u32 == 0x100u32) by (bit_vector);
        } else if length == 2 {
            assert(1u32 << 16u32 == 0x10000u32) by (bit_vector);
        } else if length == 3 {
            assert(1u32 << 24u32 == 0x1000000u32) by (bit_vector);
        }
    }
    r
}

/// The high half of a 64-bit value, seen as the first `length` of its
/// big-endian bytes.
#[derive(Debug, Clone, Copy, PartialEq, Eq, Structural)]
pub struct HighKey {
    value: u32,
    length: u8,
}

impl HighKey {
    #[verifier::type_invariant]
    spec fn inv(self) -> bool {
        self.length <= BYTES_AMOUNT
    }

    /// The value the key was made from.
    pub closed spec fn val(self) -> u32 {
        self.value
    }

    /// How many leading bytes of the value the key keeps.
    pub closed spec fn key_len(self) -> u8 {
        self.length
    }

    /// The bytes the key orders and matches by.
    pub open spec fn bytes(self) -> Seq<u8> {
        be_bytes(self.val()).subrange(0, self.key_len() as int)
    }

    /// Whether `k` is the key made from `value` and `length`.
    pub open spec fn made_of(k: HighKey, value: u32, length: u8) -> bool {
        k.val() == value && k.key_len() == length
    }

    /// A key of the first `length` bytes of `value`; fails when `length`
    /// exceeds the bytes of a `u32`.
    pub fn new(value: u32, length: u8) -> (r: Result<HighKey, ()>)
        ensures
            r is Err <==> length > BYTES_AMOUNT,
            r matches Ok(k) ==> HighKey::made_of(k, value, length),
    {
        if length > BYTES_AMOUNT {
            Err(())
        } else {
            Ok(HighKey { value, length })
        }
    }

    pub fn value(&self) -> (r: u32)
        ensures
            r == self.val(),
    {
        self.value
    }

    pub fn length(&self) -> (r: u8)
        ensures
            r == self.key_len(),
            r <= BYTES_AMOUNT,
    {
        proof {
            use_type_invariant(self);
        }
        self.length
    }

    /// The key's bytes: the first `length` big-endian bytes of its value.
    pub fn as_bytes(&self) -> (r: Vec<u8>)
        ensures
            r@ == self.bytes(),
    {
        proof {
            use_type_invariant(self);
        }
        let v = self.value;
        let all: [u8; 4] = [
            (v / 0x1000000) as u8,
            ((v / 0x10000) % 0x100) as u8,
            ((v / 0x100) % 0x100) as u8,
            (v % 0x100) as u8,
        ];
        let mut out: Vec<u8> = Vec::new();
        let mut i: usize = 0;
        let n = self.length as usize;
        while i < n
            invariant
                n == self.key_len(),
                n <= 4,
                i <= n,
                all@ == be_bytes(v),
                v == self.val(),
                out@ == be_bytes(v).subrange(0, i as int),
            decreases n - i,
        {
            out.push(all[i]);
            assert(out@ =~= be_bytes(v).subrange(0, i + 1));
            i = i + 1;
        }
        out
    }

    /// Whether the bytes of `other` start the bytes of `self`.
    pub fn starts_with(&self, other: &Self) -> (r: bool)
        ensures
            r == prefix_of(other.bytes(), self.bytes()),
    {
        let a = self.as_bytes();
        let b = other.as_bytes();
        if b.len() > a.len() {
            return false;
        }
        let mut i: usize = 0;
        while i < b.len()
            invariant
                b@.len() <= a@.len(),
                i <= b@.len(),
                a@ == self.bytes(),
                b@ == other.bytes(),
                forall|k: int| 0 <= k < i ==> a@[k] == b@[k],
            decreases b@.len() - i,
        {
            if a[i] != b[i] {
                assert(a@.subrange(0, b@.len() as int)[i as int] != b@[i as int]);
                return false;
            }
            i = i + 1;
        }
        assert(a@.subrange(0, b@.len() as int) =~= b@);
        true
    }

    /// The next key of the same length: the value grows by one unit of the
    /// key's length, if that unit and the sum fit a `u32`.
    pub fn next_step(self) -> (r: Option<HighKey>)
        ensures
            r == self.up_step(),
            r is Some <==> (step_unit(self.key_len()) matches Some(u) && self.val() + u <= u32::MAX),
            r matches Some(k) ==> (step_unit(self.key_len()) matches Some(u) && HighKey::made_of(
                k,
                (self.val() + u) as u32,
                self.key_len(),
            )),
    {
        proof {
            use_type_invariant(self);
        }
        match unit_of(self.length) {
            Some(to_add) => match self.value.checked_add(to_add) {
                Some(next_value) => Some(HighKey { value: next_value, length: self.length }),
                None => None,
            },
            None => None,
        }
    }

    /// Like `next_step`, but the key that comes out has full length.
    pub fn next(self) -> (r: Option<HighKey>)
        ensures
            r == (match self.up_step() {
                Some(s) => Some(HighKey::full_key(s.val())),
                None => None,
            }),
            r is Some <==> (step_unit(self.key_len()) matches Some(u) && self.val() + u <= u32::MAX),
            r matches Some(k) ==> (step_unit(self.key_len()) matches Some(u) && HighKey::made_of(
                k,
                (self.val() + u) as u32,
                BYTES_AMOUNT,
            )),
    {
        proof {
            use_type_invariant(self);
        }
        match unit_of(self.length) {
            Some(to_add) => match self.value.checked_add(to_add) {
                Some(next_value) => Some(HighKey { value: next_value, length: BYTES_AMOUNT }),
                None => None,
            },
            None => None,
        }
    }

    /// The previous key of the same length: the value shrinks by one unit of
    /// the key's length, if that unit fits a `u32` and the value does not drop below zero.
    pub fn prev_step(self) -> (r: Option<HighKey>)
        ensures
            r == self.down_step(),
            r is Some <==> (step_unit(self.key_len()) matches Some(u) && self.val() >= u),
            r matches Some(k) ==> (step_unit(self.key_len()) matches Some(u) && HighKey::made_of(
                k,
                (self.val() - u) as u32,
                self.key_len(),
            )),
    {
        proof {
            use_type_invariant(self);
        }
        match unit_of(self.length) {
            Some(to_sub) => match self.value.checked_sub(to_sub) {
                Some(prev_value) => Some(HighKey { value: prev_value, length: self.length }),
                None => None,
            },
            None => None,
        }
    }

    /// Like `prev_step`, but the key that comes out has full length.
    pub fn prev(self) -> (r: Option<HighKey>)
        ensures
            r == (match self.down_step() {
                Some(s) => Some(HighKey::full_key(s.val())),
                None => None,
            }),
            r is Some <==> (step_unit(self.key_len()) matches Some(u) && self.val() >= u),
            r matches Some(k) ==> (step_unit(self.key_len()) matches Some(u) && HighKey::made_of(
                k,
                (self.val() - u) as u32,
                BYTES_AMOUNT,
            )),
    {
        proof {
            use_type_invariant(self);
        }
        match unit_of(self.length) {
            Some(to_sub) => match self.value.checked_sub(to_sub) {
                Some(prev_value) => Some(HighKey { value: prev_value, length: BYTES_AMOUNT }),
                None => None,
            },
            None => None,
        }
    }
}

impl HighKey {
    /// The full-length key of `value`.
    pub closed spec fn full_key(value: u32) -> HighKey {
        HighKey { value, length: 4 }
    }

    pub proof fn lemma_full_key(value: u32)
        ensures
            HighKey::made_of(HighKey::full_key(value), value, BYTES_AMOUNT),
    {
    }

    /// The key one unit of its length above `self`, when the unit and the
    /// sum fit a `u32`.
    pub closed spec fn up_step(self) -> Option<HighKey> {
        match step_unit(self.length) {
            Some(u) => if self.value + u <= u32::MAX {
                Some(HighKey { value: (self.value + u) as u32, length: self.length })
            } else {
                None
            },
            None => None,
        }
    }

    /// The key one unit of its length below `self`, when the unit fits a
    /// `u32` and the value does not drop below zero.
    pub closed spec fn down_step(self) -> Option<HighKey> {
        match step_unit(self.length) {
            Some(u) => if self.value >= u {
                Some(HighKey { value: (self.value - u) as u32, length: self.length })
            } else {
                None
            },
            None => None,
        }
    }

    /// A step moves a key of `n` bytes, `n` below four, by exactly 256 to the
    /// power `n`, keeping its length; it fails when that would leave the
    /// range of a `u32`. A key of four bytes or more does not step.
    pub proof fn lemma_step_size(k: HighKey)
        ensures
            k.key_len() < 4 ==> (k.up_step() is Some <==> k.val() + pow(256, k.key_len() as nat)
                <= u32::MAX),
            k.key_len() < 4 ==> (k.down_step() is Some <==> k.val() >= pow(256, k.key_len() as nat)),
            k.up_step() matches Some(k2) ==> k2.key_len() == k.key_len() && k2.val() == k.val()
                + pow(256, k.key_len() as nat),
            k.down_step() matches Some(k0) ==> k0.key_len() == k.key_len() && k0.val() == k.val()
                - pow(256, k.key_len() as nat),
            k.key_len() >= 4 ==> k.up_step() is None && k.down_step() is None,
    {
        reveal_with_fuel(pow, 5);
        assert(pow(256, 0) == 1);
        assert(pow(256, 1) == 0x100);
        assert(pow(256, 2) == 0x10000);
        assert(pow(256, 3) == 0x1000000);
    }

    /// For keys of two or three bytes, a step up moves to bytes that come
    /// strictly after the key's own in dictionary order, and a step down to
    /// bytes that come strictly before.
    pub proof fn lemma_step_orders_bytes(k: HighKey)
        requires
            2 <= k.key_len() <= 3,
        ensures
            k.up_step() matches Some(k2) ==> lex_lt(k.bytes(), k2.bytes()),
            k.down_step() matches Some(k0) ==> lex_lt(k0.bytes(), k.bytes()),
    {
        let v = k.value;
        if let Some(k2) = k.up_step() {
            if k.length == 3 {
                assert(v <= 0xfeffffff ==> ((v + 0x1000000) as u32) / 0x1000000 == v / 0x1000000 + 1)
                    by (bit_vector);
                lemma_lex_at(k.bytes(), k2.bytes(), 0);
            } else {
                assert(v <= 0xfffeffff && (v / 0x10000) % 0x100 < 0xff ==> ((v + 0x10000) as u32)
                    / 0x1000000 == v / 0x1000000 && (((v + 0x10000) as u32) / 0x10000) % 0x100 == (v
                    / 0x10000) % 0x100 + 1) by (bit_vector);
                assert(v <= 0xfffeffff && (v / 0x10000) % 0x100 == 0xff ==> ((v + 0x10000) as u32)
                    / 0x1000000 == v / 0x1000000 + 1) by (bit_vector);
                if (v / 0x10000) % 0x100 < 0xff {
                    lemma_lex_at(k.bytes(), k2.bytes(), 1);
                } else {
                    lemma_lex_at(k.bytes(), k2.bytes(), 0);
                }
            }
        }
        if let Some(k0) = k.down_step() {
            if k.length == 3 {
                assert(v >= 0x1000000 ==> ((v - 0x1000000) as u32) / 0x1000000 + 1 == v / 0x1000000)
                    by (bit_vector);
                lemma_lex_at(k0.bytes(), k.bytes(), 0);
            } else {
                assert(v >= 0x10000 && (v / 0x10000) % 0x100 > 0 ==> ((v - 0x10000) as u32)
                    / 0x1000000 == v / 0x1000000 && (((v - 0x10000) as u32) / 0x10000) % 0x100 + 1
                    == (v / 0x10000) % 0x100) by (bit_vector);
                assert(v >= 0x10000 && (v / 0x10000) % 0x100 == 0 ==> ((v - 0x10000) as u32)
                    / 0x1000000 + 1 == v / 0x1000000) by (bit_vector);
                if (v / 0x10000) % 0x100 > 0 {
                    lemma_lex_at(k0.bytes(), k.bytes(), 1);
                } else {
                    lemma_lex_at(k0.bytes(), k.bytes(), 0);
                }
            }
        }
    }

    /// A key is its value and its length: two keys that agree on both are equal.
    pub proof fn lemma_key_ext(a: HighKey, b: HighKey)
        requires
            a.val() == b.val(),
            a.key_len() == b.key_len(),
        ensures
            a == b,
    {
    }

    /// A step up and a step down undo each other: stepping up and then down
    /// gives the key back, and so does stepping down and then up.
    pub proof fn lemma_step_round_trip(k: HighKey)
        ensures
            k.up_step() matches Some(k2) ==> k2.down_step() == Some(k),
            k.down_step() matches Some(k0) ==> k0.up_step() == Some(k),
    {
    }
}

impl HighKey {
    /// Meant to walk the keys from `self` to `other`; it does nothing.
    pub fn iter_inclusive(self, other: HighKey) {
    }
}

impl From<u32> for HighKey {
    fn from(value: u32) -> (r: HighKey) {
        HighKey { value, length: 4 }
    }
}

impl FromSpecImpl<u32> for HighKey {
    open spec fn obeys_from_spec() -> bool {
        true
    }

    open spec fn from_spec(v: u32) -> HighKey {
        HighKey::full_key(v)
    }
}

/// The value whose big-endian bytes are `b`.
pub open spec fn from_be(b: Seq<u8>) -> int {
    b[0] * 0x1000000 + b[1] * 0x10000 + b[2] * 0x100 + b[3]
}

/// A value is rebuilt from its big-endian bytes.
pub proof fn lemma_be_bytes_value(v: u32)
    ensures
        from_be(be_bytes(v)) == v,
        be_bytes(v).len() == 4,
{
}

/// Four bytes are the big-endian bytes of the value they make.
pub proof fn lemma_be_bytes_of(b: Seq<u8>)
    requires
        b.len() == 4,
    ensures
        0 <= from_be(b) <= u32::MAX,
        be_bytes(from_be(b) as u32) == b,
{
    let (b0, b1, b2, b3) = (b[0] as int, b[1] as int, b[2] as int, b[3] as int);
    let x = from_be(b);
    assert(x == b0 * 0x1000000 + b1 * 0x10000 + b2 * 0x100 + b3);
    lemma_fundamental_div_mod_converse(x, 0x1000000, b0, b1 * 0x10000 + b2 * 0x100 + b3);
    lemma_fundamental_div_mod_converse(x, 0x10000, b0 * 0x100 + b1, b2 * 0x100 + b3);
    lemma_fundamental_div_mod_converse(b0 * 0x100 + b1, 0x100, b0, b1);
    lemma_fundamental_div_mod_converse(x, 0x100, b0 * 0x10000 + b1 * 0x100 + b2, b3);
    lemma_fundamental_div_mod_converse(b0 * 0x10000 + b1 * 0x100 + b2, 0x100, b0 * 0x100 + b1, b2);
    let v = x as u32;
    assert(be_bytes(v) =~= b);
}

/// On the bytes of whole values, dictionary order is the order of the values.
pub proof fn lemma_be_order(a: u32, b: u32)
    ensures
        lex_lt(be_bytes(a), be_bytes(b)) <==> a < b,
{
    let x = be_bytes(a);
    let y = be_bytes(b);
    lemma_be_bytes_value(a);
    lemma_be_bytes_value(b);
    if a < b {
        let i: int = if x[0] != y[0] {
            0
        } else if x[1] != y[1] {
            1
        } else if x[2] != y[2] {
            2
        } else {
            3
        };
        assert(x.subrange(0, i) =~= y.subrange(0, i));
    }
    if lex_lt(x, y) {
        let i = choose|i: int|
            #![trigger x.subrange(0, i)]
            0 <= i <= x.len() && i <= y.len() && x.subrange(0, i) == y.subrange(0, i) && ((i == x.len()
                && i < y.len()) || (i < x.len() && i < y.len() && x[i] < y[i]));
        if i > 0 {
            assert(x.subrange(0, i)[0] == y.subrange(0, i)[0]);
        }
        if i > 1 {
            assert(x.subrange(0, i)[1] == y.subrange(0, i)[1]);
        }
        if i > 2 {
            assert(x.subrange(0, i)[2] == y.subrange(0, i)[2]);
        }
    }
}

impl HighKey {
    /// The full-length key whose bytes are `bytes`.
    pub fn from_bytes(bytes: &Vec<u8>) -> (r: HighKey)
        requires
            bytes@.len() == 4,
        ensures
            HighKey::made_of(r, from_be(bytes@) as u32, BYTES_AMOUNT),
            r.bytes() == bytes@,
    {
        proof {
            lemma_be_bytes_of(bytes@);
        }
        let value = (bytes[0] as u32) * 0x1000000 + (bytes[1] as u32) * 0x10000 + (bytes[2] as u32)
            * 0x100 + (bytes[3] as u32);
        let r = HighKey { value, length: 4 };
        assert(be_bytes(value).subrange(0, 4) =~= be_bytes(value));
        r
    }
}

/// The base-2 logarithm of `x`, rounded down.
pub open spec fn floor_log2(x: nat) -> nat
    decreases x,
{
    if x < 2 {
        0
    } else {
        1 + floor_log2(x / 2)
    }
}

/// `u32::ilog2`: the base-2 logarithm of a positive `x`, rounded down, as its
/// documentation says; it panics on zero, which `requires` leaves out.
#[verifier::external_body]
fn u32_ilog2(x: u32) -> (r: u32)
    requires
        x > 0,
    ensures
        r == floor_log2(x as nat),
{
    x.ilog2()
}

/// Below two to the power `k + 1`, the logarithm is at most `k`.
proof fn lemma_floor_log2_bound(x: nat, k: nat)
    requires
        x < pow2_small(k + 1),
    ensures
        floor_log2(x) <= k,
    decreases x,
{
    if x >= 2 {
        assert(pow2_small(k + 1) == 2 * pow2_small(k));
        if k == 0 {
            assert(pow2_small(0) == 1);
        } else {
            assert(pow2_small(k) == pow2_small(((k - 1) as nat) + 1));
            lemma_floor_log2_bound(x / 2, (k - 1) as nat);
        }
    }
}

/// Two to the power `k`, for small `k`.
pub open spec fn pow2_small(k: nat) -> nat
    decreases k,
{
    if k == 0 {
        1
    } else {
        2 * pow2_small((k - 1) as nat)
    }
}

/// How many whole bytes a positive distance spans: its logarithm over eight.
fn length_step(diff: u32) -> (r: u8)
    requires
        diff > 0,
    ensures
        r == floor_log2(diff as nat) / 8,
        r <= 3,
{
    let l = u32_ilog2(diff);
    proof {
        reveal_with_fuel(pow2_small, 33);
        lemma_floor_log2_bound(diff as nat, 31);
    }
    (l / 8) as u8
}

/// Walks the keys that cover the values from a key up to an end value, with
/// steps as long as the distance left allows.
pub struct HighKeyIter {
    cur: HighKey,
    end: u32,
    exhausted: bool,
}

impl HighKeyIter {
    pub closed spec fn cur(&self) -> HighKey {
        self.cur
    }

    pub closed spec fn end(&self) -> u32 {
        self.end
    }

    pub closed spec fn exhausted(&self) -> bool {
        self.exhausted
    }

    /// The next key of the walk. A key before the end gets the length that the
    /// distance to the end allows, and the walk moves on by one step of it; the
    /// first key that does not come before the end is the last.
    pub fn next(&mut self) -> (r: Option<HighKey>)
        requires
            !old(self).exhausted() && lex_lt(old(self).cur().bytes(), be_bytes(old(self).end()))
                ==> old(self).cur().val() < old(self).end(),
        ensures
            final(self).end() == old(self).end(),
            old(self).exhausted() ==> r is None && final(self).exhausted() && final(self).cur() == old(self).cur(),
            !old(self).exhausted() && !lex_lt(old(self).cur().bytes(), be_bytes(old(self).end())) ==> r
                == Some(old(self).cur()) && final(self).exhausted() && final(self).cur() == old(self).cur(),
            !old(self).exhausted() && lex_lt(old(self).cur().bytes(), be_bytes(old(self).end())) ==> (r matches Some(k)
                && HighKey::made_of(
                k,
                old(self).cur().val(),
                (floor_log2((old(self).end() - old(self).cur().val()) as nat) / 8) as u8,
            ) && (match step_unit(k.key_len()) {
                Some(u) => if k.val() + u <= u32::MAX {
                    !final(self).exhausted() && HighKey::made_of(final(self).cur(), (k.val() + u) as u32, k.key_len())
                } else {
                    final(self).exhausted() && final(self).cur() == k
                },
                None => final(self).exhausted() && final(self).cur() == k,
            })),
    {
        if self.exhausted {
            return None;
        }
        let end_key = HighKey::from(self.end);
        proof {
            HighKey::lemma_full_key(self.end);
            assert(end_key.bytes() =~= be_bytes(self.end));
        }
        if self.cur < end_key {
            let this_length_step = length_step(self.end - self.cur.value);
            self.cur = HighKey { value: self.cur.value, length: this_length_step };
            let ret = self.cur;
            match self.cur.next_step() {
                Some(next_cur) => {
                    self.cur = next_cur;
                },
                None => {
                    self.exhausted = true;
                },
            }
            Some(ret)
        } else {
            self.exhausted = true;
            Some(self.cur)
        }
    }
}

/// How many leading bytes `a` and `b` share.
pub open spec fn common_prefix(a: Seq<u8>, b: Seq<u8>) -> nat
    decreases a.len(),
{
    if a.len() == 0 || b.len() == 0 || a[0] != b[0] {
        0
    } else {
        1 + common_prefix(a.drop_first(), b.drop_first())
    }
}

proof fn lemma_common_prefix(a: Seq<u8>, b: Seq<u8>)
    ensures
        common_prefix(a, b) <= a.len(),
        common_prefix(a, b) <= b.len(),
        a.subrange(0, common_prefix(a, b) as int) == b.subrange(0, common_prefix(a, b) as int),
        common_prefix(a, b) < a.len() && common_prefix(a, b) < b.len() ==> a[common_prefix(a, b) as int]
            != b[common_prefix(a, b) as int],
    decreases a.len(),
{
    let n = common_prefix(a, b) as int;
    if a.len() == 0 || b.len() == 0 || a[0] != b[0] {
        assert(a.subrange(0, 0) =~= b.subrange(0, 0));
    } else {
        lemma_common_prefix(a.drop_first(), b.drop_first());
        assert forall|k: int| 0 <= k < n implies a[k] == b[k] by {
            if k > 0 {
                assert(a.drop_first().subrange(0, n - 1)[k - 1] == b.drop_first().subrange(0, n - 1)[k - 1]);
            }
        }
        assert(a.subrange(0, n) =~= b.subrange(0, n));
    }
}

proof fn lemma_lex_witness(a: Seq<u8>, b: Seq<u8>, i: int)
    requires
        lex_lt(a, b),
        0 <= i <= a.len(),
        i <= b.len(),
        a.subrange(0, i) == b.subrange(0, i),
    ensures
        i < a.len() ==> (i < b.len() && a[i] <= b[i]),
{
    let j = choose|j: int|
        #![trigger a.subrange(0, j)]
        0 <= j <= a.len() && j <= b.len() && a.subrange(0, j) == b.subrange(0, j) && ((j == a.len()
            && j < b.len()) || (j < a.len() && j < b.len() && a[j] < b[j]));
    if i < a.len() {
        if i < j {
            assert(a.subrange(0, j)[i] == b.subrange(0, j)[i]);
            assert(a[i] == b[i]);
            assert(i < b.len());
        } else if j < i {
            assert(j < a.len());
            let sa = a.subrange(0, i);
            let sb = b.subrange(0, i);
            assert(sa[j] == a[j]);
            assert(sb[j] == b[j]);
            assert(sa[j] == sb[j]);
            assert(false);
        } else {
            assert(j < b.len());
            assert(a[j] < b[j]);
        }
    }
}

/// Dictionary order on bytes is a strict total order: never both ways,
/// always one way between different sequences, and transitive.
pub proof fn lemma_lex_total_order(a: Seq<u8>, b: Seq<u8>, c: Seq<u8>)
    ensures
        lex_lt(a, b) ==> !lex_lt(b, a) && a != b,
        a != b ==> lex_lt(a, b) || lex_lt(b, a),
        lex_lt(a, b) && lex_lt(b, c) ==> lex_lt(a, c),
{
    lemma_common_prefix(a, b);
    let n = common_prefix(a, b) as int;
    if lex_lt(a, b) {
        lemma_lex_witness(a, b, n);
        if lex_lt(b, a) {
            lemma_lex_witness(b, a, n);
        }
        if n == a.len() && n == b.len() {
            assert(a =~= a.subrange(0, n));
            assert(b =~= b.subrange(0, n));
        }
    }
    if a != b {
        if n == a.len() && n == b.len() {
            assert(a =~= a.subrange(0, n));
            assert(b =~= b.subrange(0, n));
        }
    }
    if lex_lt(a, b) && lex_lt(b, c) {
        lemma_common_prefix(b, c);
        let m = common_prefix(b, c) as int;
        lemma_lex_witness(a, b, n);
        lemma_lex_witness(b, c, m);
        let k = if n < m {
            n
        } else {
            m
        };
        assert(a.subrange(0, k) =~= c.subrange(0, k)) by {
            assert forall|t: int| 0 <= t < k implies a[t] == c[t] by {
                assert(a.subrange(0, n)[t] == b.subrange(0, n)[t]);
                assert(b.subrange(0, m)[t] == c.subrange(0, m)[t]);
            }
        }
        if n < m {
            assert(b[n] == c[n]) by {
                assert(b.subrange(0, m)[n] == c.subrange(0, m)[n]);
            }
        } else if m < n {
            assert(a[m] == b[m]) by {
                assert(a.subrange(0, n)[m] == b.subrange(0, n)[m]);
            }
        }
        if n == a.len() && n == b.len() {
            assert(a =~= a.subrange(0, n));
            assert(b =~= b.subrange(0, n));
        }
        if m == b.len() && m == c.len() {
            assert(b =~= b.subrange(0, m));
            assert(c =~= c.subrange(0, m));
        }
    }
}

/// The first place where `a` and `b` differ, or the length of the shorter.
fn first_difference(a: &Vec<u8>, b: &Vec<u8>) -> (i: usize)
    ensures
        i <= a@.len(),
        i <= b@.len(),
        forall|k: int| 0 <= k < i ==> a@[k] == b@[k],
        i < a@.len() && i < b@.len() ==> a@[i as int] != b@[i as int],
{
    let mut i: usize = 0;
    while i < a.len() && i < b.len()
        invariant
            i <= a@.len(),
            i <= b@.len(),
            forall|k: int| 0 <= k < i ==> a@[k] == b@[k],
        decreases a@.len() - i,
    {
        if a[i] != b[i] {
            return i;
        }
        i = i + 1;
    }
    i
}

/// Where `a` and `b` first differ by a smaller byte in `a`, `a` comes first.
proof fn lemma_lex_at(a: Seq<u8>, b: Seq<u8>, i: usize)
    requires
        i < a.len(),
        i < b.len(),
        forall|k: int| 0 <= k < i ==> a[k] == b[k],
        a[i as int] < b[i as int],
    ensures
        lex_lt(a, b),
        !lex_lt(b, a),
        a != b,
{
    assert(a.subrange(0, i as int) =~= b.subrange(0, i as int));
    if lex_lt(b, a) {
        let j = choose|j: int|
            #![trigger b.subrange(0, j)]
            0 <= j <= b.len() && j <= a.len() && b.subrange(0, j) == a.subrange(0, j) && ((j == b.len()
                && j < a.len()) || (j < b.len() && j < a.len() && b[j] < a[j]));
        if j > i {
            assert(b.subrange(0, j)[i as int] == a.subrange(0, j)[i as int]);
        } else if j < i {
            assert(a[j] == b[j]);
        }
    }
}

/// A proper prefix comes first.
pub(crate) proof fn lemma_lex_prefix(a: Seq<u8>, b: Seq<u8>)
    requires
        a.len() < b.len(),
        forall|k: int| 0 <= k < a.len() ==> a[k] == b[k],
    ensures
        lex_lt(a, b),
        !lex_lt(b, a),
        a != b,
{
    assert(a.subrange(0, a.len() as int) =~= b.subrange(0, a.len() as int));
    if lex_lt(b, a) {
        let j = choose|j: int|
            #![trigger b.subrange(0, j)]
            0 <= j <= b.len() && j <= a.len() && b.subrange(0, j) == a.subrange(0, j) && ((j == b.len()
                && j < a.len()) || (j < b.len() && j < a.len() && b[j] < a[j]));
        assert(a[j] == b[j]);
    }
}

/// Nothing comes before itself.
proof fn lemma_lex_irreflexive(a: Seq<u8>)
    ensures
        !lex_lt(a, a),
{
}

/// The order of two keys: by their bytes, in dictionary order.
pub open spec fn key_order(a: HighKey, b: HighKey) -> Ordering {
    if lex_lt(a.bytes(), b.bytes()) {
        Ordering::Less
    } else if a.bytes() == b.bytes() {
        Ordering::Equal
    } else {
        Ordering::Greater
    }
}

impl HighKey {
    /// Compares the bytes of the two keys in dictionary order.
    pub fn compare(&self, other: &Self) -> (r: Ordering)
        ensures
            r == key_order(*self, *other),
            r == Ordering::Greater <==> lex_lt(other.bytes(), self.bytes()),
    {
        let a = self.as_bytes();
        let b = other.as_bytes();
        let i = first_difference(&a, &b);
        if i < a.len() && i < b.len() {
            if a[i] < b[i] {
                proof {
                    lemma_lex_at(a@, b@, i);
                }
                Ordering::Less
            } else {
                proof {
                    lemma_lex_at(b@, a@, i);
                }
                Ordering::Greater
            }
        } else if a.len() < b.len() {
            proof {
                lemma_lex_prefix(a@, b@);
            }
            Ordering::Less
        } else if b.len() < a.len() {
            proof {
                lemma_lex_prefix(b@, a@);
            }
            Ordering::Greater
        } else {
            proof {
                assert(a@ =~= b@);
                lemma_lex_irreflexive(a@);
            }
            Ordering::Equal
        }
    }
}

/// Keys are ordered totally: the order of two keys is reversed when they are
/// swapped, and it chains.
pub proof fn lemma_key_order_total(a: HighKey, b: HighKey, c: HighKey)
    ensures
        key_order(a, b) == Ordering::Less <==> key_order(b, a) == Ordering::Greater,
        key_order(a, b) == Ordering::Equal <==> key_order(b, a) == Ordering::Equal,
        key_order(a, b) == Ordering::Less && key_order(b, c) == Ordering::Less ==> key_order(a, c)
            == Ordering::Less,
{
    lemma_lex_total_order(a.bytes(), b.bytes(), c.bytes());
    lemma_lex_total_order(b.bytes(), a.bytes(), c.bytes());
}

impl PartialOrd for HighKey {
    fn partial_cmp(&self, other: &Self) -> (r: Option<Ordering>) {
        Some(self.compare(other))
    }
}

impl PartialOrdSpecImpl for HighKey {
    open spec fn obeys_partial_cmp_spec() -> bool {
        true
    }

    open spec fn partial_cmp_spec(&self, other: &HighKey) -> Option<Ordering> {
        Some(key_order(*self, *other))
    }
}

} // verus!
