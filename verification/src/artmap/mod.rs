//! A set of `u64` values whose high halves are the keys of an adaptive radix tree.

pub mod art;
pub mod compare;
pub mod container;
pub mod key;

use vstd::prelude::*;

use self::art::{ArtMap, PrefixKind, art_entries, prefix_related};
use self::compare::{CompareIter, EitherOrBoth, Entry};
use self::container::{Container, values_of, all_u32};
use self::container::Iter as ContainerIter;
use self::key::{HighKey, be_bytes, prefix_of, lex_lt, lemma_be_order, lemma_be_bytes_value};
use vstd::std_specs::cmp::PartialEqSpecImpl;
use crate::bitmap::RoaringBitmap;

verus! {

/// The high 32 bits of `v`.
pub open spec fn high32(v: u64) -> u32 {
    (v / 0x1_0000_0000) as u32
}

/// The low 32 bits of `v`.
pub open spec fn low32(v: u64) -> u32 {
    (v % 0x1_0000_0000) as u32
}

/// The value whose high and low 32 bits are `high` and `low`.
pub open spec fn compose(high: u32, low: u32) -> u64 {
    (high * 0x1_0000_0000 + low) as u64
}

/// Splitting a value into halves and putting them back together gives it back.
pub proof fn lemma_split_then_assemble(v: u64)
    ensures
        compose(high32(v), low32(v)) == v,
{
}

/// Putting two halves together and splitting the value gives them back.
pub proof fn lemma_assemble_then_split(high: u32, low: u32)
    ensures
        high32(compose(high, low)) == high,
        low32(compose(high, low)) == low,
{
}

/// The high and low halves of `value`.
pub fn split_key(value: u64) -> (r: (u32, u32))
    ensures
        r == (high32(value), low32(value)),
{
    let r = (((value >> u64::BITS / 2) as u32), ((value & 0xFFFF_FFFFu64) as u32));
    proof {
        assert(((value >> 32u64) as u32) == ((value / 0x1_0000_0000) as u32)) by (bit_vector);
        assert(((value & 0xFFFF_FFFFu64) as u32) == ((value % 0x1_0000_0000) as u32)) by (bit_vector);
    }
    r
}

/// The value with high half `high` and low half `low`.
pub fn assemble_key_from_parts(high: u32, low: u32) -> (r: u64)
    ensures
        r == compose(high, low),
{
    let r = ((high as u64) << u64::BITS / 2) | low as u64;
    proof {
        let h = high as u64;
        let l = low as u64;
        assert((h << 32u64) | l == h * 0x1_0000_0000 + l) by (bit_vector)
            requires
                h < 0x1_0000_0000,
                l < 0x1_0000_0000,
        ;
    }
    r
}

/// Two values with the same big-endian bytes are equal.
pub proof fn lemma_be_bytes_injective(a: u32, b: u32)
    requires
        be_bytes(a) == be_bytes(b),
    ensures
        a == b,
{
    assert(be_bytes(a)[0] == be_bytes(b)[0]);
    assert(be_bytes(a)[1] == be_bytes(b)[1]);
    assert(be_bytes(a)[2] == be_bytes(b)[2]);
    assert(be_bytes(a)[3] == be_bytes(b)[3]);
    assert(a / 0x1000000 == b / 0x1000000);
    assert((a / 0x10000) % 0x100 == (b / 0x10000) % 0x100);
    assert((a / 0x100) % 0x100 == (b / 0x100) % 0x100);
    assert(a % 0x100 == b % 0x100);
}

/// A container of the tree that is never empty, and that is never a full bitmap.
pub open spec fn container_ok(c: Container) -> bool {
    match c {
        Container::Full => true,
        Container::Bitmap(b) => b@ != Set::<u32>::empty() && b@ != Set::<u32>::full(),
    }
}

/// Every key holds the four bytes of a whole `u32`, and every container is as it should be.
pub open spec fn entries_ok(m: Map<Seq<u8>, Container>) -> bool {
    forall|k: Seq<u8>| #[trigger] m.dom().contains(k) ==> k.len() == 4 && container_ok(m[k])
}

/// The values that the entries hold: a value is present when the key of its
/// high half is, and its container holds its low half.
pub open spec fn entries_view(m: Map<Seq<u8>, Container>) -> Set<u64> {
    Set::new(
        |v: u64|
            m.dom().contains(be_bytes(high32(v))) && m[be_bytes(high32(v))]@.contains(low32(v)),
    )
}

proof fn lemma_view_put(m: Map<Seq<u8>, Container>, h: u32, c: Container)
    ensures
        forall|v: u64|
            #[trigger] entries_view(m.insert(be_bytes(h), c)).contains(v) <==> (if high32(v) == h {
                c@.contains(low32(v))
            } else {
                entries_view(m).contains(v)
            }),
{
    assert forall|v: u64|
        #[trigger] entries_view(m.insert(be_bytes(h), c)).contains(v) <==> (if high32(v) == h {
            c@.contains(low32(v))
        } else {
            entries_view(m).contains(v)
        }) by {
        if high32(v) != h && be_bytes(high32(v)) == be_bytes(h) {
            lemma_be_bytes_injective(high32(v), h);
        }
    }
}

proof fn lemma_view_drop(m: Map<Seq<u8>, Container>, h: u32)
    ensures
        forall|v: u64|
            #[trigger] entries_view(m.remove(be_bytes(h))).contains(v) <==> (high32(v) != h
                && entries_view(m).contains(v)),
{
    assert forall|v: u64|
        #[trigger] entries_view(m.remove(be_bytes(h))).contains(v) <==> (high32(v) != h
            && entries_view(m).contains(v)) by {
        if high32(v) != h && be_bytes(high32(v)) == be_bytes(h) {
            lemma_be_bytes_injective(high32(v), h);
        }
    }
}

/// Among keys of four bytes, only the key itself is related to a four-byte key by a prefix.
proof fn lemma_prefix_related_full(m: Map<Seq<u8>, Container>, key: Seq<u8>)
    requires
        entries_ok(m),
        key.len() == 4,
    ensures
        m.remove_keys(Set::new(|k: Seq<u8>| prefix_related(k, key))) == m.remove(key),
        forall|k: Seq<u8>| #[trigger] m.dom().contains(k) && prefix_related(k, key) ==> k == key,
{
    assert forall|k: Seq<u8>| #[trigger] m.dom().contains(k) && prefix_related(k, key) implies k == key by {
        assert(k.len() == 4);
        if prefix_of(k, key) {
            assert(key.subrange(0, 4) =~= key);
        } else {
            assert(k.subrange(0, 4) =~= k);
        }
    }
    assert(key.subrange(0, 4) =~= key);
    assert(prefix_related(key, key));
    let gone = Set::new(|k: Seq<u8>| prefix_related(k, key));
    assert(gone.contains(key));
    assert(m.remove_keys(gone).dom() =~= m.remove(key).dom());
    assert(m.remove_keys(gone) =~= m.remove(key));
}

/// A set of `u64` values: each high half is a key of an adaptive radix tree
/// whose container holds the low halves.
#[derive(Debug)]
pub struct RoaringArtmap {
    map: ArtMap,
}

impl View for RoaringArtmap {
    type V = Set<u64>;

    closed spec fn view(&self) -> Set<u64> {
        entries_view(art_entries(self.map))
    }
}

impl RoaringArtmap {
    #[verifier::type_invariant]
    spec fn inv(self) -> bool {
        entries_ok(art_entries(self.map))
    }

    /// An empty set.
    pub fn new() -> (r: RoaringArtmap)
        ensures
            r@ == Set::<u64>::empty(),
    {
        let r = RoaringArtmap { map: ArtMap::new() };
        assert(r@ =~= Set::<u64>::empty());
        r
    }

    /// Takes `value` out; says whether it was present. Under a key whose
    /// container is a bitmap, every value with the same high half goes with it.
    pub fn remove(&mut self, value: u64) -> (r: bool)
        ensures
            r == old(self)@.contains(value),
            final(self)@ == (if !r {
                old(self)@
            } else if forall|l: u32| #[trigger] old(self)@.contains(compose(high32(value), l)) {
                old(self)@.remove(value)
            } else {
                old(self)@.filter(|v: u64| high32(v) != high32(value))
            }),
    {
        proof {
            use_type_invariant(&*self);
        }
        let (high, low) = split_key(value);
        let key = HighKey::from(high);
        proof {
            HighKey::lemma_full_key(high);
        }
        let ghost kb = be_bytes(high);
        let key_bytes = key.as_bytes();
        assert(key_bytes@ =~= kb);
        let mut map = ArtMap::new();
        std::mem::swap(&mut map, &mut self.map);
        let ghost m = art_entries(map);
        proof {
            lemma_prefix_related_full(m, kb);
            lemma_split_then_assemble(value);
        }
        let r = match map.prefix_kind(key_bytes) {
            PrefixKind::Inner => {
                proof {
                    let k = choose|k: Seq<u8>| #[trigger] m.dom().contains(k) && prefix_related(k, kb);
                }
                let mut new = RoaringBitmap::full();
                new.remove(low);
                map.prefix_insert(key.as_bytes(), Container::Bitmap(new));
                true
            },
            PrefixKind::Leaf => {
                let key_bytes = key.as_bytes();
                assert(key_bytes@ =~= kb);
                match map.remove(&key_bytes) {
                    Some(Container::Full) => {
                        let mut new = RoaringBitmap::full();
                        new.remove(low);
                        proof {
                            lemma_remove_from_full(m, value, Container::Bitmap(new));
                            lemma_prefix_related_full(m.remove(kb), kb);
                        }
                        map.prefix_insert(key_bytes, Container::Bitmap(new));
                        assert(art_entries(map) =~= m.insert(kb, Container::Bitmap(new)));
                        true
                    },
                    Some(Container::Bitmap(mut bitmap)) => {
                        let ghost before = bitmap@;
                        let ret = bitmap.remove(low);
                        if ret {
                            let _ = bitmap.is_empty();
                            proof {
                                lemma_remove_slice(m, value);
                            }
                        } else {
                            proof {
                                assert(bitmap@ =~= before);
                                lemma_replace_same_view(m, high, Container::Bitmap(bitmap));
                                lemma_prefix_related_full(m.remove(kb), kb);
                            }
                            map.prefix_insert(key_bytes, Container::Bitmap(bitmap));
                            assert(art_entries(map) =~= m.insert(kb, Container::Bitmap(bitmap)));
                        }
                        ret
                    },
                    None => false,
                }
            },
            PrefixKind::Vacant => false,
        };
        self.map = map;
        r
    }

    /// Adds `value`; says whether it was absent.
    pub fn insert(&mut self, value: u64) -> (r: bool)
        ensures
            final(self)@ == old(self)@.insert(value),
            r == !old(self)@.contains(value),
    {
        proof {
            use_type_invariant(&*self);
        }
        let (high, low) = split_key(value);
        let key = HighKey::from(high);
        proof {
            HighKey::lemma_full_key(high);
        }
        let ghost kb = be_bytes(high);
        let key_bytes = key.as_bytes();
        assert(key_bytes@ =~= kb);
        let mut map = ArtMap::new();
        std::mem::swap(&mut map, &mut self.map);
        let ghost m = art_entries(map);
        proof {
            lemma_prefix_related_full(m, kb);
        }
        let ghost mut c = Container::Full;
        let r = match map.prefix_kind(key_bytes) {
            PrefixKind::Inner => {
                proof {
                    let k = choose|k: Seq<u8>| #[trigger] m.dom().contains(k) && prefix_related(k, kb);
                }
                false
            },
            PrefixKind::Leaf => {
                let key_bytes = key.as_bytes();
                assert(key_bytes@ =~= kb);
                match map.remove(&key_bytes) {
                    Some(Container::Full) => {
                        map.prefix_insert(key_bytes, Container::Full);
                        proof {
                            assert(slice_of(m, high) =~= Set::<u32>::full());
                        }
                        false
                    },
                    Some(Container::Bitmap(mut bitmap)) => {
                        let ghost before = bitmap@;
                        let ret = bitmap.insert(low);
                        let next = if ret && bitmap.is_full() {
                            Container::Full
                        } else {
                            Container::Bitmap(bitmap)
                        };
                        proof {
                            c = next;
                            assert(!Set::<u32>::empty().contains(low));
                            assert(c@.contains(low));
                            if !ret {
                                assert(bitmap@ =~= before);
                            }
                        }
                        map.prefix_insert(key_bytes, next);
                        ret
                    },
                    None => false,
                }
            },
            PrefixKind::Vacant => {
                let key_bytes = key.as_bytes();
                assert(key_bytes@ =~= kb);
                let mut bitmap = RoaringBitmap::new();
                bitmap.insert(low);
                proof {
                    c = Container::Bitmap(bitmap);
                    assert(slice_of(m, high) =~= Set::<u32>::empty());
                    let other: u32 = if low == 0 {
                        1
                    } else {
                        0
                    };
                    assert(bitmap@.contains(low) && !bitmap@.contains(other));
                    assert(!Set::<u32>::empty().contains(low));
                    assert(Set::<u32>::full().contains(other));
                }
                map.prefix_insert(key_bytes, Container::Bitmap(bitmap));
                true
            },
        };
        proof {
            assert(art_entries(map) == m.insert(kb, c));
            assert(c@ =~= slice_of(m, high).insert(low));
            lemma_insert_view(m, value, c);
        }
        self.map = map;
        r
    }
}

/// Swapping a container for one that holds the same values changes nothing that is seen.
proof fn lemma_replace_same_view(m: Map<Seq<u8>, Container>, h: u32, c: Container)
    requires
        entries_ok(m),
        m.dom().contains(be_bytes(h)),
        m[be_bytes(h)] is Bitmap,
        c is Bitmap,
        c@ == m[be_bytes(h)]@,
    ensures
        entries_ok(m.insert(be_bytes(h), c)),
        entries_view(m.insert(be_bytes(h), c)) == entries_view(m),
{
    let nm = m.insert(be_bytes(h), c);
    lemma_view_put(m, h, c);
    assert forall|v: u64| entries_view(nm).contains(v) <==> entries_view(m).contains(v) by {
        lemma_split_then_assemble(v);
    }
    assert(entries_view(nm) =~= entries_view(m));
    assert(container_ok(m[be_bytes(h)]));
    assert forall|k: Seq<u8>| #[trigger] nm.dom().contains(k) implies k.len() == 4 && container_ok(nm[k]) by {
        if k != be_bytes(h) {
            assert(m.dom().contains(k));
        }
    }
}

/// Under a full container, dropping the low half of `value` from it takes
/// just `value` out.
proof fn lemma_remove_from_full(m: Map<Seq<u8>, Container>, value: u64, c: Container)
    requires
        entries_ok(m),
        m.dom().contains(be_bytes(high32(value))),
        m[be_bytes(high32(value))] is Full,
        c@ == Set::<u32>::full().remove(low32(value)),
    ensures
        entries_ok(m.insert(be_bytes(high32(value)), c)),
        entries_view(m.insert(be_bytes(high32(value)), c)) == entries_view(m).remove(value),
        entries_view(m).contains(value),
        forall|l: u32| #[trigger] entries_view(m).contains(compose(high32(value), l)),
{
    let h = high32(value);
    let low = low32(value);
    let nm = m.insert(be_bytes(h), c);
    lemma_view_put(m, h, c);
    lemma_split_then_assemble(value);
    assert forall|v: u64| entries_view(nm).contains(v) <==> (entries_view(m).contains(v) && v != value) by {
        lemma_split_then_assemble(v);
    }
    assert(entries_view(nm) =~= entries_view(m).remove(value));
    assert forall|l: u32| #[trigger] entries_view(m).contains(compose(h, l)) by {
        lemma_assemble_then_split(h, l);
    }
    let other: u32 = if low == 0 {
        1
    } else {
        0
    };
    assert(c@.contains(other) && !c@.contains(low));
    assert(!Set::<u32>::empty().contains(other));
    assert(Set::<u32>::full().contains(low));
    assert forall|k: Seq<u8>| #[trigger] nm.dom().contains(k) implies k.len() == 4 && container_ok(nm[k]) by {
        if k != be_bytes(h) {
            assert(m.dom().contains(k));
        }
    }
}

/// Under a bitmap container that holds the low half of `value`, dropping the
/// whole entry takes out every value with the same high half.
proof fn lemma_remove_slice(m: Map<Seq<u8>, Container>, value: u64)
    requires
        entries_ok(m),
        m.dom().contains(be_bytes(high32(value))),
        m[be_bytes(high32(value))] is Bitmap,
        m[be_bytes(high32(value))]@.contains(low32(value)),
    ensures
        entries_ok(m.remove(be_bytes(high32(value)))),
        entries_view(m.remove(be_bytes(high32(value)))) == entries_view(m).filter(
            |v: u64| high32(v) != high32(value),
        ),
        entries_view(m).contains(value),
        !forall|l: u32| #[trigger] entries_view(m).contains(compose(high32(value), l)),
{
    let h = high32(value);
    let c = m[be_bytes(h)];
    lemma_view_drop(m, h);
    lemma_split_then_assemble(value);
    assert(entries_view(m.remove(be_bytes(h))) =~= entries_view(m).filter(|v: u64| high32(v) != h));
    assert(c@ != Set::<u32>::full());
    if forall|l: u32| c@.contains(l) {
        assert(c@ =~= Set::<u32>::full());
    }
    let l = choose|l: u32| !c@.contains(l);
    lemma_assemble_then_split(h, l);
    assert(!entries_view(m).contains(compose(h, l)));
}

/// The low halves that the entries hold under the key of `high`.
pub open spec fn slice_of(m: Map<Seq<u8>, Container>, high: u32) -> Set<u32> {
    if m.dom().contains(be_bytes(high)) {
        m[be_bytes(high)]@
    } else {
        Set::empty()
    }
}

/// Putting under the key of a value's high half a container that holds the
/// old low halves there and the value's own adds the value, and nothing else.
proof fn lemma_insert_view(m: Map<Seq<u8>, Container>, value: u64, c: Container)
    requires
        entries_ok(m),
        c@ == slice_of(m, high32(value)).insert(low32(value)),
        container_ok(c),
    ensures
        entries_ok(m.insert(be_bytes(high32(value)), c)),
        entries_view(m.insert(be_bytes(high32(value)), c)) == entries_view(m).insert(value),
        entries_view(m).contains(value) == slice_of(m, high32(value)).contains(low32(value)),
{
    let h = high32(value);
    let nm = m.insert(be_bytes(h), c);
    lemma_view_put(m, h, c);
    assert forall|v: u64| entries_view(nm).contains(v) <==> (entries_view(m).contains(v) || v == value) by {
        lemma_split_then_assemble(v);
        lemma_split_then_assemble(value);
    }
    assert(entries_view(nm) =~= entries_view(m).insert(value));
    assert forall|k: Seq<u8>| #[trigger] nm.dom().contains(k) implies k.len() == 4 && container_ok(nm[k]) by {
        if k != be_bytes(h) {
            assert(m.dom().contains(k));
        }
    }
}

/// `es` lists the entries of `m` in increasing order of their keys, each key
/// as a full-length high key.
pub open spec fn entries_listed<'a>(es: Seq<Entry<'a>>, m: Map<Seq<u8>, Container>) -> bool {
    &&& forall|i: int|
        #![trigger es[i]]
        0 <= i < es.len() ==> es[i].0.key_len() == 4 && es[i].0.bytes() == be_bytes(es[i].0.val())
            && m.dom().contains(es[i].0.bytes()) && *es[i].1 == m[es[i].0.bytes()]
    &&& forall|k: Seq<u8>|
        #![trigger m.dom().contains(k)]
        m.dom().contains(k) ==> exists|i: int| 0 <= i < es.len() && (#[trigger] es[i]).0.bytes() == k
    &&& forall|i: int, j: int| #![trigger es[i], es[j]] 0 <= i < j < es.len() ==> es[i].0.val() < es[j].0.val()
}

/// A key whose value no listed entry has is not in the map.
proof fn lemma_listed_absent<'a>(es: Seq<Entry<'a>>, m: Map<Seq<u8>, Container>, a: u32)
    requires
        entries_listed(es, m),
        forall|i: int| 0 <= i < es.len() ==> (#[trigger] es[i]).0.val() != a,
    ensures
        !m.dom().contains(be_bytes(a)),
{
    if m.dom().contains(be_bytes(a)) {
        let i = choose|i: int| 0 <= i < es.len() && (#[trigger] es[i]).0.bytes() == be_bytes(a);
        lemma_be_bytes_injective(es[i].0.val(), a);
    }
}

/// A key of the map has a value under it.
proof fn lemma_key_has_value(m: Map<Seq<u8>, Container>, a: u32)
    requires
        entries_ok(m),
        m.dom().contains(be_bytes(a)),
    ensures
        exists|l: u32| #[trigger] entries_view(m).contains(compose(a, l)),
{
    let c = m[be_bytes(a)];
    assert(container_ok(c));
    let l: u32 = match c {
        Container::Full => 0,
        Container::Bitmap(b) => {
            if forall|x: u32| !b@.contains(x) {
                assert(b@ =~= Set::<u32>::empty());
            }
            choose|x: u32| b@.contains(x)
        },
    };
    assert(c@.contains(l));
    lemma_assemble_then_split(a, l);
    assert(entries_view(m).contains(compose(a, l)));
}

impl RoaringArtmap {
    /// The entries of the tree in key order, each key as a full-length high key.
    fn entries<'a>(&'a self) -> (r: Vec<Entry<'a>>)
        ensures
            entries_listed(r@, art_entries(self.map)),
    {
        proof {
            use_type_invariant(self);
        }
        let ghost m = art_entries(self.map);
        let raw = self.map.entries();
        let mut out: Vec<Entry<'a>> = Vec::new();
        let mut i: usize = 0;
        while i < raw.len()
            invariant
                i <= raw@.len(),
                out@.len() == i,
                entries_ok(m),
                forall|j: int|
                    #![trigger raw@[j]]
                    0 <= j < raw@.len() ==> m.dom().contains(raw@[j].0@) && *raw@[j].1 == m[raw@[j].0@],
                forall|j: int|
                    #![trigger out@[j]]
                    0 <= j < i ==> out@[j].0.key_len() == 4 && out@[j].0.bytes() == raw@[j].0@
                        && out@[j].0.bytes() == be_bytes(out@[j].0.val()) && out@[j].1 == raw@[j].1,
            decreases raw@.len() - i,
        {
            assert(m.dom().contains(raw@[i as int].0@));
            let k = HighKey::from_bytes(&raw[i].0);
            proof {
                lemma_be_bytes_value(k.val());
                assert(be_bytes(k.val()).subrange(0, 4) =~= be_bytes(k.val()));
            }
            out.push((k, raw[i].1));
            i = i + 1;
        }
        proof {
            assert forall|k: Seq<u8>| #[trigger] m.dom().contains(k) implies exists|i: int|
                0 <= i < out@.len() && (#[trigger] out@[i]).0.bytes() == k by {
                let j = choose|j: int| 0 <= j < raw@.len() && (#[trigger] raw@[j]).0@ == k;
                assert(out@[j].0.bytes() == k);
            }
            assert forall|a: int, b: int| #![trigger out@[a], out@[b]] 0 <= a < b < out@.len() implies out@[a].0.val()
                < out@[b].0.val() by {
                assert(lex_lt(raw@[a].0@, raw@[b].0@));
                lemma_be_order(out@[a].0.val(), out@[b].0.val());
            }
        }
        out
    }
}

impl PartialEq for RoaringArtmap {
    fn eq(&self, other: &Self) -> (r: bool) {
        proof {
            use_type_invariant(self);
            use_type_invariant(other);
        }
        let ghost m1 = art_entries(self.map);
        let ghost m2 = art_entries(other.map);
        let left = self.entries();
        let right = other.entries();
        let ghost ls = left@;
        let ghost rs = right@;
        let mut iter = CompareIter::new(left.as_slice(), right.as_slice());
        let ghost mut i: int = 0;
        assert(ls.skip(0) =~= ls);
        assert(rs.skip(0) =~= rs);
        loop
            invariant
                entries_ok(m1),
                entries_ok(m2),
                m1 == art_entries(self.map),
                m2 == art_entries(other.map),
                entries_listed(ls, m1),
                entries_listed(rs, m2),
                0 <= i <= ls.len(),
                i <= rs.len(),
                iter.left() == ls.skip(i),
                iter.right() == rs.skip(i),
                forall|k: int|
                    #![trigger ls[k]]
                    0 <= k < i ==> ls[k].0.val() == rs[k].0.val() && ls[k].1@ == rs[k].1@,
            decreases ls.len() + rs.len() - 2 * i,
        {
            let ghost l = iter.left();
            let ghost r = iter.right();
            proof {
                if i < ls.len() && i < rs.len() {
                    assert(l[0] == ls[i]);
                    assert(r[0] == rs[i]);
                    lemma_be_order(ls[i].0.val(), rs[i].0.val());
                    lemma_be_order(rs[i].0.val(), ls[i].0.val());
                    if ls[i].0.val() != rs[i].0.val() {
                        if ls[i].0.bytes() == rs[i].0.bytes() {
                            lemma_be_bytes_injective(ls[i].0.val(), rs[i].0.val());
                        }
                        assert(!prefix_of(ls[i].0.bytes(), rs[i].0.bytes())) by {
                            if prefix_of(ls[i].0.bytes(), rs[i].0.bytes()) {
                                assert(rs[i].0.bytes().subrange(0, 4) =~= rs[i].0.bytes());
                            }
                        }
                        assert(!prefix_of(rs[i].0.bytes(), ls[i].0.bytes())) by {
                            if prefix_of(rs[i].0.bytes(), ls[i].0.bytes()) {
                                assert(ls[i].0.bytes().subrange(0, 4) =~= ls[i].0.bytes());
                            }
                        }
                    }
                } else if i < ls.len() {
                    assert(l[0] == ls[i]);
                } else if i < rs.len() {
                    assert(r[0] == rs[i]);
                }
            }
            match iter.next() {
                None => {
                    proof {
                        lemma_listed_equal(ls, rs, m1, m2);
                    }
                    return true;
                },
                Some(EitherOrBoth::Both(a, b)) => {
                    if !a.1.eq(b.1) {
                        proof {
                            lemma_listed_differ_at(ls, rs, m1, m2, i);
                        }
                        return false;
                    }
                    proof {
                        assert(ls.skip(i).skip(1) =~= ls.skip(i + 1));
                        assert(rs.skip(i).skip(1) =~= rs.skip(i + 1));
                        i = i + 1;
                    }
                },
                Some(_) => {
                    proof {
                        lemma_listed_missing_at(ls, rs, m1, m2, i);
                    }
                    return false;
                },
            }
        }
    }
}

impl PartialEqSpecImpl for RoaringArtmap {
    open spec fn obeys_eq_spec() -> bool {
        true
    }

    open spec fn eq_spec(&self, other: &RoaringArtmap) -> bool {
        self@ == other@
    }
}

/// When both listings pair up key by key with containers that hold the same
/// values, the two maps hold the same values.
proof fn lemma_listed_equal<'a>(ls: Seq<Entry<'a>>, rs: Seq<Entry<'a>>, m1: Map<Seq<u8>, Container>, m2: Map<Seq<u8>, Container>)
    requires
        entries_ok(m1),
        entries_ok(m2),
        entries_listed(ls, m1),
        entries_listed(rs, m2),
        ls.len() == rs.len(),
        forall|k: int|
            #![trigger ls[k]]
            0 <= k < ls.len() ==> ls[k].0.val() == rs[k].0.val() && ls[k].1@ == rs[k].1@,
    ensures
        entries_view(m1) == entries_view(m2),
{
    assert forall|v: u64| entries_view(m1).contains(v) implies entries_view(m2).contains(v) by {
        let kb = be_bytes(high32(v));
        let j = choose|j: int| 0 <= j < ls.len() && (#[trigger] ls[j]).0.bytes() == kb;
        lemma_be_bytes_injective(ls[j].0.val(), high32(v));
        assert(rs[j].0.bytes() == kb);
    }
    assert forall|v: u64| entries_view(m2).contains(v) implies entries_view(m1).contains(v) by {
        let kb = be_bytes(high32(v));
        let j = choose|j: int| 0 <= j < rs.len() && (#[trigger] rs[j]).0.bytes() == kb;
        lemma_be_bytes_injective(rs[j].0.val(), high32(v));
        assert(ls[j].0.bytes() == kb);
    }
    assert(entries_view(m1) =~= entries_view(m2));
}

/// Two containers under the same key that hold different values make the maps differ.
proof fn lemma_listed_differ_at<'a>(ls: Seq<Entry<'a>>, rs: Seq<Entry<'a>>, m1: Map<Seq<u8>, Container>, m2: Map<Seq<u8>, Container>, i: int)
    requires
        entries_listed(ls, m1),
        entries_listed(rs, m2),
        0 <= i < ls.len(),
        i < rs.len(),
        ls[i].0.val() == rs[i].0.val(),
        ls[i].1@ != rs[i].1@,
    ensures
        entries_view(m1) != entries_view(m2),
{
    let a = ls[i].0.val();
    let c1 = ls[i].1@;
    let c2 = rs[i].1@;
    if forall|x: u32| c1.contains(x) <==> c2.contains(x) {
        assert(c1 =~= c2);
    }
    let x = choose|x: u32| !(c1.contains(x) <==> c2.contains(x));
    lemma_assemble_then_split(a, x);
    let v = compose(a, x);
    assert(entries_view(m1).contains(v) != entries_view(m2).contains(v));
}

/// When the walk hands out a key alone, that key is in one map only, so the maps differ.
proof fn lemma_listed_missing_at<'a>(ls: Seq<Entry<'a>>, rs: Seq<Entry<'a>>, m1: Map<Seq<u8>, Container>, m2: Map<Seq<u8>, Container>, i: int)
    requires
        entries_ok(m1),
        entries_ok(m2),
        entries_listed(ls, m1),
        entries_listed(rs, m2),
        0 <= i <= ls.len(),
        i <= rs.len(),
        i < ls.len() || i < rs.len(),
        forall|k: int|
            #![trigger ls[k]]
            0 <= k < i ==> ls[k].0.val() == rs[k].0.val(),
        i < ls.len() && i < rs.len() ==> ls[i].0.val() != rs[i].0.val(),
    ensures
        entries_view(m1) != entries_view(m2),
{
    if i < ls.len() && (i == rs.len() || ls[i].0.val() < rs[i].0.val()) {
        let a = ls[i].0.val();
        assert forall|j: int| 0 <= j < rs.len() implies (#[trigger] rs[j]).0.val() != a by {
            if j < i {
                assert(ls[j].0.val() < ls[i].0.val());
            } else if j > i {
                assert(rs[i].0.val() < rs[j].0.val());
            }
        }
        lemma_listed_absent(rs, m2, a);
        lemma_key_has_value(m1, a);
        let l = choose|l: u32| #[trigger] entries_view(m1).contains(compose(a, l));
        lemma_assemble_then_split(a, l);
        assert(!entries_view(m2).contains(compose(a, l)));
    } else {
        let b = rs[i].0.val();
        assert forall|j: int| 0 <= j < ls.len() implies (#[trigger] ls[j]).0.val() != b by {
            if j < i {
                assert(rs[j].0.val() < rs[i].0.val());
                assert(ls[j].0.val() == rs[j].0.val());
            } else if j > i {
                assert(ls[i].0.val() < ls[j].0.val());
            }
        }
        lemma_listed_absent(ls, m1, b);
        lemma_key_has_value(m2, b);
        let l = choose|l: u32| #[trigger] entries_view(m2).contains(compose(b, l));
        lemma_assemble_then_split(b, l);
        assert(!entries_view(m1).contains(compose(b, l)));
    }
}

/// Hands out `u64` values: the high half of the first key of the tree with
/// each low half of its container, in increasing order. It stops at the end
/// of that first container.
pub struct Iter<'a> {
    entries: Vec<Entry<'a>>,
    cur_container: Option<(HighKey, ContainerIter<'a>)>,
}

impl<'a> Iter<'a> {
    /// Every value the iterator hands out, from the first on.
    pub closed spec fn all(&self) -> Seq<u64> {
        first_values(self.entries@)
    }

    /// How many values the iterator has handed out.
    pub closed spec fn taken(&self) -> int {
        match self.cur_container {
            None => 0,
            Some((_, it)) => it.taken(),
        }
    }

    #[verifier::type_invariant]
    spec fn inv(self) -> bool {
        self.cur_container matches Some((k, it)) ==> self.entries@.len() > 0 && k == self.entries@[0].0
            && it.all() == values_of(*self.entries@[0].1)
    }

    /// Starts at the first key of `art_map`: the values it will hand out are
    /// those of `art_map` with the smallest high half, in increasing order.
    fn new(art_map: &'a RoaringArtmap) -> (r: Iter<'a>)
        ensures
            r.taken() == 0,
            forall|i: int, j: int| 0 <= i < j < r.all().len() ==> r.all()[i] < r.all()[j],
            forall|v: u64|
                r.all().contains(v) <==> (art_map@.contains(v) && forall|w: u64|
                    art_map@.contains(w) ==> high32(v) <= high32(w)),
    {
        proof {
            use_type_invariant(art_map);
        }
        let entries = art_map.entries();
        let ghost m = art_entries(art_map.map);
        if entries.len() > 0 {
            match entries[0].1 {
                Container::Bitmap(b) => {
                    proof {
                        use_type_invariant(b);
                        b.lemma_values_sorted();
                        let c = *entries@[0].1;
                        assert(values_of(c) == b.values());
                        assert(c@ == b@);
                    }
                },
                Container::Full => {
                    proof {
                        let c = *entries@[0].1;
                        assert(values_of(c) == all_u32());
                        assert forall|x: u32| values_of(c).contains(x) <==> c@.contains(x) by {
                            assert(all_u32()[x as int] == x);
                        }
                    }
                },
            }
        }
        let r = Iter { entries, cur_container: None };
        proof {
            lemma_first_values(entries@, m);
            assert(art_map@ == entries_view(m));
            assert(r.all() == first_values(entries@));
        }
        r
    }

    /// The next value, or `None` once the first container is exhausted.
    pub fn next(&mut self) -> (r: Option<u64>)
        ensures
            final(self).all() == old(self).all(),
            r == (if old(self).taken() < old(self).all().len() {
                Some(old(self).all()[old(self).taken()])
            } else {
                None::<u64>
            }),
            final(self).taken() == (if old(self).taken() < old(self).all().len() {
                old(self).taken() + 1
            } else {
                old(self).taken()
            }),
    {
        proof {
            use_type_invariant(&*self);
        }
        let mut cur = None;
        std::mem::swap(&mut cur, &mut self.cur_container);
        let (high_key, mut cur_iter) = match cur {
            Some(value) => value,
            None => {
                if self.entries.len() == 0 {
                    return None;
                }
                let (next_key, next_container) = self.entries[0];
                (next_key, next_container.iter())
            },
        };
        let low = cur_iter.next();
        let r = match low {
            Some(low_key) => Some(assemble_key_from_parts(high_key.value(), low_key)),
            None => None,
        };
        self.cur_container = Some((high_key, cur_iter));
        r
    }
}

/// The values under the first listed key, with that key as their high half.
pub open spec fn first_values<'a>(es: Seq<Entry<'a>>) -> Seq<u64> {
    if es.len() == 0 {
        Seq::empty()
    } else {
        values_of(*es[0].1).map_values(|l: u32| compose(es[0].0.val(), l))
    }
}

/// The values under the first listed key, in increasing order, are the values
/// of the map with the smallest high half.
proof fn lemma_first_values<'a>(es: Seq<Entry<'a>>, m: Map<Seq<u8>, Container>)
    requires
        entries_ok(m),
        entries_listed(es, m),
        es.len() > 0 ==> ({
            let c = *es[0].1;
            &&& forall|i: int, j: int| 0 <= i < j < values_of(c).len() ==> values_of(c)[i] < values_of(c)[j]
            &&& forall|x: u32| values_of(c).contains(x) <==> c@.contains(x)
        }),
    ensures
        forall|i: int, j: int|
            0 <= i < j < first_values(es).len() ==> first_values(es)[i] < first_values(es)[j],
        forall|v: u64|
            #[trigger] first_values(es).contains(v) <==> (entries_view(m).contains(v) && forall|w: u64|
                entries_view(m).contains(w) ==> high32(v) <= high32(w)),
{
    if es.len() == 0 {
        assert forall|v: u64| !entries_view(m).contains(v) by {
            if entries_view(m).contains(v) {
                let i = choose|i: int| 0 <= i < es.len() && (#[trigger] es[i]).0.bytes() == be_bytes(high32(v));
            }
        }
    } else {
        let a = es[0].0.val();
        let c = *es[0].1;
        let vals = values_of(c);
        let all = first_values(es);
        assert(all == vals.map_values(|l: u32| compose(a, l)));
        assert(es[0].0.bytes() == be_bytes(a));
        assert(m[be_bytes(a)] == c);
        assert forall|i: int, j: int| 0 <= i < j < all.len() implies all[i] < all[j] by {
            lemma_assemble_then_split(a, vals[i]);
            lemma_assemble_then_split(a, vals[j]);
        }
        lemma_key_has_value(m, a);
        let l0 = choose|l: u32| #[trigger] entries_view(m).contains(compose(a, l));
        lemma_assemble_then_split(a, l0);
        assert forall|w: u64| entries_view(m).contains(w) implies a <= high32(w) by {
            let j = choose|j: int| 0 <= j < es.len() && (#[trigger] es[j]).0.bytes() == be_bytes(high32(w));
            lemma_be_bytes_injective(es[j].0.val(), high32(w));
            if j > 0 {
                assert(es[0].0.val() < es[j].0.val());
            }
        }
        assert forall|v: u64|
            all.contains(v) <==> (entries_view(m).contains(v) && forall|w: u64|
                entries_view(m).contains(w) ==> high32(v) <= high32(w)) by {
            if all.contains(v) {
                let i = choose|i: int| 0 <= i < all.len() && all[i] == v;
                lemma_assemble_then_split(a, vals[i]);
                assert(vals.contains(vals[i]));
            }
            if entries_view(m).contains(v) && forall|w: u64|
                entries_view(m).contains(w) ==> high32(v) <= high32(w) {
                assert(high32(v) <= high32(compose(a, l0)));
                assert(high32(v) == a);
                assert(c@.contains(low32(v)));
                let i = choose|i: int| 0 <= i < vals.len() && vals[i] == low32(v);
                lemma_split_then_assemble(v);
                assert(all[i] == v);
            }
        }
    }
}

impl Default for RoaringArtmap {
    fn default() -> (r: Self)
        ensures
            r@ == Set::<u64>::empty(),
    {
        Self::new()
    }
}

} // verus!
