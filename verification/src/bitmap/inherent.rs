use vstd::prelude::*;

use super::container::Container;
use vstd::std_specs::cmp::PartialEqSpecImpl;
use super::store::{Store, strictly_sorted, lemma_sorted_complete, lemma_sorted_missing, lemma_sorted_len};

verus! {

/// The high 16 bits of `v`: the key of the container that holds it.
pub open spec fn high16(v: u32) -> u16 {
    (v / 65536) as u16
}

/// The low 16 bits of `v`: what its container stores.
pub open spec fn low16(v: u32) -> u16 {
    (v % 65536) as u16
}

/// Keys increase strictly from one container to the next.
pub open spec fn keys_sorted(cs: Seq<Container>) -> bool {
    forall|i: int, j: int| 0 <= i < j < cs.len() ==> cs[i].key < cs[j].key
}

/// Sorted keys, and every store well formed and not empty.
pub open spec fn containers_wf(cs: Seq<Container>) -> bool {
    &&& keys_sorted(cs)
    &&& forall|i: int| 0 <= i < cs.len() ==> (#[trigger] cs[i]).store.wf() && cs[i].store.nonempty()
}

/// The values that a sequence of containers holds.
pub open spec fn containers_view(cs: Seq<Container>) -> Set<u32> {
    Set::new(
        |v: u32|
            exists|i: int|
                0 <= i < cs.len() && (#[trigger] cs[i]).key == high16(v) && cs[i].store@.contains(
                    low16(v),
                ),
    )
}

/// `v` is rebuilt from its two halves.
pub proof fn lemma_halves(v: u32)
    ensures
        v == high16(v) * 65536 + low16(v),
        high16(v) < 65536,
        low16(v) < 65536,
{
}

/// Finds the container with `key`, or the place where it would go.
pub fn find_key(cs: &Vec<Container>, key: u16) -> (r: Result<usize, usize>)
    requires
        keys_sorted(cs@),
    ensures
        match r {
            Ok(i) => i < cs@.len() && cs@[i as int].key == key,
            Err(i) => i <= cs@.len() && (forall|k: int| 0 <= k < i ==> cs@[k].key < key) && (
            forall|k: int| i <= k < cs@.len() ==> cs@[k].key > key),
        },
{
    let mut lo: usize = 0;
    let mut hi: usize = cs.len();
    while lo < hi
        invariant
            0 <= lo <= hi <= cs@.len(),
            keys_sorted(cs@),
            forall|k: int| 0 <= k < lo ==> cs@[k].key < key,
            forall|k: int| hi <= k < cs@.len() ==> cs@[k].key > key,
        decreases hi - lo,
    {
        let mid = lo + (hi - lo) / 2;
        if cs[mid].key == key {
            return Ok(mid);
        } else if cs[mid].key < key {
            lo = mid + 1;
        } else {
            hi = mid;
        }
    }
    Err(lo)
}

/// A compressed set of `u32` values.
#[derive(Debug)]
pub struct RoaringBitmap {
    pub(crate) containers: Vec<Container>,
}

impl View for RoaringBitmap {
    type V = Set<u32>;

    closed spec fn view(&self) -> Set<u32> {
        containers_view(self.containers@)
    }
}

impl RoaringBitmap {
    #[verifier::type_invariant]
    pub(crate) open spec fn inv(self) -> bool {
        containers_wf(self.containers@)
    }

    pub(crate) proof fn lemma_view(&self)
        ensures
            self@ == containers_view(self.containers@),
    {
    }

    /// An empty bitmap.
    pub fn new() -> (r: RoaringBitmap)
        ensures
            r@ == Set::<u32>::empty(),
    {
        let r = RoaringBitmap { containers: Vec::new() };
        assert(r@ =~= Set::<u32>::empty());
        r
    }

    /// Whether `value` is in the bitmap.
    pub fn contains(&self, value: u32) -> (r: bool)
        ensures
            r == self@.contains(value),
    {
        proof {
            use_type_invariant(self);
        }
        let hi = (value / 65536) as u16;
        let lo = (value % 65536) as u16;
        match find_key(&self.containers, hi) {
            Ok(i) => {
                let r = self.containers[i].store.contains(lo);
                proof {
                    if self@.contains(value) {
                        let j = choose|j: int|
                            0 <= j < self.containers@.len() && (#[trigger] self.containers@[j]).key
                                == high16(value) && self.containers@[j].store@.contains(low16(value));
                        assert(j == i);
                    }
                }
                r
            },
            Err(_) => false,
        }
    }

    /// Adds `value`; says whether it was absent.
    pub fn insert(&mut self, value: u32) -> (r: bool)
        ensures
            final(self)@ == old(self)@.insert(value),
            r == !old(self)@.contains(value),
    {
        proof {
            use_type_invariant(&*self);
        }
        let hi = (value / 65536) as u16;
        let lo = (value % 65536) as u16;
        let mut cs: Vec<Container> = Vec::new();
        std::mem::swap(&mut cs, &mut self.containers);
        let ghost old_cs = cs@;
        let r = match find_key(&cs, hi) {
            Ok(i) => {
                let ghost old_store = cs@[i as int].store@;
                let c = &mut cs[i];
                let r = c.store.insert(lo);
                proof {
                    assert(cs@ == old_cs.update(i as int, cs@[i as int]));
                    assert forall|v: u32|
                        containers_view(cs@).contains(v) <==> (containers_view(old_cs).contains(v)
                            || v == value) by {
                        if containers_view(cs@).contains(v) {
                            let j = choose|j: int|
                                0 <= j < cs@.len() && (#[trigger] cs@[j]).key == high16(v)
                                    && cs@[j].store@.contains(low16(v));
                            if j != i {
                                assert(old_cs[j] == cs@[j]);
                            } else if v != value {
                                assert(old_store.contains(low16(v)));
                                assert(old_cs[j].store@.contains(low16(v)));
                            }
                        }
                        if containers_view(old_cs).contains(v) {
                            let j = choose|j: int|
                                0 <= j < old_cs.len() && (#[trigger] old_cs[j]).key == high16(v)
                                    && old_cs[j].store@.contains(low16(v));
                            if j != i {
                                assert(old_cs[j] == cs@[j]);
                            }
                            assert(cs@[j].store@.contains(low16(v)));
                        }
                        if v == value {
                            assert(cs@[i as int].store@.contains(low16(v)));
                        }
                    }
                    if containers_view(old_cs).contains(value) {
                        let j = choose|j: int|
                            0 <= j < old_cs.len() && (#[trigger] old_cs[j]).key == high16(value)
                                && old_cs[j].store@.contains(low16(value));
                        assert(j == i);
                    }
                }
                r
            },
            Err(i) => {
                let mut store = Store::new();
                store.insert(lo);
                let ghost c = Container { key: hi, store };
                cs.insert(i, Container { key: hi, store });
                proof {
                    assert(cs@ == old_cs.insert(i as int, c));
                    assert forall|v: u32|
                        containers_view(cs@).contains(v) <==> (containers_view(old_cs).contains(v)
                            || v == value) by {
                        if containers_view(cs@).contains(v) {
                            let j = choose|j: int|
                                0 <= j < cs@.len() && (#[trigger] cs@[j]).key == high16(v)
                                    && cs@[j].store@.contains(low16(v));
                            if j < i {
                                assert(old_cs[j] == cs@[j]);
                            } else if j > i {
                                assert(old_cs[j - 1] == cs@[j]);
                            } else {
                                assert(low16(v) == lo);
                                lemma_halves(v);
                                lemma_halves(value);
                            }
                        }
                        if containers_view(old_cs).contains(v) {
                            let j = choose|j: int|
                                0 <= j < old_cs.len() && (#[trigger] old_cs[j]).key == high16(v)
                                    && old_cs[j].store@.contains(low16(v));
                            if j < i {
                                assert(old_cs[j] == cs@[j]);
                            } else {
                                assert(old_cs[j] == cs@[j + 1]);
                            }
                        }
                        if v == value {
                            assert(cs@[i as int].store@.contains(low16(v)));
                        }
                    }
                    if containers_view(old_cs).contains(value) {
                        let j = choose|j: int|
                            0 <= j < old_cs.len() && (#[trigger] old_cs[j]).key == high16(value)
                                && old_cs[j].store@.contains(low16(value));
                        assert(old_cs[j].key == hi);
                    }
                    assert forall|a: int, b: int| 0 <= a < b < cs@.len() implies cs@[a].key
                        < cs@[b].key by {
                        if b < i {
                        } else if b == i {
                        } else if a < i {
                        } else if a == i {
                        } else {
                            assert(old_cs[a - 1].key < old_cs[b - 1].key);
                        }
                    }
                    assert forall|a: int| 0 <= a < cs@.len() implies (#[trigger] cs@[a]).store.wf()
                        && cs@[a].store.nonempty() by {
                        if a < i {
                        } else if a > i {
                            assert(cs@[a] == old_cs[a - 1]);
                        } else {
                            c.store.lemma_nonempty();
                            assert(c.store@.contains(lo));
                        }
                    }
                }
                true
            },
        };
        self.containers = cs;
        assert(self@ =~= old(self)@.insert(value));
        r
    }

    /// Takes `value` out; says whether it was present.
    pub fn remove(&mut self, value: u32) -> (r: bool)
        ensures
            final(self)@ == old(self)@.remove(value),
            r == old(self)@.contains(value),
    {
        proof {
            use_type_invariant(&*self);
        }
        let hi = (value / 65536) as u16;
        let lo = (value % 65536) as u16;
        let mut cs: Vec<Container> = Vec::new();
        std::mem::swap(&mut cs, &mut self.containers);
        let ghost old_cs = cs@;
        let r = match find_key(&cs, hi) {
            Ok(i) => {
                let ghost old_store = cs@[i as int].store@;
                let c = &mut cs[i];
                let r = c.store.remove(lo);
                let ghost mid_cs = cs@;
                proof {
                    assert(mid_cs == old_cs.update(i as int, mid_cs[i as int]));
                    assert forall|v: u32|
                        containers_view(mid_cs).contains(v) <==> (containers_view(old_cs).contains(v)
                            && v != value) by {
                        if containers_view(mid_cs).contains(v) {
                            let j = choose|j: int|
                                0 <= j < mid_cs.len() && (#[trigger] mid_cs[j]).key == high16(v)
                                    && mid_cs[j].store@.contains(low16(v));
                            if j != i {
                                assert(old_cs[j] == mid_cs[j]);
                            } else {
                                assert(old_cs[j].store@.contains(low16(v)));
                                lemma_halves(v);
                                lemma_halves(value);
                            }
                        }
                        if containers_view(old_cs).contains(v) && v != value {
                            let j = choose|j: int|
                                0 <= j < old_cs.len() && (#[trigger] old_cs[j]).key == high16(v)
                                    && old_cs[j].store@.contains(low16(v));
                            if j != i {
                                assert(old_cs[j] == mid_cs[j]);
                            } else {
                                lemma_halves(v);
                                lemma_halves(value);
                            }
                            assert(mid_cs[j].store@.contains(low16(v)));
                        }
                    }
                    if containers_view(old_cs).contains(value) {
                        let j = choose|j: int|
                            0 <= j < old_cs.len() && (#[trigger] old_cs[j]).key == high16(value)
                                && old_cs[j].store@.contains(low16(value));
                        assert(j == i);
                    }
                }
                let empty = cs[i].store.is_empty();
                if empty {
                    cs.remove(i);
                    proof {
                        assert(cs@ == mid_cs.remove(i as int));
                        assert forall|v: u32|
                            containers_view(cs@).contains(v) <==> containers_view(mid_cs).contains(
                                v,
                            ) by {
                            if containers_view(cs@).contains(v) {
                                let j = choose|j: int|
                                    0 <= j < cs@.len() && (#[trigger] cs@[j]).key == high16(v)
                                        && cs@[j].store@.contains(low16(v));
                                if j < i {
                                    assert(mid_cs[j] == cs@[j]);
                                } else {
                                    assert(mid_cs[j + 1] == cs@[j]);
                                }
                            }
                            if containers_view(mid_cs).contains(v) {
                                let j = choose|j: int|
                                    0 <= j < mid_cs.len() && (#[trigger] mid_cs[j]).key == high16(v)
                                        && mid_cs[j].store@.contains(low16(v));
                                if j < i {
                                    assert(mid_cs[j] == cs@[j]);
                                } else if j > i {
                                    assert(mid_cs[j] == cs@[j - 1]);
                                }
                            }
                        }
                        assert forall|a: int, b: int| 0 <= a < b < cs@.len() implies cs@[a].key
                            < cs@[b].key by {
                            if b < i {
                            } else if a < i {
                                assert(mid_cs[a].key < mid_cs[b + 1].key);
                            } else {
                                assert(mid_cs[a + 1].key < mid_cs[b + 1].key);
                            }
                        }
                        assert forall|a: int| 0 <= a < cs@.len() implies (#[trigger] cs@[a]).store.wf()
                            && cs@[a].store.nonempty() by {
                            if a >= i {
                                assert(cs@[a] == mid_cs[a + 1]);
                            }
                        }
                    }
                } else {
                    proof {
                        let st = cs@[i as int].store;
                        st.lemma_nonempty();
                        if !(exists|x: u16| st@.contains(x)) {
                            assert(st@ =~= Set::<u16>::empty());
                        }
                        assert forall|a: int, b: int| 0 <= a < b < cs@.len() implies cs@[a].key
                            < cs@[b].key by {
                            assert(old_cs[a].key < old_cs[b].key);
                        }
                        assert forall|a: int| 0 <= a < cs@.len() implies (#[trigger] cs@[a]).store.wf()
                            && cs@[a].store.nonempty() by {
                            if a != i {
                                assert(cs@[a] == old_cs[a]);
                            }
                        }
                    }
                }
                r
            },
            Err(i) => {
                proof {
                    if containers_view(old_cs).contains(value) {
                        let j = choose|j: int|
                            0 <= j < old_cs.len() && (#[trigger] old_cs[j]).key == high16(value)
                                && old_cs[j].store@.contains(low16(value));
                        assert(old_cs[j].key == hi);
                    }
                    assert(containers_view(old_cs).remove(value) =~= containers_view(old_cs));
                }
                false
            },
        };
        self.containers = cs;
        assert(self@ =~= old(self)@.remove(value));
        r
    }

    /// Whether the bitmap holds no value.
    pub fn is_empty(&self) -> (r: bool)
        ensures
            r == (self@ == Set::<u32>::empty()),
    {
        proof {
            use_type_invariant(self);
        }
        if self.containers.len() == 0 {
            assert(self@ =~= Set::<u32>::empty());
            true
        } else {
            proof {
                let c = self.containers@[0];
                c.store.lemma_nonempty();
                let x = choose|x: u16| c.store@.contains(x);
                let v = (c.key * 65536 + x) as u32;
                assert(high16(v) == c.key && low16(v) == x);
                assert(self@.contains(v));
                assert(!Set::<u32>::empty().contains(v));
            }
            false
        }
    }

    /// The bitmap that holds every `u32`.
    pub fn full() -> (r: RoaringBitmap)
        ensures
            r@ == Set::<u32>::full(),
    {
        let mut cs: Vec<Container> = Vec::new();
        let mut k: u32 = 0;
        while k < 65536
            invariant
                k <= 65536,
                cs@.len() == k,
                forall|j: int| 0 <= j < k ==> (#[trigger] cs@[j]).key == j && cs@[j].store is Full,
            decreases 65536 - k,
        {
            cs.push(Container { key: k as u16, store: Store::Full });
            k = k + 1;
        }
        let r = RoaringBitmap { containers: cs };
        proof {
            assert forall|v: u32| r@.contains(v) by {
                let j = high16(v) as int;
                assert(cs@[j].key == high16(v));
                assert(cs@[j].store@.contains(low16(v)));
            }
            assert(r@ =~= Set::<u32>::full());
        }
        r
    }

    /// Whether the bitmap holds every `u32`.
    pub fn is_full(&self) -> (r: bool)
        ensures
            r == (self@ == Set::<u32>::full()),
    {
        proof {
            use_type_invariant(self);
        }
        let ghost cs = self.containers@;
        let ghost keys = cs.map_values(|c: Container| c.key);
        if self.containers.len() < 65536 {
            proof {
                assert(strictly_sorted(keys));
                lemma_sorted_missing(keys);
                let k = choose|k: u16| !keys.contains(k);
                let v = (k * 65536) as u32;
                assert(high16(v) == k && low16(v) == 0);
                if self@.contains(v) {
                    let j = choose|j: int|
                        0 <= j < cs.len() && (#[trigger] cs[j]).key == high16(v)
                            && cs[j].store@.contains(low16(v));
                    assert(keys[j] == k);
                }
            }
            return false;
        }
        let mut i: usize = 0;
        while i < self.containers.len()
            invariant
                i <= cs.len(),
                cs == self.containers@,
                containers_wf(cs),
                cs.len() >= 65536,
                keys == cs.map_values(|c: Container| c.key),
                forall|j: int| 0 <= j < i ==> (#[trigger] cs[j]).store is Full,
            decreases cs.len() - i,
        {
            if !self.containers[i].store.is_full() {
                proof {
                    let c = cs[i as int];
                    assert(c.store@ != Set::<u16>::full());
                    if forall|x: u16| c.store@.contains(x) {
                        assert(c.store@ =~= Set::<u16>::full());
                    }
                    let x = choose|x: u16| !c.store@.contains(x);
                    let v = (c.key * 65536 + x) as u32;
                    assert(high16(v) == c.key && low16(v) == x);
                    if self@.contains(v) {
                        let j = choose|j: int|
                            0 <= j < cs.len() && (#[trigger] cs[j]).key == high16(v)
                                && cs[j].store@.contains(low16(v));
                        assert(keys[j] == c.key);
                        assert(keys[i as int] == c.key);
                        assert(strictly_sorted(keys));
                        assert(j == i);
                    }
                }
                return false;
            }
            i = i + 1;
        }
        proof {
            assert(strictly_sorted(keys));
            lemma_sorted_len(keys);
            lemma_sorted_complete(keys);
            assert forall|v: u32| self@.contains(v) by {
                assert(keys.contains(high16(v)));
                let j = choose|j: int| 0 <= j < keys.len() && keys[j] == high16(v);
                assert(cs[j].key == high16(v));
                assert(cs[j].store@.contains(low16(v)));
            }
            assert(self@ =~= Set::<u32>::full());
        }
        true
    }
}

impl Clone for RoaringBitmap {
    fn clone(&self) -> (r: Self)
        ensures
            r@ == self@,
    {
        proof {
            use_type_invariant(self);
        }
        let mut cs: Vec<Container> = Vec::new();
        let mut i: usize = 0;
        while i < self.containers.len()
            invariant
                i <= self.containers@.len(),
                containers_wf(self.containers@),
                cs@.len() == i,
                forall|j: int| 0 <= j < i ==> (#[trigger] cs@[j]).key == self.containers@[j].key
                    && cs@[j].store.same_as(&self.containers@[j].store),
            decreases self.containers@.len() - i,
        {
            cs.push(self.containers[i].clone());
            i = i + 1;
        }
        let r = RoaringBitmap { containers: cs };
        proof {
            assert forall|j: int| 0 <= j < cs@.len() implies (#[trigger] cs@[j]).store@ == self.containers@[j].store@
                && cs@[j].store.wf() && cs@[j].store.nonempty() by {
                let a = cs@[j].store;
                let b = self.containers@[j].store;
                match (a, b) {
                    (Store::Array(x), Store::Array(y)) => {
                        assert(a@ =~= b@);
                    },
                    _ => {},
                }
            }
            let a = cs@;
            let b = self.containers@;
            assert forall|v: u32| containers_view(a).contains(v) <==> containers_view(b).contains(v) by {
                if containers_view(a).contains(v) {
                    let j = choose|j: int|
                        0 <= j < a.len() && (#[trigger] a[j]).key == high16(v) && a[j].store@.contains(
                            low16(v),
                        );
                    assert(b[j].key == high16(v) && b[j].store@.contains(low16(v)));
                }
                if containers_view(b).contains(v) {
                    let j = choose|j: int|
                        0 <= j < b.len() && (#[trigger] b[j]).key == high16(v) && b[j].store@.contains(
                            low16(v),
                        );
                    assert(a[j].key == high16(v) && a[j].store@.contains(low16(v)));
                }
            }
            assert(r@ =~= self@);
        }
        r
    }
}

impl PartialEq for RoaringBitmap {
    fn eq(&self, other: &Self) -> (r: bool) {
        let r = self.is_subset(other) && other.is_subset(self);
        proof {
            if r {
                assert(self@ =~= other@);
            }
        }
        r
    }
}

impl PartialEqSpecImpl for RoaringBitmap {
    open spec fn obeys_eq_spec() -> bool {
        true
    }

    open spec fn eq_spec(&self, other: &RoaringBitmap) -> bool {
        self@ == other@
    }
}

impl Eq for RoaringBitmap {

}

} // verus!
