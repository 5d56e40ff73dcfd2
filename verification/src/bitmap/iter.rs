use vstd::prelude::*;

use super::container::Container;
use super::inherent::{RoaringBitmap, containers_view, containers_wf, keys_sorted, high16, low16};
use super::store::Store;

verus! {

/// The low halves a store holds, in increasing order.
pub open spec fn store_seq(s: Store) -> Seq<u16> {
    match s {
        Store::Array(v) => v@,
        Store::Full => Seq::new(65536, |i: int| i as u16),
    }
}

/// The values a container holds, in increasing order.
pub open spec fn container_seq(c: Container) -> Seq<u32> {
    store_seq(c.store).map_values(|x: u16| (c.key * 65536 + x) as u32)
}

/// The values of a sequence of containers, container after container.
pub open spec fn flat(cs: Seq<Container>) -> Seq<u32>
    decreases cs.len(),
{
    if cs.len() == 0 {
        Seq::empty()
    } else {
        flat(cs.drop_last()) + container_seq(cs.last())
    }
}

/// Flattening is compatible with concatenation.
pub proof fn lemma_flat_concat(a: Seq<Container>, b: Seq<Container>)
    ensures
        flat(a + b) == flat(a) + flat(b),
    decreases b.len(),
{
    if b.len() == 0 {
        assert(a + b =~= a);
        assert(flat(a) + flat(b) =~= flat(a));
    } else {
        lemma_flat_concat(a, b.drop_last());
        assert((a + b).drop_last() =~= a + b.drop_last());
        assert((a + b).last() == b.last());
        assert(flat(a + b) =~= flat(a) + flat(b));
    }
}

proof fn lemma_container_seq(c: Container)
    requires
        c.store.wf(),
    ensures
        forall|i: int, j: int|
            0 <= i < j < container_seq(c).len() ==> container_seq(c)[i] < container_seq(c)[j],
        forall|i: int|
            0 <= i < container_seq(c).len() ==> high16(#[trigger] container_seq(c)[i]) == c.key,
        forall|v: u32|
            container_seq(c).contains(v) <==> (high16(v) == c.key && c.store@.contains(low16(v))),
{
    let s = store_seq(c.store);
    let t = container_seq(c);
    assert forall|i: int| 0 <= i < s.len() implies (#[trigger] s[i]) as int == s[i] && (c.store@.contains(
        s[i],
    )) by {
        match c.store {
            Store::Array(v) => {
                assert(v@.contains(s[i]));
            },
            Store::Full => {},
        }
    }
    assert forall|i: int, j: int| 0 <= i < j < t.len() implies t[i] < t[j] by {
        match c.store {
            Store::Array(v) => {
                assert(s[i] < s[j]);
            },
            Store::Full => {},
        }
    }
    assert forall|v: u32| t.contains(v) <==> (high16(v) == c.key && c.store@.contains(low16(v))) by {
        if t.contains(v) {
            let i = choose|i: int| 0 <= i < t.len() && t[i] == v;
            assert(t[i] == (c.key * 65536 + s[i]) as u32);
        }
        if high16(v) == c.key && c.store@.contains(low16(v)) {
            let i: int = match c.store {
                Store::Array(w) => choose|i: int| 0 <= i < w@.len() && w@[i] == low16(v),
                Store::Full => low16(v) as int,
            };
            assert(t[i] == v);
        }
    }
}

/// The values of well-formed containers come out in increasing order, and
/// they are exactly the values the containers hold.
pub proof fn lemma_flat_sorted(cs: Seq<Container>)
    requires
        keys_sorted(cs),
        forall|i: int| 0 <= i < cs.len() ==> (#[trigger] cs[i]).store.wf(),
    ensures
        forall|i: int, j: int| 0 <= i < j < flat(cs).len() ==> flat(cs)[i] < flat(cs)[j],
        forall|i: int|
            0 <= i < flat(cs).len() ==> cs.len() > 0 && high16(#[trigger] flat(cs)[i]) <= cs.last().key,
        forall|v: u32| flat(cs).contains(v) <==> containers_view(cs).contains(v),
    decreases cs.len(),
{
    if cs.len() > 0 {
        let init = cs.drop_last();
        let c = cs.last();
        assert forall|a: int, b: int| 0 <= a < b < init.len() implies init[a].key < init[b].key by {
            assert(init[a] == cs[a] && init[b] == cs[b]);
        }
        assert forall|i: int| 0 <= i < init.len() implies (#[trigger] init[i]).store.wf() by {
            assert(init[i] == cs[i]);
        }
        lemma_flat_sorted(init);
        lemma_container_seq(c);
        let f = flat(init);
        let t = container_seq(c);
        assert(flat(cs) == f + t);
        assert forall|i: int, j: int| 0 <= i < j < flat(cs).len() implies flat(cs)[i] < flat(cs)[j] by {
            if j >= f.len() && i < f.len() {
                assert(high16(f[i]) <= init.last().key);
                assert(init.last().key < c.key);
                assert(high16(t[j - f.len()]) == c.key);
            }
        }
        assert forall|i: int| 0 <= i < flat(cs).len() implies high16(#[trigger] flat(cs)[i]) <= cs.last().key by {
            if i < f.len() {
                assert(high16(f[i]) <= init.last().key);
                assert(init.last().key < c.key);
            } else {
                assert(flat(cs)[i] == t[i - f.len()]);
            }
        }
        assert forall|v: u32| flat(cs).contains(v) <==> containers_view(cs).contains(v) by {
            if flat(cs).contains(v) {
                let i = choose|i: int| 0 <= i < flat(cs).len() && flat(cs)[i] == v;
                if i < f.len() {
                    assert(f.contains(v));
                    let k = choose|k: int|
                        0 <= k < init.len() && (#[trigger] init[k]).key == high16(v) && init[k].store@.contains(
                            low16(v),
                        );
                    assert(cs[k] == init[k]);
                } else {
                    assert(t.contains(v));
                    assert(cs[cs.len() - 1] == c);
                }
            }
            if containers_view(cs).contains(v) {
                let k = choose|k: int|
                    0 <= k < cs.len() && (#[trigger] cs[k]).key == high16(v) && cs[k].store@.contains(
                        low16(v),
                    );
                if k < cs.len() - 1 {
                    assert(init[k] == cs[k]);
                    assert(containers_view(init).contains(v));
                    let i = choose|i: int| 0 <= i < f.len() && f[i] == v;
                    assert(flat(cs)[i] == v);
                } else {
                    assert(t.contains(v));
                    let i = choose|i: int| 0 <= i < t.len() && t[i] == v;
                    assert(flat(cs)[f.len() + i] == v);
                }
            }
        }
    }
}

impl RoaringBitmap {
    /// The values of the bitmap in increasing order.
    pub closed spec fn values(&self) -> Seq<u32> {
        flat(self.containers@)
    }

    /// The values come in increasing order, and they are those of the bitmap.
    pub(crate) proof fn lemma_values_sorted(&self)
        requires
            containers_wf(self.containers@),
        ensures
            forall|i: int, j: int| 0 <= i < j < self.values().len() ==> self.values()[i] < self.values()[j],
            forall|v: u32| self.values().contains(v) <==> self@.contains(v),
    {
        self.lemma_view();
        lemma_flat_sorted(self.containers@);
    }

    /// An iterator over the values, in increasing order.
    pub fn iter(&self) -> (r: Iter<'_>)
        ensures
            r.all() == self.values(),
            forall|i: int, j: int| 0 <= i < j < r.all().len() ==> r.all()[i] < r.all()[j],
            forall|v: u32| r.all().contains(v) <==> self@.contains(v),
            r.taken() == 0,
    {
        proof {
            use_type_invariant(self);
            self.lemma_view();
            lemma_flat_sorted(self.containers@);
        }
        let r = Iter { containers: self.containers.as_slice(), index: 0, position: 0 };
        assert(self.containers@.take(0) =~= Seq::<Container>::empty());
        r
    }
}

/// Hands out the values of a bitmap in increasing order.
pub struct Iter<'a> {
    containers: &'a [Container],
    index: usize,
    position: usize,
}

impl<'a> Iter<'a> {
    /// Every value the iterator hands out, from the first on.
    pub closed spec fn all(&self) -> Seq<u32> {
        flat(self.containers@)
    }

    /// How many values the iterator has handed out.
    pub closed spec fn taken(&self) -> int {
        flat(self.containers@.take(self.index as int)).len() + self.position
    }

    #[verifier::type_invariant]
    spec fn inv(self) -> bool {
        &&& self.index <= self.containers@.len()
        &&& self.index < self.containers@.len() ==> self.position <= store_seq(
            self.containers@[self.index as int].store,
        ).len()
        &&& self.index == self.containers@.len() ==> self.position == 0
    }

    /// The next value, or `None` once all are out.
    pub fn next(&mut self) -> (r: Option<u32>)
        ensures
            final(self).all() == old(self).all(),
            0 <= old(self).taken() <= old(self).all().len(),
            r == (if old(self).taken() < old(self).all().len() {
                Some(old(self).all()[old(self).taken()])
            } else {
                None::<u32>
            }),
            final(self).taken() == (if old(self).taken() < old(self).all().len() {
                old(self).taken() + 1
            } else {
                old(self).taken()
            }),
    {
        proof {
            use_type_invariant(&*self);
        }
        let ghost cs = self.containers@;
        let ghost start = flat(cs.take(self.index as int)).len() + self.position;
        assert(start == old(self).taken());
        loop
            invariant
                cs == self.containers@,
                cs == old(self).containers@,
                start == old(self).taken(),
                self.index <= cs.len(),
                self.index < cs.len() ==> self.position <= store_seq(cs[self.index as int].store).len(),
                self.index == cs.len() ==> self.position == 0,
                flat(cs.take(self.index as int)).len() + self.position == start,
            decreases cs.len() - self.index,
        {
            let ghost i = self.index as int;
            proof {
                lemma_flat_concat(cs.take(i), cs.skip(i));
                assert(cs.take(i) + cs.skip(i) =~= cs);
                if i < cs.len() {
                    lemma_flat_concat(cs.take(i), seq![cs[i]]);
                    assert(cs.take(i + 1) =~= cs.take(i) + seq![cs[i]]);
                    assert(seq![cs[i]].drop_last() =~= Seq::<Container>::empty());
                    assert(flat(seq![cs[i]].drop_last()) =~= Seq::<u32>::empty());
                    assert(seq![cs[i]].last() == cs[i]);
                    assert(flat(seq![cs[i]]) =~= container_seq(cs[i]));
                    lemma_flat_concat(cs.take(i + 1), cs.skip(i + 1));
                    assert(cs.take(i + 1) + cs.skip(i + 1) =~= cs);
                } else {
                    assert(cs.skip(i) =~= Seq::<Container>::empty());
                    assert(flat(cs.skip(i)) =~= Seq::<u32>::empty());
                }
            }
            if self.index >= self.containers.len() {
                return None;
            }
            let c = &self.containers[self.index];
            let len = match &c.store {
                Store::Array(v) => v.len(),
                Store::Full => 65536,
            };
            if self.position < len {
                let low: u16 = match &c.store {
                    Store::Array(v) => v[self.position],
                    Store::Full => self.position as u16,
                };
                let value = (c.key as u32) * 65536 + (low as u32);
                self.position = self.position + 1;
                proof {
                    assert(container_seq(cs[i])[self.position - 1] == value);
                }
                return Some(value);
            }
            self.position = 0;
            self.index = self.index + 1;
        }
    }
}

} // verus!
