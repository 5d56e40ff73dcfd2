use vstd::prelude::*;

use crate::bitmap::RoaringBitmap;
use crate::bitmap::iter::Iter as BitmapIter;
use vstd::std_specs::cmp::PartialEqSpecImpl;

verus! {

/// The low halves of the values under one key of the tree.
#[derive(Debug, Clone)]
pub enum Container {
    /// Every `u32`.
    Full,
    /// The values of the bitmap.
    Bitmap(RoaringBitmap),
}

impl View for Container {
    type V = Set<u32>;

    open spec fn view(&self) -> Set<u32> {
        match self {
            Container::Full => Set::full(),
            Container::Bitmap(b) => b@,
        }
    }
}

impl PartialEq for Container {
    fn eq(&self, other: &Self) -> (r: bool) {
        match (self, other) {
            (Container::Full, Container::Full) => true,
            (Container::Full, Container::Bitmap(other)) => other.is_full(),
            (Container::Bitmap(this), Container::Full) => this.is_full(),
            (Container::Bitmap(this), Container::Bitmap(other)) => this.eq(other),
        }
    }
}

impl PartialEqSpecImpl for Container {
    open spec fn obeys_eq_spec() -> bool {
        true
    }

    open spec fn eq_spec(&self, other: &Container) -> bool {
        self@ == other@
    }
}

impl Eq for Container {

}

/// `u32::overflowing_add`: `x + y` wrapped to 32 bits, and whether the sum
/// overflowed, as its documentation says.
#[verifier::external_body]
fn u32_overflowing_add(x: u32, y: u32) -> (r: (u32, bool))
    ensures
        r.0 == (x + y) % 0x1_0000_0000,
        r.1 == (x + y > u32::MAX),
{
    x.overflowing_add(y)
}

/// Every `u32`, in increasing order.
pub open spec fn all_u32() -> Seq<u32> {
    Seq::new(0x1_0000_0000, |i: int| i as u32)
}

/// The values of a container, in increasing order.
pub open spec fn values_of(c: Container) -> Seq<u32> {
    match c {
        Container::Full => all_u32(),
        Container::Bitmap(b) => b.values(),
    }
}

/// What `n` successive calls of `next` hand out on a walk over `all` that has
/// handed out `taken` values so far.
pub open spec fn walk(all: Seq<u32>, taken: int, n: nat) -> Seq<Option<u32>>
    decreases n,
{
    if n == 0 {
        Seq::empty()
    } else if 0 <= taken < all.len() {
        seq![Some(all[taken])] + walk(all, taken + 1, (n - 1) as nat)
    } else {
        seq![None::<u32>] + walk(all, taken, (n - 1) as nat)
    }
}

/// From any point on, a walk hands out the values that are left, in order,
/// and then `None` at every call.
pub proof fn lemma_walk(all: Seq<u32>, taken: int, n: nat)
    requires
        0 <= taken <= all.len(),
    ensures
        walk(all, taken, n).len() == n,
        forall|i: int|
            0 <= i < n ==> #[trigger] walk(all, taken, n)[i] == (if taken + i < all.len() {
                Some(all[taken + i])
            } else {
                None::<u32>
            }),
    decreases n,
{
    if n > 0 {
        if taken < all.len() {
            lemma_walk(all, taken + 1, (n - 1) as nat);
            let w = walk(all, taken, n);
            assert forall|i: int| 0 <= i < n implies #[trigger] w[i] == (if taken + i < all.len() {
                Some(all[taken + i])
            } else {
                None::<u32>
            }) by {
                if i > 0 {
                    assert(w[i] == walk(all, taken + 1, (n - 1) as nat)[i - 1]);
                }
            }
        } else {
            lemma_walk(all, taken, (n - 1) as nat);
            let w = walk(all, taken, n);
            assert forall|i: int| 0 <= i < n implies #[trigger] w[i] == None::<u32> by {
                if i > 0 {
                    assert(w[i] == walk(all, taken, (n - 1) as nat)[i - 1]);
                }
            }
        }
    }
}

/// The walk over a full container runs through every `u32`, from 0 up.
pub proof fn lemma_full_walk()
    ensures
        values_of(Container::Full) == all_u32(),
        all_u32().len() == 0x1_0000_0000,
        forall|i: int| 0 <= i < 0x1_0000_0000 ==> #[trigger] all_u32()[i] == i,
{
}

impl Container {
    /// The values of the container, in increasing order.
    pub fn iter(&self) -> (r: Iter<'_>)
        ensures
            r.all() == values_of(*self),
            forall|i: int, j: int| 0 <= i < j < r.all().len() ==> r.all()[i] < r.all()[j],
            forall|v: u32| r.all().contains(v) <==> self@.contains(v),
            r.taken() == 0,
    {
        Iter::new(self)
    }
}

/// Hands out the values of a container in increasing order.
pub enum Iter<'a> {
    Full { cur: u32, ended: bool },
    Bitmap(BitmapIter<'a>),
}

impl<'a> Iter<'a> {
    /// Every value the iterator hands out, from the first on.
    pub open spec fn all(&self) -> Seq<u32> {
        match self {
            Iter::Full { .. } => all_u32(),
            Iter::Bitmap(it) => it.all(),
        }
    }

    /// How many values the iterator has handed out.
    pub open spec fn taken(&self) -> int {
        match self {
            Iter::Full { cur, ended } => if *ended {
                0x1_0000_0000
            } else {
                *cur as int
            },
            Iter::Bitmap(it) => it.taken(),
        }
    }

    fn new(container: &'a Container) -> (r: Iter<'a>)
        ensures
            r.all() == values_of(*container),
            forall|i: int, j: int| 0 <= i < j < r.all().len() ==> r.all()[i] < r.all()[j],
            forall|v: u32| r.all().contains(v) <==> container@.contains(v),
            r.taken() == 0,
    {
        match container {
            Container::Full => {
                assert forall|v: u32| all_u32().contains(v) by {
                    assert(all_u32()[v as int] == v);
                }
                Iter::Full { cur: 0, ended: false }
            },
            Container::Bitmap(bitmap) => Iter::Bitmap(bitmap.iter()),
        }
    }

    /// The next value, or `None` once all are out.
    pub fn next(&mut self) -> (r: Option<u32>)
        ensures
            final(self).all() == old(self).all(),
            0 <= old(self).taken() <= old(self).all().len(),
            r == (if old(self).taken() < old(self).all().len() {
                Some(old(self).all()[old(self).taken()])
            } else {
                None::<u32>
            }),
            final(self).taken() == (if old(self).taken() < old(self).all().len() {
                old(self).taken() + 1
            } else {
                old(self).taken()
            }),
            forall|n: nat|
                #[trigger] walk(old(self).all(), old(self).taken(), n + 1) == seq![r] + walk(
                    final(self).all(),
                    final(self).taken(),
                    n,
                ),
    {
        match self {
            Iter::Full { cur, ended } => {
                if *ended {
                    return None;
                }
                let res = u32_overflowing_add(*cur, 1);
                *ended = res.1;
                let ret = *cur;
                *cur = res.0;
                Some(ret)
            },
            Iter::Bitmap(iter) => iter.next(),
        }
    }
}

} // verus!
