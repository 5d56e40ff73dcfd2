use vstd::prelude::*;

use super::container::Container;
use super::inherent::{RoaringBitmap, containers_view, containers_wf, keys_sorted, high16, low16};

verus! {

/// A pair handed out by [`Pairs`]: a container from the left, from the right, or both.
pub type ContainerPair<'a> = (Option<&'a Container>, Option<&'a Container>);

/// The container behind an optional reference.
pub open spec fn own<'a>(c: Option<&'a Container>) -> Option<Container> {
    match c {
        Some(c) => Some(*c),
        None => None,
    }
}

/// The pairs, with the containers themselves in place of references.
pub open spec fn own_pairs<'a>(s: Seq<ContainerPair<'a>>) -> Seq<(Option<Container>, Option<Container>)> {
    s.map_values(|p: ContainerPair<'a>| (own(p.0), own(p.1)))
}

/// The pairs that walking two container sequences side by side yields: the
/// container with the smaller key first, or both together when the keys match.
pub open spec fn pairs_of(l: Seq<Container>, r: Seq<Container>) -> Seq<(Option<Container>, Option<Container>)>
    decreases l.len() + r.len(),
{
    if l.len() == 0 && r.len() == 0 {
        Seq::empty()
    } else if r.len() == 0 || (l.len() > 0 && l[0].key < r[0].key) {
        seq![(Some(l[0]), None::<Container>)] + pairs_of(l.drop_first(), r)
    } else if l.len() == 0 || r[0].key < l[0].key {
        seq![(None::<Container>, Some(r[0]))] + pairs_of(l, r.drop_first())
    } else {
        seq![(Some(l[0]), Some(r[0]))] + pairs_of(l.drop_first(), r.drop_first())
    }
}

/// Every key of `a` and `b` is smaller than every key of `c` and `d`.
pub open spec fn keys_before(a: Seq<Container>, b: Seq<Container>, c: Seq<Container>, d: Seq<Container>) -> bool {
    &&& forall|i: int, j: int| 0 <= i < a.len() && 0 <= j < c.len() ==> a[i].key < c[j].key
    &&& forall|i: int, j: int| 0 <= i < a.len() && 0 <= j < d.len() ==> a[i].key < d[j].key
    &&& forall|i: int, j: int| 0 <= i < b.len() && 0 <= j < c.len() ==> b[i].key < c[j].key
    &&& forall|i: int, j: int| 0 <= i < b.len() && 0 <= j < d.len() ==> b[i].key < d[j].key
}

/// Walking two sequences cut at the same key boundary yields the pairs of the
/// parts before the cut, then those of the parts after it: what splitting a
/// parallel walk relies on.
pub proof fn lemma_pairs_split(l1: Seq<Container>, r1: Seq<Container>, l2: Seq<Container>, r2: Seq<Container>)
    requires
        keys_before(l1, r1, l2, r2),
    ensures
        pairs_of(l1 + l2, r1 + r2) == pairs_of(l1, r1) + pairs_of(l2, r2),
    decreases l1.len() + r1.len(),
{
    let l = l1 + l2;
    let r = r1 + r2;
    if l1.len() == 0 && r1.len() == 0 {
        assert(l =~= l2);
        assert(r =~= r2);
        assert(pairs_of(l1, r1) + pairs_of(l2, r2) =~= pairs_of(l2, r2));
    } else if l1.len() > 0 && (r1.len() == 0 || l1[0].key < r1[0].key) {
        assert(l[0] == l1[0]);
        if r1.len() == 0 && r2.len() > 0 {
            assert(l1[0].key < r2[0].key);
        }
        assert(l.drop_first() =~= l1.drop_first() + l2);
        lemma_pairs_split(l1.drop_first(), r1, l2, r2);
        assert(pairs_of(l, r) =~= seq![(Some(l1[0]), None::<Container>)] + pairs_of(l.drop_first(), r));
        assert(pairs_of(l1, r1) =~= seq![(Some(l1[0]), None::<Container>)] + pairs_of(l1.drop_first(), r1));
    } else if r1.len() > 0 && (l1.len() == 0 || r1[0].key < l1[0].key) {
        assert(r[0] == r1[0]);
        if l1.len() == 0 && l2.len() > 0 {
            assert(r1[0].key < l2[0].key);
        }
        assert(r.drop_first() =~= r1.drop_first() + r2);
        lemma_pairs_split(l1, r1.drop_first(), l2, r2);
        assert(pairs_of(l, r) =~= seq![(None::<Container>, Some(r1[0]))] + pairs_of(l, r.drop_first()));
        assert(pairs_of(l1, r1) =~= seq![(None::<Container>, Some(r1[0]))] + pairs_of(l1, r1.drop_first()));
    } else {
        assert(l[0] == l1[0]);
        assert(r[0] == r1[0]);
        assert(l.drop_first() =~= l1.drop_first() + l2);
        assert(r.drop_first() =~= r1.drop_first() + r2);
        lemma_pairs_split(l1.drop_first(), r1.drop_first(), l2, r2);
        assert(pairs_of(l, r) =~= seq![(Some(l1[0]), Some(r1[0]))] + pairs_of(l.drop_first(), r.drop_first()));
        assert(pairs_of(l1, r1) =~= seq![(Some(l1[0]), Some(r1[0]))] + pairs_of(l1.drop_first(), r1.drop_first()));
    }
}

/// The key a pair stands for: that of whichever container it holds.
pub open spec fn pair_key(p: (Option<Container>, Option<Container>)) -> u16 {
    match p.0 {
        Some(c) => c.key,
        None => match p.1 {
            Some(c) => c.key,
            None => 0,
        },
    }
}

/// A walk over two sequences has at least as many pairs as the longer one has
/// containers, and at most as many as both have together.
pub proof fn lemma_pairs_of_len(l: Seq<Container>, r: Seq<Container>)
    ensures
        l.len() <= pairs_of(l, r).len() <= l.len() + r.len(),
        r.len() <= pairs_of(l, r).len(),
    decreases l.len() + r.len(),
{
    if l.len() == 0 && r.len() == 0 {
    } else if r.len() == 0 || (l.len() > 0 && l[0].key < r[0].key) {
        lemma_pairs_of_len(l.drop_first(), r);
    } else if l.len() == 0 || r[0].key < l[0].key {
        lemma_pairs_of_len(l, r.drop_first());
    } else {
        lemma_pairs_of_len(l.drop_first(), r.drop_first());
    }
}

proof fn lemma_drop_first_sorted(s: Seq<Container>)
    requires
        keys_sorted(s),
        s.len() > 0,
    ensures
        keys_sorted(s.drop_first()),
        forall|k: int| 0 <= k < s.drop_first().len() ==> s[0].key < (#[trigger] s.drop_first()[k]).key,
{
    let t = s.drop_first();
    assert forall|a: int, b: int| 0 <= a < b < t.len() implies t[a].key < t[b].key by {
        assert(t[a] == s[a + 1] && t[b] == s[b + 1]);
    }
    assert forall|k: int| 0 <= k < t.len() implies s[0].key < (#[trigger] t[k]).key by {
        assert(t[k] == s[k + 1]);
    }
}

/// Walking two sequences with increasing keys hands out each key of either
/// once, in increasing order: with both containers when both sides have it,
/// with the one that has it otherwise. Every container comes out.
#[verifier::rlimit(100)]
#[verifier::spinoff_prover]
pub proof fn lemma_pairs_of_merge(l: Seq<Container>, r: Seq<Container>)
    requires
        keys_sorted(l),
        keys_sorted(r),
    ensures
        forall|i: int|
            0 <= i < pairs_of(l, r).len() ==> (#[trigger] pairs_of(l, r)[i]).0 is Some || pairs_of(
                l,
                r,
            )[i].1 is Some,
        forall|i: int, j: int|
            0 <= i < j < pairs_of(l, r).len() ==> pair_key(#[trigger] pairs_of(l, r)[i]) < pair_key(
                #[trigger] pairs_of(l, r)[j],
            ),
        forall|i: int|
            0 <= i < pairs_of(l, r).len() ==> ((#[trigger] pairs_of(l, r)[i]).0 matches Some(c) ==> l.contains(c)
                && c.key == pair_key(pairs_of(l, r)[i])),
        forall|i: int|
            0 <= i < pairs_of(l, r).len() ==> ((#[trigger] pairs_of(l, r)[i]).1 matches Some(c) ==> r.contains(c)
                && c.key == pair_key(pairs_of(l, r)[i])),
        forall|i: int, k: int|
            0 <= i < pairs_of(l, r).len() && 0 <= k < l.len() && (#[trigger] pairs_of(l, r)[i]).0 is None
                ==> (#[trigger] l[k]).key != pair_key(pairs_of(l, r)[i]),
        forall|i: int, k: int|
            0 <= i < pairs_of(l, r).len() && 0 <= k < r.len() && (#[trigger] pairs_of(l, r)[i]).1 is None
                ==> (#[trigger] r[k]).key != pair_key(pairs_of(l, r)[i]),
        forall|k: int|
            0 <= k < l.len() ==> exists|i: int|
                0 <= i < pairs_of(l, r).len() && (#[trigger] pairs_of(l, r)[i]).0 == Some(#[trigger] l[k]),
        forall|k: int|
            0 <= k < r.len() ==> exists|i: int|
                0 <= i < pairs_of(l, r).len() && (#[trigger] pairs_of(l, r)[i]).1 == Some(#[trigger] r[k]),
    decreases l.len() + r.len(),
{
    let s = pairs_of(l, r);
    if l.len() == 0 && r.len() == 0 {
        return;
    }
    let takes_left = r.len() == 0 || (l.len() > 0 && l[0].key <= r[0].key);
    let takes_right = l.len() == 0 || (r.len() > 0 && r[0].key <= l[0].key);
    let l2 = if takes_left {
        l.drop_first()
    } else {
        l
    };
    let r2 = if takes_right {
        r.drop_first()
    } else {
        r
    };
    if takes_left {
        lemma_drop_first_sorted(l);
    }
    if takes_right {
        lemma_drop_first_sorted(r);
    }
    lemma_pairs_of_merge(l2, r2);
    let head = s[0];
    let rest = pairs_of(l2, r2);
    assert(s == seq![head] + rest);
    let hk = pair_key(head);
    assert(head.0 == (if takes_left { Some(l[0]) } else { None::<Container> }));
    assert(head.1 == (if takes_right { Some(r[0]) } else { None::<Container> }));
    // Every key left after the first step is above the key of that step.
    assert forall|k: int| 0 <= k < l2.len() implies hk < (#[trigger] l2[k]).key by {
        if !takes_left {
            assert(l2[k] == l[k]);
            if k > 0 {
                assert(l[0].key < l[k].key);
            }
        }
    }
    assert forall|k: int| 0 <= k < r2.len() implies hk < (#[trigger] r2[k]).key by {
        if !takes_right {
            assert(r2[k] == r[k]);
            if k > 0 {
                assert(r[0].key < r[k].key);
            }
        }
    }
    assert forall|i: int| 0 <= i < rest.len() implies hk < pair_key(#[trigger] rest[i]) by {
        if let Some(c) = rest[i].0 {
            let k = choose|k: int| 0 <= k < l2.len() && l2[k] == c;
        } else if let Some(c) = rest[i].1 {
            let k = choose|k: int| 0 <= k < r2.len() && r2[k] == c;
        }
    }
    assert forall|i: int| 0 <= i < s.len() implies (#[trigger] s[i]).0 is Some || s[i].1 is Some by {
        if i > 0 {
            assert(s[i] == rest[i - 1]);
        }
    }
    assert forall|i: int, j: int| 0 <= i < j < s.len() implies pair_key(#[trigger] s[i]) < pair_key(
        #[trigger] s[j],
    ) by {
        assert(s[j] == rest[j - 1]);
        if i > 0 {
            assert(s[i] == rest[i - 1]);
        }
    }
    assert forall|i: int| 0 <= i < s.len() implies ((#[trigger] s[i]).0 matches Some(c) ==> l.contains(c)
        && c.key == pair_key(s[i])) by {
        if i > 0 {
            assert(s[i] == rest[i - 1]);
            if let Some(c) = rest[i - 1].0 {
                let k = choose|k: int| 0 <= k < l2.len() && l2[k] == c;
                if takes_left {
                    assert(l[k + 1] == c);
                } else {
                    assert(l[k] == c);
                }
            }
        } else if takes_left {
            assert(l[0] == l[0]);
        }
    }
    assert forall|i: int| 0 <= i < s.len() implies ((#[trigger] s[i]).1 matches Some(c) ==> r.contains(c)
        && c.key == pair_key(s[i])) by {
        if i > 0 {
            assert(s[i] == rest[i - 1]);
            if let Some(c) = rest[i - 1].1 {
                let k = choose|k: int| 0 <= k < r2.len() && r2[k] == c;
                if takes_right {
                    assert(r[k + 1] == c);
                } else {
                    assert(r[k] == c);
                }
            }
        } else if takes_right {
            assert(r[0] == r[0]);
            if takes_left {
                assert(l[0].key == r[0].key);
            }
        }
    }
    assert forall|i: int, k: int| 0 <= i < s.len() && 0 <= k < l.len() && (#[trigger] s[i]).0 is None
        implies (#[trigger] l[k]).key != pair_key(s[i]) by {
        if i == 0 {
            if k > 0 {
                assert(l[0].key < l[k].key);
            }
        } else {
            assert(s[i] == rest[i - 1]);
            if takes_left {
                if k == 0 {
                    assert(hk < pair_key(rest[i - 1]));
                } else {
                    assert(l[k] == l2[k - 1]);
                }
            } else {
                assert(l[k] == l2[k]);
            }
        }
    }
    assert forall|i: int, k: int| 0 <= i < s.len() && 0 <= k < r.len() && (#[trigger] s[i]).1 is None
        implies (#[trigger] r[k]).key != pair_key(s[i]) by {
        if i == 0 {
            if k > 0 {
                assert(r[0].key < r[k].key);
            }
        } else {
            assert(s[i] == rest[i - 1]);
            if takes_right {
                if k == 0 {
                    assert(hk < pair_key(rest[i - 1]));
                } else {
                    assert(r[k] == r2[k - 1]);
                }
            } else {
                assert(r[k] == r2[k]);
            }
        }
    }
    assert forall|k: int| 0 <= k < l.len() implies exists|i: int|
        0 <= i < s.len() && (#[trigger] s[i]).0 == Some(#[trigger] l[k]) by {
        if takes_left && k == 0 {
            assert(s[0].0 == Some(l[0]));
        } else {
            let k2 = if takes_left {
                k - 1
            } else {
                k
            };
            assert(l2[k2] == l[k]);
            let i = choose|i: int| 0 <= i < rest.len() && (#[trigger] rest[i]).0 == Some(l2[k2]);
            assert(s[i + 1] == rest[i]);
        }
    }
    assert forall|k: int| 0 <= k < r.len() implies exists|i: int|
        0 <= i < s.len() && (#[trigger] s[i]).1 == Some(#[trigger] r[k]) by {
        if takes_right && k == 0 {
            assert(s[0].1 == Some(r[0]));
        } else {
            let k2 = if takes_right {
                k - 1
            } else {
                k
            };
            assert(r2[k2] == r[k]);
            let i = choose|i: int| 0 <= i < rest.len() && (#[trigger] rest[i]).1 == Some(r2[k2]);
            assert(s[i + 1] == rest[i]);
        }
    }
}

/// Walks two slices of containers side by side, in key order.
///
/// Each step hands out the container with the smaller key, or both when their
/// keys are equal.
pub struct Pairs<'a> {
    left: &'a [Container],
    right: &'a [Container],
}

impl<'a> Pairs<'a> {
    /// What is left of the left slice.
    pub closed spec fn left(&self) -> Seq<Container> {
        self.left@
    }

    /// What is left of the right slice.
    pub closed spec fn right(&self) -> Seq<Container> {
        self.right@
    }

    pub fn new(left: &'a [Container], right: &'a [Container]) -> (r: Pairs<'a>)
        ensures
            r.left() == left@,
            r.right() == right@,
    {
        Pairs { left, right }
    }

    /// The next pair, or `None` once both sides are exhausted.
    pub fn next(&mut self) -> (r: Option<ContainerPair<'a>>)
        ensures
            r is None <==> old(self).left().len() == 0 && old(self).right().len() == 0,
            pairs_of(old(self).left(), old(self).right()) == (match r {
                Some(p) => seq![(own(p.0), own(p.1))],
                None => Seq::empty(),
            }) + pairs_of(final(self).left(), final(self).right()),
            r matches Some(p) ==> final(self).left() == (if p.0 is Some {
                old(self).left().drop_first()
            } else {
                old(self).left()
            }) && final(self).right() == (if p.1 is Some {
                old(self).right().drop_first()
            } else {
                old(self).right()
            }),
            r matches Some(p) ==> (p.0 is Some || p.1 is Some),
            r matches Some(p) ==> (p.0 matches Some(c) ==> old(self).left().len() > 0 && *c == old(
                self,
            ).left()[0]),
            r matches Some(p) ==> (p.1 matches Some(c) ==> old(self).right().len() > 0 && *c == old(
                self,
            ).right()[0]),
            r is None ==> final(self).left() == old(self).left() && final(self).right() == old(
                self,
            ).right(),
    {
        let ghost l = self.left@;
        let ghost r = self.right@;
        let left = self.left;
        let right = self.right;
        match (left.first(), right.first()) {
            (None, None) => {
                assert(pairs_of(l, r) =~= Seq::<(Option<Container>, Option<Container>)>::empty());
                None
            },
            (Some(c1), None) => {
                let (_, rest) = left.split_at(1);
                self.left = rest;
                assert(rest@ =~= l.drop_first());
                Some((Some(c1), None))
            },
            (None, Some(c2)) => {
                let (_, rest) = right.split_at(1);
                self.right = rest;
                assert(rest@ =~= r.drop_first());
                Some((None, Some(c2)))
            },
            (Some(c1), Some(c2)) => {
                if c1.key == c2.key {
                    let (_, lrest) = left.split_at(1);
                    let (_, rrest) = right.split_at(1);
                    self.left = lrest;
                    self.right = rrest;
                    assert(lrest@ =~= l.drop_first());
                    assert(rrest@ =~= r.drop_first());
                    Some((Some(c1), Some(c2)))
                } else if c1.key < c2.key {
                    let (_, rest) = left.split_at(1);
                    self.left = rest;
                    assert(rest@ =~= l.drop_first());
                    Some((Some(c1), None))
                } else {
                    let (_, rest) = right.split_at(1);
                    self.right = rest;
                    assert(rest@ =~= r.drop_first());
                    Some((None, Some(c2)))
                }
            },
        }
    }

    /// At least as many pairs as the longer side has containers are left, and
    /// at most as many as both sides have together.
    pub fn size_hint(&self) -> (r: (usize, Option<usize>))
        requires
            self.left().len() + self.right().len() <= usize::MAX,
        ensures
            r.0 == (if self.left().len() >= self.right().len() {
                self.left().len()
            } else {
                self.right().len()
            }),
            r.1 == Some((self.left().len() + self.right().len()) as usize),
            r.0 <= pairs_of(self.left(), self.right()).len() <= r.1.unwrap(),
    {
        proof {
            lemma_pairs_of_len(self.left(), self.right());
        }
        let size = if self.left.len() >= self.right.len() {
            self.left.len()
        } else {
            self.right.len()
        };
        (size, Some(self.left.len() + self.right.len()))
    }

    /// Every pair that is left, in order.
    pub fn collect(self) -> (r: Vec<ContainerPair<'a>>)
        ensures
            own_pairs(r@) == pairs_of(self.left(), self.right()),
    {
        let mut pairs = self;
        let mut out: Vec<ContainerPair<'a>> = Vec::new();
        loop
            invariant
                pairs_of(self.left(), self.right()) == own_pairs(out@) + pairs_of(pairs.left(), pairs.right()),
            decreases pairs.left().len() + pairs.right().len(),
        {
            let ghost before = out@;
            match pairs.next() {
                None => {
                    assert(own_pairs(out@) + pairs_of(pairs.left(), pairs.right()) =~= own_pairs(out@));
                    return out;
                },
                Some(p) => {
                    out.push(p);
                    assert(own_pairs(out@) =~= own_pairs(before) + seq![(own(p.0), own(p.1))]);
                    assert(own_pairs(out@) + pairs_of(pairs.left(), pairs.right()) =~= own_pairs(before) + (seq![(own(p.0), own(p.1))] + pairs_of(pairs.left(), pairs.right())));
                },
            }
        }
    }
}

/// No two containers with the same key among the first `i` of `a` and all of
/// `b` hold a common low half.
pub open spec fn disjoint_upto(a: Seq<Container>, b: Seq<Container>, i: int) -> bool {
    forall|k: int, m: int|
        0 <= k < i && 0 <= m < b.len() && (#[trigger] a[k]).key == (#[trigger] b[m]).key
            ==> a[k].store@.disjoint(b[m].store@)
}

/// Each of the first `i` containers of `a` lies within a container of `b` with its key.
pub open spec fn covered_upto(a: Seq<Container>, b: Seq<Container>, i: int) -> bool {
    forall|k: int|
        0 <= k < i ==> exists|m: int|
            0 <= m < b.len() && (#[trigger] a[k]).key == (#[trigger] b[m]).key && a[k].store@.subset_of(
                b[m].store@,
            )
}

/// Keys of the first `i` of `a` come before keys of `b` from `j` on, and the
/// other way round.
pub open spec fn walked(a: Seq<Container>, b: Seq<Container>, i: int, j: int) -> bool {
    &&& 0 <= i <= a.len()
    &&& 0 <= j <= b.len()
    &&& forall|k: int, m: int| 0 <= k < i && j <= m < b.len() ==> (#[trigger] a[k]).key < (#[trigger] b[m]).key
    &&& forall|k: int, m: int| 0 <= k < j && i <= m < a.len() ==> (#[trigger] b[k]).key < (#[trigger] a[m]).key
}

proof fn lemma_walk_step(a: Seq<Container>, b: Seq<Container>, i: int, j: int, p: (Option<Container>, Option<Container>))
    requires
        containers_wf(a),
        containers_wf(b),
        walked(a, b, i, j),
        i < a.len() || j < b.len(),
        p == pairs_of(a.subrange(i, a.len() as int), b.subrange(j, b.len() as int))[0],
    ensures
        p.0 is Some ==> i < a.len() && p.0 == Some(a[i]),
        p.1 is Some ==> j < b.len() && p.1 == Some(b[j]),
        p.0 is Some || p.1 is Some,
        p.0 is Some && p.1 is Some ==> a[i].key == b[j].key,
        p.0 is Some && p.1 is None ==> forall|m: int| 0 <= m < b.len() ==> b[m].key != a[i].key,
        p.0 is None ==> forall|m: int| 0 <= m < a.len() ==> a[m].key != b[j].key,
        walked(
            a,
            b,
            if p.0 is Some {
                i + 1
            } else {
                i
            },
            if p.1 is Some {
                j + 1
            } else {
                j
            },
        ),
{
    let l = a.subrange(i, a.len() as int);
    let r = b.subrange(j, b.len() as int);
    if l.len() > 0 {
        assert(l[0] == a[i]);
    }
    if r.len() > 0 {
        assert(r[0] == b[j]);
    }
}

/// Having no element in common is having an empty intersection.
pub proof fn lemma_disjoint_iff_empty_intersection(a: Set<u32>, b: Set<u32>)
    ensures
        a.disjoint(b) <==> a.intersect(b) == Set::<u32>::empty(),
{
    if a.disjoint(b) {
        assert(a.intersect(b) =~= Set::<u32>::empty());
    }
    if a.intersect(b) == Set::<u32>::empty() {
        assert forall|x: u32| a.contains(x) implies !b.contains(x) by {
            assert(!a.intersect(b).contains(x));
        }
    }
}

impl RoaringBitmap {
    /// Returns true if the set has no elements in common with other. This is equivalent to
    /// checking for an empty intersection.
    pub fn is_disjoint(&self, other: &Self) -> (r: bool)
        ensures
            r == self@.disjoint(other@),
    {
        proof {
            use_type_invariant(self);
            use_type_invariant(other);
            self.lemma_view();
            other.lemma_view();
        }
        let ghost a = self.containers@;
        let ghost b = other.containers@;
        let mut pairs = Pairs::new(self.containers.as_slice(), other.containers.as_slice());
        let ghost mut i: int = 0;
        let ghost mut j: int = 0;
        assert(pairs.left() =~= a.subrange(0, a.len() as int));
        assert(pairs.right() =~= b.subrange(0, b.len() as int));
        loop
            invariant
                containers_wf(a),
                containers_wf(b),
                a == self.containers@,
                b == other.containers@,
                self@ == containers_view(a),
                other@ == containers_view(b),
                walked(a, b, i, j),
                pairs.left() == a.subrange(i, a.len() as int),
                pairs.right() == b.subrange(j, b.len() as int),
                disjoint_upto(a, b, i),
            decreases pairs.left().len() + pairs.right().len(),
        {
            let next = pairs.next();
            proof {
                if let Some(p) = next {
                    lemma_walk_step(a, b, i, j, (own(p.0), own(p.1)));
                }
            }
            match next {
                None => {
                    proof {
                        assert forall|v: u32| self@.contains(v) implies !other@.contains(v) by {
                            let k = choose|k: int|
                                0 <= k < a.len() && (#[trigger] a[k]).key == high16(v)
                                    && a[k].store@.contains(low16(v));
                            if other@.contains(v) {
                                let m = choose|m: int|
                                    0 <= m < b.len() && (#[trigger] b[m]).key == high16(v)
                                        && b[m].store@.contains(low16(v));
                                assert(a[k].store@.disjoint(b[m].store@));
                            }
                        }
                    }
                    return true;
                },
                Some((Some(c1), Some(c2))) => {
                    if !c1.is_disjoint(c2) {
                        proof {
                            let x = choose|x: u16| c1.store@.contains(x) && c2.store@.contains(x);
                            let v = (c1.key * 65536 + x) as u32;
                            assert(high16(v) == c1.key && low16(v) == x);
                            assert(a[i].key == high16(v));
                            assert(self@.contains(v));
                            assert(b[j].key == high16(v));
                            assert(other@.contains(v));
                        }
                        return false;
                    }
                    proof {
                        assert forall|k: int, m: int|
                            0 <= k < i + 1 && 0 <= m < b.len() && (#[trigger] a[k]).key == (
                            #[trigger] b[m]).key implies a[k].store@.disjoint(b[m].store@) by {
                            if k == i && m != j {
                                assert(b[m].key != b[j].key);
                            }
                        }
                        i = i + 1;
                        j = j + 1;
                    }
                },
                Some((Some(_), None)) => {
                    proof {
                        i = i + 1;
                    }
                },
                Some((None, _)) => {
                    proof {
                        j = j + 1;
                    }
                },
            }
        }
    }

    /// Returns `true` if this set is a subset of `other`.
    pub fn is_subset(&self, other: &Self) -> (r: bool)
        ensures
            r == self@.subset_of(other@),
    {
        proof {
            use_type_invariant(self);
            use_type_invariant(other);
            self.lemma_view();
            other.lemma_view();
        }
        let ghost a = self.containers@;
        let ghost b = other.containers@;
        let mut pairs = Pairs::new(self.containers.as_slice(), other.containers.as_slice());
        let ghost mut i: int = 0;
        let ghost mut j: int = 0;
        assert(pairs.left() =~= a.subrange(0, a.len() as int));
        assert(pairs.right() =~= b.subrange(0, b.len() as int));
        loop
            invariant
                containers_wf(a),
                containers_wf(b),
                a == self.containers@,
                b == other.containers@,
                self@ == containers_view(a),
                other@ == containers_view(b),
                walked(a, b, i, j),
                pairs.left() == a.subrange(i, a.len() as int),
                pairs.right() == b.subrange(j, b.len() as int),
                covered_upto(a, b, i),
            decreases pairs.left().len() + pairs.right().len(),
        {
            let next = pairs.next();
            proof {
                if let Some(p) = next {
                    lemma_walk_step(a, b, i, j, (own(p.0), own(p.1)));
                }
            }
            match next {
                None => {
                    proof {
                        assert forall|v: u32| self@.contains(v) implies other@.contains(v) by {
                            let k = choose|k: int|
                                0 <= k < a.len() && (#[trigger] a[k]).key == high16(v)
                                    && a[k].store@.contains(low16(v));
                            let m = choose|m: int|
                                0 <= m < b.len() && (#[trigger] a[k]).key == (#[trigger] b[m]).key
                                    && a[k].store@.subset_of(b[m].store@);
                            assert(b[m].store@.contains(low16(v)));
                        }
                    }
                    return true;
                },
                Some((None, _)) => {
                    proof {
                        j = j + 1;
                    }
                },
                Some((Some(c1), None)) => {
                    proof {
                        c1.store.lemma_nonempty();
                        let x = choose|x: u16| c1.store@.contains(x);
                        let v = (c1.key * 65536 + x) as u32;
                        assert(high16(v) == c1.key && low16(v) == x);
                        assert(a[i].key == high16(v));
                        assert(self@.contains(v));
                        if other@.contains(v) {
                            let m = choose|m: int|
                                0 <= m < b.len() && (#[trigger] b[m]).key == high16(v)
                                    && b[m].store@.contains(low16(v));
                            assert(b[m].key != a[i].key);
                        }
                    }
                    return false;
                },
                Some((Some(c1), Some(c2))) => {
                    if !c1.is_subset(c2) {
                        proof {
                            let x = choose|x: u16| c1.store@.contains(x) && !c2.store@.contains(x);
                            let v = (c1.key * 65536 + x) as u32;
                            assert(high16(v) == c1.key && low16(v) == x);
                            assert(a[i].key == high16(v));
                            assert(self@.contains(v));
                            if other@.contains(v) {
                                let m = choose|m: int|
                                    0 <= m < b.len() && (#[trigger] b[m]).key == high16(v)
                                        && b[m].store@.contains(low16(v));
                                assert(m == j);
                            }
                        }
                        return false;
                    }
                    proof {
                        assert forall|k: int| 0 <= k < i + 1 implies exists|m: int|
                            0 <= m < b.len() && (#[trigger] a[k]).key == (#[trigger] b[m]).key
                                && a[k].store@.subset_of(b[m].store@) by {
                            if k == i {
                                assert(a[k].key == b[j].key);
                            }
                        }
                        i = i + 1;
                        j = j + 1;
                    }
                },
            }
        }
    }

    /// Returns `true` if this set is a superset of `other`.
    pub fn is_superset(&self, other: &Self) -> (r: bool)
        ensures
            r == other@.subset_of(self@),
    {
        other.is_subset(self)
    }
}

/// Below this many containers on each side, a parallel walk is not split further.
pub const MAX_SPLIT_SIZE: usize = 512;

/// How many leading containers of `s` have a key of at most `bound`.
pub open spec fn count_le(s: Seq<Container>, bound: u16) -> int
    decreases s.len(),
{
    if s.len() == 0 {
        0
    } else if s[0].key <= bound {
        1 + count_le(s.drop_first(), bound)
    } else {
        0
    }
}

/// In a sorted sequence, `count_le` parts the keys up to `bound` from those above it.
pub proof fn lemma_count_le(s: Seq<Container>, bound: u16)
    requires
        keys_sorted(s),
    ensures
        0 <= count_le(s, bound) <= s.len(),
        forall|k: int| 0 <= k < count_le(s, bound) ==> s[k].key <= bound,
        forall|k: int| count_le(s, bound) <= k < s.len() ==> s[k].key > bound,
    decreases s.len(),
{
    if s.len() > 0 {
        let t = s.drop_first();
        assert forall|a: int, b: int| 0 <= a < b < t.len() implies t[a].key < t[b].key by {
            assert(t[a] == s[a + 1] && t[b] == s[b + 1]);
        }
        lemma_count_le(t, bound);
        if s[0].key <= bound {
            assert forall|k: int| 0 <= k < count_le(s, bound) implies s[k].key <= bound by {
                if k > 0 {
                    assert(s[k] == t[k - 1]);
                }
            }
            assert forall|k: int| count_le(s, bound) <= k < s.len() implies s[k].key > bound by {
                assert(s[k] == t[k - 1]);
            }
        } else {
            assert forall|k: int| 0 <= k < s.len() implies s[k].key > bound by {
                if k > 0 {
                    assert(s[0].key < s[k].key);
                }
            }
        }
    }
}

/// Where a parallel walk over `l` and `r` is cut, if it is cut at all: the
/// longer side is halved, and the other side is cut after the last key that
/// does not exceed the last key of the first half.
pub open spec fn split_points(l: Seq<Container>, r: Seq<Container>) -> Option<(int, int)> {
    if l.len() / 2 <= MAX_SPLIT_SIZE && r.len() / 2 <= MAX_SPLIT_SIZE {
        None
    } else if r.len() > l.len() {
        let sp = (r.len() / 2) as int;
        let lp = count_le(l, r[sp - 1].key);
        if lp >= l.len() {
            None
        } else {
            Some((lp, sp))
        }
    } else {
        let sp = (l.len() / 2) as int;
        let rp = count_le(r, l[sp - 1].key);
        if rp >= r.len() {
            None
        } else {
            Some((sp, rp))
        }
    }
}

/// Some container of `s` has a key above `bound`.
pub open spec fn has_key_above(s: Seq<Container>, bound: u16) -> bool {
    exists|j: int| 0 <= j < s.len() && s[j].key > bound
}

/// A walk is large when either side has more than `2 * MAX_SPLIT_SIZE + 1` containers.
pub open spec fn walk_is_large(l: Seq<Container>, r: Seq<Container>) -> bool {
    l.len() > 2 * MAX_SPLIT_SIZE + 1 || r.len() > 2 * MAX_SPLIT_SIZE + 1
}

/// Where a walk over two sorted sides is cut. A walk is cut exactly when it
/// is large and, once the longer side (the left one on a tie) is halved, the
/// other side still has a key above the last key of the first half. The
/// longer side is then cut at its middle, and the other side between its
/// keys up to that last key and those above it, so that both second parts
/// are not empty.
pub proof fn lemma_split_points_cut(l: Seq<Container>, r: Seq<Container>)
    requires
        keys_sorted(l),
        keys_sorted(r),
    ensures
        r.len() > l.len() ==> (split_points(l, r) is Some <==> walk_is_large(l, r) && has_key_above(
            l,
            r[r.len() / 2 - 1].key,
        )),
        r.len() <= l.len() ==> (split_points(l, r) is Some <==> walk_is_large(l, r)
            && has_key_above(r, l[l.len() / 2 - 1].key)),
        split_points(l, r) matches Some((lp, rp)) ==> {
            let bound = if r.len() > l.len() {
                r[r.len() / 2 - 1].key
            } else {
                l[l.len() / 2 - 1].key
            };
            &&& r.len() > l.len() ==> rp == r.len() / 2
            &&& r.len() <= l.len() ==> lp == l.len() / 2
            &&& 0 <= lp < l.len()
            &&& 0 <= rp < r.len()
            &&& forall|i: int| 0 <= i < lp ==> l[i].key <= bound
            &&& forall|i: int| lp <= i < l.len() ==> l[i].key > bound
            &&& forall|i: int| 0 <= i < rp ==> r[i].key <= bound
            &&& forall|i: int| rp <= i < r.len() ==> r[i].key > bound
        },
{
    if walk_is_large(l, r) {
        if r.len() > l.len() {
            let h = (r.len() / 2) as int;
            let bound = r[h - 1].key;
            lemma_count_le(l, bound);
            let c = count_le(l, bound);
            if c < l.len() {
                assert(l[c].key > bound);
            }
            if has_key_above(l, bound) {
                let j = choose|j: int| 0 <= j < l.len() && l[j].key > bound;
                assert(c > j ==> l[j].key <= bound);
            }
            assert forall|i: int| 0 <= i < h implies r[i].key <= bound by {
                if i < h - 1 {
                    assert(r[i].key < r[h - 1].key);
                }
            }
            assert forall|i: int| h <= i < r.len() implies r[i].key > bound by {
                assert(r[h - 1].key < r[i].key);
            }
        } else {
            let h = (l.len() / 2) as int;
            let bound = l[h - 1].key;
            lemma_count_le(r, bound);
            let c = count_le(r, bound);
            if c < r.len() {
                assert(r[c].key > bound);
            }
            if has_key_above(r, bound) {
                let j = choose|j: int| 0 <= j < r.len() && r[j].key > bound;
                assert(c > j ==> r[j].key <= bound);
            }
            assert forall|i: int| 0 <= i < h implies l[i].key <= bound by {
                if i < h - 1 {
                    assert(l[i].key < l[h - 1].key);
                }
            }
            assert forall|i: int| h <= i < l.len() implies l[i].key > bound by {
                assert(l[h - 1].key < l[i].key);
            }
        }
    }
}

/// Cutting a parallel walk where `split_points` says yields, part after part,
/// the very pairs of the uncut walk; and both parts are shorter than the whole.
pub proof fn lemma_split_keeps_pairs(l: Seq<Container>, r: Seq<Container>)
    requires
        keys_sorted(l),
        keys_sorted(r),
    ensures
        split_points(l, r) matches Some((lp, rp)) ==> {
            &&& 0 <= lp <= l.len()
            &&& 0 <= rp <= r.len()
            &&& lp + rp > 0
            &&& lp + rp < l.len() + r.len()
            &&& pairs_of(l, r) == pairs_of(l.subrange(0, lp), r.subrange(0, rp)) + pairs_of(
                l.subrange(lp, l.len() as int),
                r.subrange(rp, r.len() as int),
            )
        },
{
    if let Some((lp, rp)) = split_points(l, r) {
        let bound = if r.len() > l.len() {
            r[rp - 1].key
        } else {
            l[lp - 1].key
        };
        if r.len() > l.len() {
            lemma_count_le(l, bound);
        } else {
            lemma_count_le(r, bound);
        }
        let l1 = l.subrange(0, lp);
        let l2 = l.subrange(lp, l.len() as int);
        let r1 = r.subrange(0, rp);
        let r2 = r.subrange(rp, r.len() as int);
        assert forall|k: int| 0 <= k < l1.len() implies l1[k].key <= bound by {
            assert(l1[k] == l[k]);
            if r.len() <= l.len() && k < lp - 1 {
                assert(l[k].key < l[lp - 1].key);
            }
        }
        assert forall|k: int| 0 <= k < r1.len() implies r1[k].key <= bound by {
            assert(r1[k] == r[k]);
            if r.len() > l.len() && k < rp - 1 {
                assert(r[k].key < r[rp - 1].key);
            }
        }
        assert forall|k: int| 0 <= k < l2.len() implies l2[k].key > bound by {
            assert(l2[k] == l[lp + k]);
            if r.len() <= l.len() {
                assert(l[lp - 1].key < l[lp + k].key);
            }
        }
        assert forall|k: int| 0 <= k < r2.len() implies r2[k].key > bound by {
            assert(r2[k] == r[rp + k]);
            if r.len() > l.len() {
                assert(r[rp - 1].key < r[rp + k].key);
            }
        }
        lemma_pairs_split(l1, r1, l2, r2);
        assert(l1 + l2 =~= l);
        assert(r1 + r2 =~= r);
    }
}

/// The index of the first container whose key exceeds `bound`: on sorted
/// keys, how many keys are at most `bound`; on any keys, an index within the slice.
fn partition_point_le(s: &[Container], bound: u16) -> (p: usize)
    ensures
        p <= s@.len(),
        keys_sorted(s@) ==> p == count_le(s@, bound),
{
    proof {
        if keys_sorted(s@) {
            lemma_count_le(s@, bound);
        }
    }
    let mut lo: usize = 0;
    let mut hi: usize = s.len();
    while lo < hi
        invariant
            0 <= lo <= hi <= s@.len(),
            keys_sorted(s@) ==> forall|k: int| 0 <= k < lo ==> s@[k].key <= bound,
            keys_sorted(s@) ==> forall|k: int| hi <= k < s@.len() ==> s@[k].key > bound,
        decreases hi - lo,
    {
        let mid = lo + (hi - lo) / 2;
        if s[mid].key <= bound {
            proof {
                if keys_sorted(s@) {
                    assert forall|k: int| 0 <= k < mid + 1 implies s@[k].key <= bound by {
                        if k < mid {
                            assert(s@[k].key < s@[mid as int].key);
                        }
                    }
                }
            }
            lo = mid + 1;
        } else {
            proof {
                if keys_sorted(s@) {
                    assert forall|k: int| mid <= k < s@.len() implies s@[k].key > bound by {
                        if k > mid {
                            assert(s@[mid as int].key < s@[k].key);
                        }
                    }
                }
            }
            hi = mid;
        }
    }
    proof {
        if keys_sorted(s@) {
            lemma_count_le(s@, bound);
            let c = count_le(s@, bound);
            if c < lo {
                assert(s@[c].key > bound);
            } else if c > lo {
                assert(s@[lo as int].key <= bound);
            }
        }
    }
    lo
}

/// The work of a parallel walk over two sorted slices of containers, which
/// can be cut in two independent parts.
pub struct ParPairsProducer<'a> {
    pub left: &'a [Container],
    pub right: &'a [Container],
}

impl<'a> ParPairsProducer<'a> {
    /// Cuts the work in two where `split_points` says, or hands it back whole.
    /// Small work is handed back whole whatever its keys; on any keys, the two
    /// parts of a cut put together are the whole.
    pub fn split(self) -> (r: (ParPairsProducer<'a>, Option<ParPairsProducer<'a>>))
        ensures
            self.left@.len() / 2 <= MAX_SPLIT_SIZE && self.right@.len() / 2 <= MAX_SPLIT_SIZE ==> r.1
                is None,
            r.1 is None ==> r.0.left@ == self.left@ && r.0.right@ == self.right@,
            r.1 matches Some(second) ==> r.0.left@ + second.left@ == self.left@ && r.0.right@
                + second.right@ == self.right@,
            keys_sorted(self.left@) && keys_sorted(self.right@) ==> (r.1 is Some <==> walk_is_large(
                self.left@,
                self.right@,
            ) && if self.right@.len() > self.left@.len() {
                has_key_above(self.left@, self.right@[self.right@.len() / 2 - 1].key)
            } else {
                has_key_above(self.right@, self.left@[self.left@.len() / 2 - 1].key)
            }),
            keys_sorted(self.left@) && keys_sorted(self.right@) ==> match split_points(self.left@, self.right@) {
                None => r.1 is None && r.0.left@ == self.left@ && r.0.right@ == self.right@,
                Some((lp, rp)) => r.1 matches Some(second) && r.0.left@ == self.left@.subrange(0, lp)
                    && r.0.right@ == self.right@.subrange(0, rp) && second.left@ == self.left@.subrange(
                    lp,
                    self.left@.len() as int,
                ) && second.right@ == self.right@.subrange(rp, self.right@.len() as int),
            },
    {
        proof {
            if keys_sorted(self.left@) && keys_sorted(self.right@) {
                lemma_split_points_cut(self.left@, self.right@);
            }
        }
        let left_slice = self.left;
        let right_slice = self.right;
        if left_slice.len() / 2 <= MAX_SPLIT_SIZE && right_slice.len() / 2 <= MAX_SPLIT_SIZE {
            return (ParPairsProducer { left: self.left, right: self.right }, None);
        }
        let (split_on_left, split_point) = if right_slice.len() > left_slice.len() {
            (false, right_slice.len() / 2)
        } else {
            (true, left_slice.len() / 2)
        };
        if split_on_left {
            let biggest = left_slice[split_point - 1].key;
            let right_split_point = partition_point_le(right_slice, biggest);
            if right_split_point >= right_slice.len() {
                // There is no overlap left, don't even bother splitting
                return (ParPairsProducer { left: self.left, right: self.right }, None);
            }
            let (left_left, left_right) = self.left.split_at(split_point);
            let (right_left, right_right) = self.right.split_at(right_split_point);
            (
                ParPairsProducer { left: left_left, right: right_left },
                Some(ParPairsProducer { left: left_right, right: right_right }),
            )
        } else {
            let biggest = right_slice[split_point - 1].key;
            let left_split_point = partition_point_le(left_slice, biggest);
            if left_split_point >= left_slice.len() {
                // There is no overlap left, don't even bother splitting
                return (ParPairsProducer { left: self.left, right: self.right }, None);
            }
            let (right_left, right_right) = self.right.split_at(split_point);
            let (left_left, left_right) = self.left.split_at(left_split_point);
            (
                ParPairsProducer { left: left_left, right: right_left },
                Some(ParPairsProducer { left: left_right, right: right_right }),
            )
        }
    }

    /// The sequential walk over this part of the work.
    pub fn into_pairs(self) -> (r: Pairs<'a>)
        ensures
            r.left() == self.left@,
            r.right() == self.right@,
    {
        Pairs::new(self.left, self.right)
    }
}

/// A walk of pairs of containers, like [`Pairs`], that can be cut into parts
/// that are walked independently and yield, in order, the same pairs.
pub struct ParallelPairs<'a> {
    left: &'a [Container],
    right: &'a [Container],
}

impl<'a> ParallelPairs<'a> {
    pub closed spec fn left(&self) -> Seq<Container> {
        self.left@
    }

    pub closed spec fn right(&self) -> Seq<Container> {
        self.right@
    }

    pub fn new(left: &'a [Container], right: &'a [Container]) -> (r: ParallelPairs<'a>)
        ensures
            r.left() == left@,
            r.right() == right@,
    {
        ParallelPairs { left, right }
    }

    /// The whole work, before any cut.
    pub fn into_producer(self) -> (r: ParPairsProducer<'a>)
        ensures
            r.left@ == self.left(),
            r.right@ == self.right(),
    {
        ParPairsProducer { left: self.left, right: self.right }
    }

    /// All the pairs, gathered by cutting the work as far as it goes and
    /// walking the parts in order. Slices whose keys do not increase are
    /// walked without a cut.
    pub fn collect(self) -> (r: Vec<ContainerPair<'a>>)
        ensures
            own_pairs(r@) == pairs_of(self.left(), self.right()),
    {
        let mut out: Vec<ContainerPair<'a>> = Vec::new();
        if keys_increasing(self.left) && keys_increasing(self.right) {
            drive(self.into_producer(), &mut out);
        } else {
            out = Pairs::new(self.left, self.right).collect();
            return out;
        }
        assert(own_pairs(out@) =~= own_pairs(Seq::<ContainerPair<'a>>::empty()) + pairs_of(self.left(), self.right()));
        out
    }
}

/// Whether the keys of `s` increase strictly, as cutting a walk requires.
pub fn keys_increasing(s: &[Container]) -> (r: bool)
    ensures
        r == keys_sorted(s@),
{
    let mut i: usize = 1;
    if s.len() == 0 {
        return true;
    }
    while i < s.len()
        invariant
            1 <= i <= s@.len(),
            forall|a: int, b: int| 0 <= a < b < i ==> s@[a].key < s@[b].key,
        decreases s@.len() - i,
    {
        if s[i - 1].key >= s[i].key {
            return false;
        }
        proof {
            assert forall|a: int, b: int| 0 <= a < b < i + 1 implies s@[a].key < s@[b].key by {
                if b == i && a < i - 1 {
                    assert(s@[a].key < s@[i - 1].key);
                }
            }
        }
        i = i + 1;
    }
    true
}

/// Cuts `producer` as far as it goes and appends the pairs of the parts, in order.
fn drive<'a>(producer: ParPairsProducer<'a>, out: &mut Vec<ContainerPair<'a>>)
    requires
        keys_sorted(producer.left@),
        keys_sorted(producer.right@),
    ensures
        own_pairs(final(out)@) == own_pairs(old(out)@) + pairs_of(producer.left@, producer.right@),
    decreases producer.left@.len() + producer.right@.len(),
{
    let ghost l = producer.left@;
    let ghost r = producer.right@;
    proof {
        lemma_split_keeps_pairs(l, r);
    }
    let (first, second) = producer.split();
    match second {
        None => {
            let pairs = first.into_pairs().collect();
            let ghost before = out@;
            let mut i: usize = 0;
            while i < pairs.len()
                invariant
                    i <= pairs@.len(),
                    own_pairs(out@) == own_pairs(before) + own_pairs(pairs@.subrange(0, i as int)),
                decreases pairs@.len() - i,
            {
                let ghost old_out = out@;
                out.push(pairs[i]);
                assert(own_pairs(out@) =~= own_pairs(old_out) + seq![(own(pairs@[i as int].0), own(pairs@[i as int].1))]);
                assert(own_pairs(pairs@.subrange(0, i + 1)) =~= own_pairs(pairs@.subrange(0, i as int)) + seq![(own(pairs@[i as int].0), own(pairs@[i as int].1))]);
                assert(own_pairs(out@) =~= own_pairs(before) + own_pairs(pairs@.subrange(0, i + 1)));
                i = i + 1;
            }
            assert(pairs@.subrange(0, pairs@.len() as int) =~= pairs@);
        },
        Some(second) => {
            let ghost before = out@;
            proof {
                assert forall|a: int, b: int| 0 <= a < b < first.left@.len() implies first.left@[a].key < first.left@[b].key by {}
                assert forall|a: int, b: int| 0 <= a < b < first.right@.len() implies first.right@[a].key < first.right@[b].key by {}
                assert forall|a: int, b: int| 0 <= a < b < second.left@.len() implies second.left@[a].key < second.left@[b].key by {
                    assert(second.left@[a] == l[a + (l.len() - second.left@.len())]);
                    assert(second.left@[b] == l[b + (l.len() - second.left@.len())]);
                }
                assert forall|a: int, b: int| 0 <= a < b < second.right@.len() implies second.right@[a].key < second.right@[b].key by {
                    assert(second.right@[a] == r[a + (r.len() - second.right@.len())]);
                    assert(second.right@[b] == r[b + (r.len() - second.right@.len())]);
                }
            }
            drive(first, out);
            drive(second, out);
            assert(own_pairs(out@) =~= own_pairs(before) + pairs_of(l, r));
        },
    }
}

} // verus!
