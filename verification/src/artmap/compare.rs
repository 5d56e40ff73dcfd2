use vstd::prelude::*;

use core::cmp::Ordering;

use super::container::Container;
use super::key::{HighKey, lex_lt, prefix_of, lemma_lex_prefix, lemma_lex_total_order};

verus! {

/// What a walk over two ordered sequences hands out at one step.
#[derive(Clone, Debug, PartialEq, Eq)]
pub enum EitherOrBoth<L, R> {
    Left(L),
    Right(R),
    Both(L, R),
}

/// A key of the tree with its container.
pub type Entry<'a> = (HighKey, &'a Container);

/// What a step of the walk hands out, and how many entries it consumes on each side.
///
/// Equal keys go out together. When one key comes first and the other starts
/// with it, they go out together too: the longer side moves on, and the
/// shorter one moves on as well once the next key of the longer side no
/// longer starts with it. Otherwise the first key goes out alone.
pub open spec fn compare_step<'a>(l: Seq<Entry<'a>>, r: Seq<Entry<'a>>) -> (
    Option<EitherOrBoth<Entry<'a>, Entry<'a>>>,
    int,
    int,
) {
    if l.len() > 0 && r.len() > 0 {
        let a = l[0];
        let b = r[0];
        if a.0.bytes() == b.0.bytes() {
            (Some(EitherOrBoth::Both(a, b)), 1, 1)
        } else if lex_lt(a.0.bytes(), b.0.bytes()) {
            if prefix_of(a.0.bytes(), b.0.bytes()) {
                let moves_left = r.len() > 1 && !prefix_of(a.0.bytes(), r[1].0.bytes());
                (Some(EitherOrBoth::Both(a, b)), if moves_left { 1 } else { 0 }, 1)
            } else {
                (Some(EitherOrBoth::Left(a)), 1, 0)
            }
        } else {
            if prefix_of(b.0.bytes(), a.0.bytes()) {
                let moves_right = l.len() > 1 && !prefix_of(b.0.bytes(), l[1].0.bytes());
                (Some(EitherOrBoth::Both(a, b)), 1, if moves_right { 1 } else { 0 })
            } else {
                (Some(EitherOrBoth::Right(b)), 0, 1)
            }
        }
    } else if l.len() > 0 {
        (Some(EitherOrBoth::Left(l[0])), 1, 0)
    } else if r.len() > 0 {
        (Some(EitherOrBoth::Right(r[0])), 0, 1)
    } else {
        (None, 0, 0)
    }
}

/// A step hands out nothing only at the end of both sides, and otherwise moves
/// on by at least one entry. It hands out the first entries of the sides, and
/// pairs two keys only when one of them starts the other.
pub proof fn lemma_compare_step<'a>(l: Seq<Entry<'a>>, r: Seq<Entry<'a>>)
    ensures
        ({
            let (item, moved_left, moved_right) = compare_step(l, r);
            &&& item is None <==> l.len() == 0 && r.len() == 0
            &&& 0 <= moved_left <= 1 && moved_left <= l.len()
            &&& 0 <= moved_right <= 1 && moved_right <= r.len()
            &&& item is Some ==> moved_left + moved_right >= 1
            &&& item matches Some(EitherOrBoth::Left(a)) ==> a == l[0] && moved_left == 1
                && moved_right == 0
            &&& item matches Some(EitherOrBoth::Right(b)) ==> b == r[0] && moved_left == 0
                && moved_right == 1
            &&& item matches Some(EitherOrBoth::Both(a, b)) ==> a == l[0] && b == r[0] && (prefix_of(
                a.0.bytes(),
                b.0.bytes(),
            ) || prefix_of(b.0.bytes(), a.0.bytes()))
        }),
{
    if l.len() > 0 && r.len() > 0 {
        let x = l[0].0.bytes();
        assert(x.subrange(0, x.len() as int) =~= x);
    }
}

/// What a step hands out, seen from the other side: `Left` and `Right` trade
/// places and so do the two halves of `Both`.
pub open spec fn mirrored<L, R>(item: Option<EitherOrBoth<L, R>>) -> Option<EitherOrBoth<R, L>> {
    match item {
        Some(EitherOrBoth::Left(a)) => Some(EitherOrBoth::Right(a)),
        Some(EitherOrBoth::Right(b)) => Some(EitherOrBoth::Left(b)),
        Some(EitherOrBoth::Both(a, b)) => Some(EitherOrBoth::Both(b, a)),
        None => None,
    }
}

/// The first `n` things a walk hands out, starting from the sides `l` and `r`.
pub open spec fn walk<'a>(l: Seq<Entry<'a>>, r: Seq<Entry<'a>>, n: nat) -> Seq<
    Option<EitherOrBoth<Entry<'a>, Entry<'a>>>,
>
    decreases n,
{
    if n == 0 {
        Seq::empty()
    } else {
        let (item, moved_left, moved_right) = compare_step(l, r);
        seq![item] + walk(l.skip(moved_left), r.skip(moved_right), (n - 1) as nat)
    }
}

/// `a` is a proper prefix of `b`: it starts `b` and is shorter.
pub open spec fn proper_prefix(a: Seq<u8>, b: Seq<u8>) -> bool {
    prefix_of(a, b) && a != b
}

proof fn lemma_proper_prefix(a: Seq<u8>, b: Seq<u8>)
    requires
        proper_prefix(a, b),
    ensures
        a.len() < b.len(),
        lex_lt(a, b),
        !lex_lt(b, a),
{
    if a.len() == b.len() {
        assert(b.subrange(0, a.len() as int) =~= b);
    }
    assert forall|k: int| 0 <= k < a.len() implies a[k] == b[k] by {
        assert(b.subrange(0, a.len() as int)[k] == b[k]);
    }
    lemma_lex_prefix(a, b);
}

/// The walk does not care which tree is on which side: walking `r` against
/// `l` hands out what walking `l` against `r` does, mirrored, and moves on by
/// the same amounts with the sides swapped.
pub proof fn lemma_compare_step_mirror<'a>(l: Seq<Entry<'a>>, r: Seq<Entry<'a>>)
    ensures
        ({
            let (item, moved_left, moved_right) = compare_step(l, r);
            compare_step(r, l) == (mirrored(item), moved_right, moved_left)
        }),
{
    if l.len() > 0 && r.len() > 0 {
        lemma_lex_total_order(l[0].0.bytes(), r[0].0.bytes(), r[0].0.bytes());
    }
}

/// Two entries with the same key go out together, and both sides move on.
pub proof fn lemma_equal_keys<'a>(l: Seq<Entry<'a>>, r: Seq<Entry<'a>>)
    requires
        l.len() > 0,
        r.len() > 0,
        l[0].0.bytes() == r[0].0.bytes(),
    ensures
        compare_step(l, r) == (Some(EitherOrBoth::Both(l[0], r[0])), 1int, 1int),
{
}

/// Of two keys where neither starts the other, the one that comes first in
/// dictionary order goes out alone, and only its side moves on.
pub proof fn lemma_unrelated_keys<'a>(l: Seq<Entry<'a>>, r: Seq<Entry<'a>>)
    requires
        l.len() > 0,
        r.len() > 0,
        !prefix_of(l[0].0.bytes(), r[0].0.bytes()),
        !prefix_of(r[0].0.bytes(), l[0].0.bytes()),
    ensures
        lex_lt(l[0].0.bytes(), r[0].0.bytes()) ==> compare_step(l, r) == (Some(
            EitherOrBoth::<Entry<'a>, Entry<'a>>::Left(l[0]),
        ), 1int, 0int),
        lex_lt(r[0].0.bytes(), l[0].0.bytes()) ==> compare_step(l, r) == (Some(
            EitherOrBoth::<Entry<'a>, Entry<'a>>::Right(r[0]),
        ), 0int, 1int),
{
    let a = l[0].0.bytes();
    let b = r[0].0.bytes();
    lemma_lex_total_order(a, b, b);
    if a == b {
        assert(b.subrange(0, a.len() as int) =~= b);
    }
}

/// A short key on the left that starts the right key goes out with it and
/// stays for the next right key, as long as that key starts with it too.
/// It moves on once the next right key no longer starts with it.
pub proof fn lemma_short_left_key<'a>(l: Seq<Entry<'a>>, r: Seq<Entry<'a>>)
    requires
        l.len() > 0,
        r.len() > 0,
        proper_prefix(l[0].0.bytes(), r[0].0.bytes()),
    ensures
        compare_step(l, r).0 == Some(EitherOrBoth::Both(l[0], r[0])),
        compare_step(l, r).2 == 1,
        r.len() > 1 && prefix_of(l[0].0.bytes(), r[1].0.bytes()) ==> compare_step(l, r).1 == 0,
        r.len() > 1 && !prefix_of(l[0].0.bytes(), r[1].0.bytes()) ==> compare_step(l, r).1 == 1,
{
    lemma_proper_prefix(l[0].0.bytes(), r[0].0.bytes());
}

/// A short key on the right that starts the left key goes out with it and
/// stays for the next left key, as long as that key starts with it too.
/// It moves on once the next left key no longer starts with it.
pub proof fn lemma_short_right_key<'a>(l: Seq<Entry<'a>>, r: Seq<Entry<'a>>)
    requires
        l.len() > 0,
        r.len() > 0,
        proper_prefix(r[0].0.bytes(), l[0].0.bytes()),
    ensures
        compare_step(l, r).0 == Some(EitherOrBoth::Both(l[0], r[0])),
        compare_step(l, r).1 == 1,
        l.len() > 1 && prefix_of(r[0].0.bytes(), l[1].0.bytes()) ==> compare_step(l, r).2 == 0,
        l.len() > 1 && !prefix_of(r[0].0.bytes(), l[1].0.bytes()) ==> compare_step(l, r).2 == 1,
{
    lemma_proper_prefix(r[0].0.bytes(), l[0].0.bytes());
}

/// One step of a walk of `n > 0` steps, then the rest of it.
proof fn lemma_walk_unfold<'a>(l: Seq<Entry<'a>>, r: Seq<Entry<'a>>, n: nat)
    requires
        n > 0,
    ensures
        walk(l, r, n) == seq![compare_step(l, r).0] + walk(
            l.skip(compare_step(l, r).1),
            r.skip(compare_step(l, r).2),
            (n - 1) as nat,
        ),
{
}

/// A walk of `n` steps hands out `n` things.
proof fn lemma_walk_len<'a>(l: Seq<Entry<'a>>, r: Seq<Entry<'a>>, n: nat)
    ensures
        walk(l, r, n).len() == n,
    decreases n,
{
    if n > 0 {
        let c = compare_step(l, r);
        lemma_walk_len(l.skip(c.1), r.skip(c.2), (n - 1) as nat);
    }
}

/// A short key on the left is paired, one step after another, with each of
/// the right keys that follow and start with it.
#[verifier::spinoff_prover]
pub proof fn lemma_short_left_key_pairs<'a>(l: Seq<Entry<'a>>, r: Seq<Entry<'a>>, n: nat)
    requires
        l.len() > 0,
        n <= r.len(),
        forall|i: int| 0 <= i < n ==> #[trigger] proper_prefix(l[0].0.bytes(), r[i].0.bytes()),
    ensures
        walk(l, r, n).len() == n,
        forall|i: int| 0 <= i < n ==> #[trigger] walk(l, r, n)[i] == Some(EitherOrBoth::Both(l[0], r[i])),
    decreases n,
{
    lemma_walk_len(l, r, n);
    if n > 0 {
        let a = l[0];
        let both = Some(EitherOrBoth::Both(a, r[0]));
        assert(proper_prefix(a.0.bytes(), r[0].0.bytes()));
        lemma_short_left_key(l, r);
        lemma_walk_unfold(l, r, n);
        let rest = r.skip(1);
        let w = walk(l, r, n);
        if n > 1 {
            assert(proper_prefix(a.0.bytes(), r[1].0.bytes()));
            assert(l.skip(0) =~= l);
            let tail = walk(l, rest, (n - 1) as nat);
            assert(w == seq![both] + tail);
            assert forall|i: int| 0 <= i < n - 1 implies #[trigger] proper_prefix(
                a.0.bytes(),
                rest[i].0.bytes(),
            ) by {
                assert(proper_prefix(a.0.bytes(), r[i + 1].0.bytes()));
            }
            lemma_short_left_key_pairs(l, rest, (n - 1) as nat);
            assert forall|i: int| 0 <= i < n implies #[trigger] w[i] == Some(
                EitherOrBoth::Both(a, r[i]),
            ) by {
                if i > 0 {
                    assert(w[i] == tail[i - 1]);
                    assert(rest[i - 1] == r[i]);
                }
            }
        } else {
            assert(w[0] == both);
        }
    }
}

/// Walks the entries of two trees side by side, in key order, pairing a key
/// with the keys it is a prefix of.
pub struct CompareIter<'a> {
    left: &'a [Entry<'a>],
    right: &'a [Entry<'a>],
}

impl<'a> CompareIter<'a> {
    pub closed spec fn left(&self) -> Seq<Entry<'a>> {
        self.left@
    }

    pub closed spec fn right(&self) -> Seq<Entry<'a>> {
        self.right@
    }

    pub fn new(left: &'a [Entry<'a>], right: &'a [Entry<'a>]) -> (r: CompareIter<'a>)
        ensures
            r.left() == left@,
            r.right() == right@,
    {
        CompareIter { left, right }
    }

    /// The next step of the walk, or `None` once both sides are exhausted.
    pub fn next(&mut self) -> (r: Option<EitherOrBoth<Entry<'a>, Entry<'a>>>)
        ensures
            ({
                let (item, moved_left, moved_right) = compare_step(old(self).left(), old(self).right());
                &&& r == item
                &&& final(self).left() == old(self).left().skip(moved_left)
                &&& final(self).right() == old(self).right().skip(moved_right)
            }),
    {
        let ghost l = self.left@;
        let ghost r = self.right@;
        let left = self.left;
        let right = self.right;
        assert(l.skip(0) =~= l);
        assert(r.skip(0) =~= r);
        match (left.first(), right.first()) {
            (Some(first_left), Some(first_right)) => {
                let a = *first_left;
                let b = *first_right;
                match a.0.compare(&b.0) {
                    Ordering::Equal => {
                        let (_, lrest) = left.split_at(1);
                        let (_, rrest) = right.split_at(1);
                        self.left = lrest;
                        self.right = rrest;
                        assert(lrest@ =~= l.skip(1));
                        assert(rrest@ =~= r.skip(1));
                        Some(EitherOrBoth::Both(a, b))
                    },
                    Ordering::Less => {
                        // left key is smaller than right key, this can mean two things:
                        // - right key starts with left key, i.e. right contains left
                        // - right key has no overlap with left key
                        if b.0.starts_with(&a.0) {
                            // since right starts with left, we always advance right
                            let (_, rrest) = right.split_at(1);
                            self.right = rrest;
                            assert(rrest@ =~= r.skip(1));
                            // we should advance left if the next right key no longer starts
                            // with the left key
                            let moves_left = match rrest.first() {
                                Some(f) => !f.0.starts_with(&a.0),
                                None => false,
                            };
                            if moves_left {
                                let (_, lrest) = left.split_at(1);
                                self.left = lrest;
                                assert(lrest@ =~= l.skip(1));
                            }
                            Some(EitherOrBoth::Both(a, b))
                        } else {
                            let (_, lrest) = left.split_at(1);
                            self.left = lrest;
                            assert(lrest@ =~= l.skip(1));
                            Some(EitherOrBoth::Left(a))
                        }
                    },
                    Ordering::Greater => {
                        // same two cases as the one above, with left and right swapped.
                        if a.0.starts_with(&b.0) {
                            let (_, lrest) = left.split_at(1);
                            self.left = lrest;
                            assert(lrest@ =~= l.skip(1));
                            let moves_right = match lrest.first() {
                                Some(f) => !f.0.starts_with(&b.0),
                                None => false,
                            };
                            if moves_right {
                                let (_, rrest) = right.split_at(1);
                                self.right = rrest;
                                assert(rrest@ =~= r.skip(1));
                            }
                            Some(EitherOrBoth::Both(a, b))
                        } else {
                            let (_, rrest) = right.split_at(1);
                            self.right = rrest;
                            assert(rrest@ =~= r.skip(1));
                            Some(EitherOrBoth::Right(b))
                        }
                    },
                }
            },
            (Some(first_left), None) => {
                let a = *first_left;
                let (_, lrest) = left.split_at(1);
                self.left = lrest;
                assert(lrest@ =~= l.skip(1));
                Some(EitherOrBoth::Left(a))
            },
            (None, Some(first_right)) => {
                let b = *first_right;
                let (_, rrest) = right.split_at(1);
                self.right = rrest;
                assert(rrest@ =~= r.skip(1));
                Some(EitherOrBoth::Right(b))
            },
            (None, None) => None,
        }
    }
}

} // verus!
