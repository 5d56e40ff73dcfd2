use vstd::prelude::*;

use blart::map::{PrefixEntry, PrefixOccupied};
use blart::TreeMap;

use super::container::Container;
use super::key::{lex_lt, prefix_of};

verus! {

/// One of the byte strings starts the other (or they are equal).
pub open spec fn prefix_related(a: Seq<u8>, b: Seq<u8>) -> bool {
    prefix_of(a, b) || prefix_of(b, a)
}

/// How many key bytes the inner nodes of the tree keep: those of a whole key.
pub const PREFIX_LEN: usize = 4;

/// The adaptive radix tree (`blart::TreeMap`) that maps key bytes to
/// containers. It is held opaque here: the tree's allocator parameter is
/// bounded by a trait that `blart` does not export, so the tree type itself
/// cannot be declared. What it holds is `art_entries`.
#[verifier::external_body]
#[derive(Debug)]
pub struct ArtMap {
    map: TreeMap<Vec<u8>, Container, PREFIX_LEN>,
}

/// The entries of the tree, by the bytes of their keys. The wrappers below
/// say how each call of `blart` changes them.
pub uninterp spec fn art_entries(m: ArtMap) -> Map<Seq<u8>, Container>;

/// Where a key stands in the tree, as a prefix lookup sees it.
pub enum PrefixKind {
    /// The key itself is in the tree.
    Leaf,
    /// The key is absent, but it starts other keys of the tree or one of them starts it.
    Inner,
    /// Neither the key nor any key related to it by a prefix is in the tree.
    Vacant,
}

impl ArtMap {
    /// `TreeMap::default`: an empty tree.
    #[verifier::external_body]
    pub(crate) fn new() -> (r: ArtMap)
        ensures
            art_entries(r).dom() == Set::<Seq<u8>>::empty(),
    {
        ArtMap { map: TreeMap::default() }
    }

    /// `TreeMap::prefix_entry`: looks `key` up and tells the three kinds of
    /// entry apart; the entry is dropped unused, so the tree is unchanged. The
    /// contract claims what the documentation of `PrefixOccupied` and
    /// `PrefixEntry` says: a leaf entry when the key itself is present, an
    /// inner entry when it is absent but starts a present key or is started
    /// by one, a vacant entry otherwise.
    #[verifier::external_body]
    pub(crate) fn prefix_kind(&mut self, key: Vec<u8>) -> (r: PrefixKind)
        ensures
            art_entries(*final(self)) == art_entries(*old(self)),
            r is Leaf ==> art_entries(*old(self)).dom().contains(key@),
            r is Inner ==> !art_entries(*old(self)).dom().contains(key@) && exists|k: Seq<u8>|
                #![trigger art_entries(*old(self)).dom().contains(k)]
                art_entries(*old(self)).dom().contains(k) && prefix_related(k, key@),
            r is Vacant ==> forall|k: Seq<u8>|
                #![trigger art_entries(*old(self)).dom().contains(k)]
                art_entries(*old(self)).dom().contains(k) ==> !prefix_related(k, key@),
    {
        match self.map.prefix_entry(key) {
            PrefixEntry::Occupied(PrefixOccupied::Leaf(_)) => PrefixKind::Leaf,
            PrefixEntry::Occupied(PrefixOccupied::Inner(_)) => PrefixKind::Inner,
            PrefixEntry::Vacant(_) => PrefixKind::Vacant,
        }
    }

    /// `TreeMap::remove`: takes the entry of `key` out of the tree and hands
    /// back its value, if there was one.
    #[verifier::external_body]
    pub(crate) fn remove(&mut self, key: &Vec<u8>) -> (r: Option<Container>)
        ensures
            r == (if art_entries(*old(self)).dom().contains(key@) {
                Some(art_entries(*old(self))[key@])
            } else {
                None
            }),
            art_entries(*final(self)) == art_entries(*old(self)).remove(key@),
    {
        self.map.remove(key)
    }

    /// `TreeMap::iter`: the entries of the tree, sorted by key (in the
    /// dictionary order of their bytes), each key once; keys are copied,
    /// values borrowed.
    #[verifier::external_body]
    pub(crate) fn entries(&self) -> (r: Vec<(Vec<u8>, &Container)>)
        ensures
            forall|i: int|
                #![trigger r@[i]]
                0 <= i < r@.len() ==> art_entries(*self).dom().contains(r@[i].0@) && *r@[i].1
                    == art_entries(*self)[r@[i].0@],
            forall|k: Seq<u8>|
                #![trigger art_entries(*self).dom().contains(k)]
                art_entries(*self).dom().contains(k) ==> exists|i: int|
                    0 <= i < r@.len() && (#[trigger] r@[i]).0@ == k,
            forall|i: int, j: int|
                #![trigger r@[i], r@[j]]
                0 <= i < j < r@.len() ==> lex_lt(r@[i].0@, r@[j].0@),
    {
        let mut out = Vec::new();
        for (k, v) in self.map.iter() {
            out.push((k.clone(), v));
        }
        out
    }

    /// `TreeMap::prefix_insert`: puts `value` under `key`, dropping every
    /// entry whose key starts `key` or is started by it, as its documentation
    /// and example show.
    #[verifier::external_body]
    pub(crate) fn prefix_insert(&mut self, key: Vec<u8>, value: Container)
        ensures
            art_entries(*final(self)) == art_entries(*old(self)).remove_keys(
                Set::new(|k: Seq<u8>| prefix_related(k, key@)),
            ).insert(key@, value),
    {
        self.map.prefix_insert(key, value)
    }
}

} // verus!
