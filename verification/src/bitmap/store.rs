use vstd::prelude::*;

verus! {

/// Every element of `s` is smaller than every later one.
pub open spec fn strictly_sorted(s: Seq<u16>) -> bool {
    forall|i: int, j: int| 0 <= i < j < s.len() ==> s[i] < s[j]
}

proof fn lemma_sorted_lower(s: Seq<u16>, i: int)
    requires
        strictly_sorted(s),
        0 <= i < s.len(),
    ensures
        s[i] >= i,
    decreases i,
{
    if i > 0 {
        lemma_sorted_lower(s, i - 1);
    }
}

proof fn lemma_sorted_upper(s: Seq<u16>, i: int)
    requires
        strictly_sorted(s),
        0 <= i < s.len(),
    ensures
        s[i] + (s.len() - 1 - i) <= 65535,
    decreases s.len() - i,
{
    if i < s.len() - 1 {
        lemma_sorted_upper(s, i + 1);
    }
}

/// A strictly sorted sequence of `u16` has at most 65536 elements.
pub proof fn lemma_sorted_len(s: Seq<u16>)
    requires
        strictly_sorted(s),
    ensures
        s.len() <= 65536,
{
    if s.len() > 0 {
        lemma_sorted_lower(s, s.len() - 1);
    }
}

/// A strictly sorted sequence of 65536 values of `u16` holds every `u16`.
pub proof fn lemma_sorted_complete(s: Seq<u16>)
    requires
        strictly_sorted(s),
        s.len() == 65536,
    ensures
        forall|x: u16| s.contains(x),
{
    assert forall|x: u16| s.contains(x) by {
        lemma_sorted_lower(s, x as int);
        lemma_sorted_upper(s, x as int);
        assert(s[x as int] == x);
    }
}

proof fn lemma_sorted_identity(s: Seq<u16>, i: int)
    requires
        strictly_sorted(s),
        forall|x: u16| s.contains(x),
        0 <= i < s.len(),
        s.len() <= 65536,
    ensures
        forall|k: int| 0 <= k <= i ==> s[k] == k,
    decreases i,
{
    if i > 0 {
        lemma_sorted_identity(s, i - 1);
    }
    let v = i as u16;
    assert(s.contains(v));
    let j = choose|j: int| 0 <= j < s.len() && s[j] == v;
    if j < i {
        assert(s[j] == j);
    }
    lemma_sorted_lower(s, i);
    if j > i {
        assert(s[i] < s[j]);
    }
}

/// A strictly sorted sequence of fewer than 65536 values of `u16` misses one.
pub proof fn lemma_sorted_missing(s: Seq<u16>)
    requires
        strictly_sorted(s),
        s.len() < 65536,
    ensures
        exists|x: u16| !s.contains(x),
{
    if forall|x: u16| s.contains(x) {
        assert(s.contains(65535u16));
        let j = choose|j: int| 0 <= j < s.len() && s[j] == 65535u16;
        lemma_sorted_identity(s, s.len() - 1);
        assert(s[j] == j);
    }
}

/// Finds `x` in a strictly sorted vector, or the place where it would go.
pub fn search_u16(v: &Vec<u16>, x: u16) -> (r: Result<usize, usize>)
    requires
        strictly_sorted(v@),
    ensures
        match r {
            Ok(i) => i < v@.len() && v@[i as int] == x,
            Err(i) => i <= v@.len() && (forall|k: int| 0 <= k < i ==> v@[k] < x) && (forall|k: int|
                i <= k < v@.len() ==> v@[k] > x),
        },
{
    let mut lo: usize = 0;
    let mut hi: usize = v.len();
    while lo < hi
        invariant
            0 <= lo <= hi <= v@.len(),
            strictly_sorted(v@),
            forall|k: int| 0 <= k < lo ==> v@[k] < x,
            forall|k: int| hi <= k < v@.len() ==> v@[k] > x,
        decreases hi - lo,
    {
        let mid = lo + (hi - lo) / 2;
        if v[mid] == x {
            return Ok(mid);
        } else if v[mid] < x {
            lo = mid + 1;
        } else {
            hi = mid;
        }
    }
    Err(lo)
}

proof fn lemma_insert_sorted(s: Seq<u16>, i: int, x: u16)
    requires
        strictly_sorted(s),
        0 <= i <= s.len(),
        forall|k: int| 0 <= k < i ==> s[k] < x,
        forall|k: int| i <= k < s.len() ==> s[k] > x,
    ensures
        strictly_sorted(s.insert(i, x)),
        forall|y: u16| s.insert(i, x).contains(y) <==> (s.contains(y) || y == x),
{
    let t = s.insert(i, x);
    assert forall|a: int, b: int| 0 <= a < b < t.len() implies t[a] < t[b] by {
        if b < i {
        } else if b == i {
        } else if a < i {
        } else if a == i {
        } else {
        }
    }
    assert forall|y: u16| t.contains(y) <==> (s.contains(y) || y == x) by {
        if t.contains(y) {
            let k = choose|k: int| 0 <= k < t.len() && t[k] == y;
            if k < i {
                assert(s[k] == y);
            } else if k > i {
                assert(s[k - 1] == y);
            }
        }
        if s.contains(y) {
            let k = choose|k: int| 0 <= k < s.len() && s[k] == y;
            if k < i {
                assert(t[k] == y);
            } else {
                assert(t[k + 1] == y);
            }
        }
        if y == x {
            assert(t[i] == y);
        }
    }
}

proof fn lemma_remove_sorted(s: Seq<u16>, i: int)
    requires
        strictly_sorted(s),
        0 <= i < s.len(),
    ensures
        strictly_sorted(s.remove(i)),
        forall|y: u16| s.remove(i).contains(y) <==> (s.contains(y) && y != s[i]),
{
    let t = s.remove(i);
    assert forall|a: int, b: int| 0 <= a < b < t.len() implies t[a] < t[b] by {
        if b < i {
        } else if a < i {
            assert(s[a] < s[b + 1]);
        } else {
            assert(s[a + 1] < s[b + 1]);
        }
    }
    assert forall|y: u16| t.contains(y) <==> (s.contains(y) && y != s[i]) by {
        if t.contains(y) {
            let k = choose|k: int| 0 <= k < t.len() && t[k] == y;
            if k < i {
                assert(s[k] == y);
            } else {
                assert(s[k + 1] == y);
            }
        }
        if s.contains(y) && y != s[i] {
            let k = choose|k: int| 0 <= k < s.len() && s[k] == y;
            if k < i {
                assert(t[k] == y);
            } else {
                assert(t[k - 1] == y);
            }
        }
    }
}

/// Every `u16` but `x`, in increasing order.
fn all_but(x: u16) -> (v: Vec<u16>)
    ensures
        strictly_sorted(v@),
        v@.len() == 65535,
        forall|y: u16| v@.contains(y) <==> y != x,
{
    let mut v: Vec<u16> = Vec::new();
    let mut k: u32 = 0;
    while k < 65536
        invariant
            k <= 65536,
            strictly_sorted(v@),
            forall|j: int| 0 <= j < v@.len() ==> v@[j] < k,
            forall|y: u16| v@.contains(y) <==> (y < k && y != x),
            v@.len() == if x < k { k - 1 } else { k as int },
        decreases 65536 - k,
    {
        let ghost old_v = v@;
        if k != x as u32 {
            v.push(k as u16);
            proof {
                let kk = k as u16;
                assert(kk as int == k as int);
                assert(kk != x);
                assert(v@ == old_v.push(kk));
                assert forall|y: u16| v@.contains(y) <==> (y < k + 1 && y != x) by {
                    if v@.contains(y) {
                        let j = choose|j: int| 0 <= j < v@.len() && v@[j] == y;
                        if j < old_v.len() {
                            assert(old_v[j] == y);
                            assert(old_v.contains(y));
                        } else {
                            assert(y == kk);
                        }
                    }
                    if y < k + 1 && y != x {
                        if y < k {
                            assert(old_v.contains(y));
                            let j = choose|j: int| 0 <= j < old_v.len() && old_v[j] == y;
                            assert(v@[j] == y);
                        } else {
                            assert(y == kk);
                            assert(v@[old_v.len() as int] == y);
                        }
                    }
                }
            }
        } else {
            proof {
                assert forall|y: u16| v@.contains(y) <==> (y < k + 1 && y != x) by {
                    if y == k {
                        assert(y == x);
                    }
                }
            }
        }
        k = k + 1;
    }
    proof {
        assert forall|y: u16| v@.contains(y) <==> y != x by {
            assert(y < 65536);
        }
    }
    v
}

/// The low halves of the values that share one container.
#[derive(Debug, PartialEq, Eq)]
pub enum Store {
    /// The values present, in increasing order; never all of them.
    Array(Vec<u16>),
    /// Every one of the 65536 values.
    Full,
}

impl View for Store {
    type V = Set<u16>;

    open spec fn view(&self) -> Set<u16> {
        match self {
            Store::Array(v) => Set::new(|x: u16| v@.contains(x)),
            Store::Full => Set::full(),
        }
    }
}

impl Store {
    pub open spec fn wf(&self) -> bool {
        match self {
            Store::Array(v) => strictly_sorted(v@) && v@.len() < 65536,
            Store::Full => true,
        }
    }

    /// Empty stores are only ever transient: a bitmap drops them.
    pub open spec fn nonempty(&self) -> bool {
        match self {
            Store::Array(v) => v@.len() > 0,
            Store::Full => true,
        }
    }

    pub proof fn lemma_nonempty(&self)
        requires
            self.wf(),
        ensures
            self.nonempty() <==> exists|x: u16| self@.contains(x),
    {
        match self {
            Store::Array(v) => {
                if v@.len() > 0 {
                    assert(self@.contains(v@[0]));
                }
            },
            Store::Full => {
                assert(self@.contains(0u16));
            },
        }
    }

    pub proof fn lemma_not_full(&self)
        requires
            self.wf(),
            self is Array,
        ensures
            exists|x: u16| !self@.contains(x),
    {
        if let Store::Array(v) = self {
            lemma_sorted_missing(v@);
            let x = choose|x: u16| !v@.contains(x);
            assert(!self@.contains(x));
        }
    }

    pub fn new() -> (r: Store)
        ensures
            r.wf(),
            r@ == Set::<u16>::empty(),
    {
        let r = Store::Array(Vec::new());
        assert(r@ =~= Set::<u16>::empty());
        r
    }

    pub fn contains(&self, x: u16) -> (r: bool)
        requires
            self.wf(),
        ensures
            r == self@.contains(x),
    {
        match self {
            Store::Array(v) => match search_u16(v, x) {
                Ok(_) => true,
                Err(_) => false,
            },
            Store::Full => true,
        }
    }

    pub fn is_empty(&self) -> (r: bool)
        requires
            self.wf(),
        ensures
            r == (self@ == Set::<u16>::empty()),
    {
        proof {
            self.lemma_nonempty();
        }
        match self {
            Store::Array(v) => {
                if v.len() == 0 {
                    assert(self@ =~= Set::<u16>::empty());
                    true
                } else {
                    assert(self@.contains(v@[0]));
                    false
                }
            },
            Store::Full => {
                assert(self@.contains(0u16));
                false
            },
        }
    }

    pub fn is_full(&self) -> (r: bool)
        requires
            self.wf(),
        ensures
            r == (self@ == Set::<u16>::full()),
            r == (self is Full),
    {
        match self {
            Store::Array(_) => {
                proof {
                    self.lemma_not_full();
                }
                false
            },
            Store::Full => true,
        }
    }

    /// Adds `x`; says whether it was absent.
    pub fn insert(&mut self, x: u16) -> (r: bool)
        requires
            old(self).wf(),
        ensures
            final(self).wf(),
            final(self)@ == old(self)@.insert(x),
            r == !old(self)@.contains(x),
    {
        let ghost target = old(self)@.insert(x);
        let becomes_full = match self {
            Store::Full => {
                assert(old(self)@.insert(x) =~= old(self)@);
                return false;
            },
            Store::Array(v) => {
                match search_u16(v, x) {
                    Ok(_) => {
                        assert(old(self)@.insert(x) =~= old(self)@);
                        return false;
                    },
                    Err(i) => {
                        let ghost ov = v@;
                        proof {
                            lemma_insert_sorted(v@, i as int, x);
                            assert(*old(self) == Store::Array(*v));
                        }
                        v.insert(i, x);
                        let full = v.len() == 65536;
                        proof {
                            if full {
                                lemma_sorted_complete(v@);
                            }
                            assert forall|y: u16| v@.contains(y) <==> target.contains(y) by {
                                assert(old(self)@.contains(y) == ov.contains(y));
                            }
                        }
                        full
                    },
                }
            },
        };
        if becomes_full {
            *self = Store::Full;
        }
        assert(self@ =~= target);
        true
    }

    /// Takes `x` out; says whether it was present.
    pub fn remove(&mut self, x: u16) -> (r: bool)
        requires
            old(self).wf(),
        ensures
            final(self).wf(),
            final(self)@ == old(self)@.remove(x),
            r == old(self)@.contains(x),
    {
        match self {
            Store::Full => {},
            Store::Array(v) => {
                match search_u16(v, x) {
                    Ok(i) => {
                        proof {
                            lemma_remove_sorted(v@, i as int);
                        }
                        v.remove(i);
                        assert(self@ =~= old(self)@.remove(x));
                        return true;
                    },
                    Err(_) => {
                        assert(old(self)@.remove(x) =~= old(self)@);
                        return false;
                    },
                }
            },
        }
        *self = Store::Array(all_but(x));
        assert(self@ =~= old(self)@.remove(x));
        true
    }

    /// Whether no value lies in both stores.
    pub fn is_disjoint(&self, other: &Store) -> (r: bool)
        requires
            self.wf(),
            other.wf(),
        ensures
            r == self@.disjoint(other@),
    {
        match (self, other) {
            (Store::Full, Store::Full) => {
                assert(self@.contains(0u16) && other@.contains(0u16));
                false
            },
            (Store::Full, Store::Array(b)) => {
                if b.len() == 0 {
                    assert forall|x: u16| self@.contains(x) implies !other@.contains(x) by {}
                    true
                } else {
                    assert(self@.contains(b@[0]) && other@.contains(b@[0]));
                    false
                }
            },
            (Store::Array(a), Store::Full) => {
                if a.len() == 0 {
                    assert forall|x: u16| self@.contains(x) implies !other@.contains(x) by {}
                    true
                } else {
                    assert(self@.contains(a@[0]) && other@.contains(a@[0]));
                    false
                }
            },
            (Store::Array(a), Store::Array(b)) => {
                let r = disjoint_sorted(a, b);
                proof {
                    if r {
                        assert forall|x: u16| self@.contains(x) implies !other@.contains(x) by {}
                    } else {
                        let x = choose|x: u16| a@.contains(x) && b@.contains(x);
                        assert(self@.contains(x) && other@.contains(x));
                    }
                }
                r
            },
        }
    }

    /// Whether every value of `self` lies in `other`.
    pub fn is_subset(&self, other: &Store) -> (r: bool)
        requires
            self.wf(),
            other.wf(),
        ensures
            r == self@.subset_of(other@),
    {
        match (self, other) {
            (_, Store::Full) => true,
            (Store::Full, Store::Array(_)) => {
                proof {
                    other.lemma_not_full();
                    let x = choose|x: u16| !other@.contains(x);
                    assert(self@.contains(x));
                }
                false
            },
            (Store::Array(a), Store::Array(b)) => {
                let r = subset_sorted(a, b);
                proof {
                    if r {
                        assert forall|x: u16| self@.contains(x) implies other@.contains(x) by {}
                    } else {
                        let x = choose|x: u16| a@.contains(x) && !b@.contains(x);
                        assert(self@.contains(x) && !other@.contains(x));
                    }
                }
                r
            },
        }
    }
}

/// Whether two strictly sorted vectors share no element.
fn disjoint_sorted(a: &Vec<u16>, b: &Vec<u16>) -> (r: bool)
    requires
        strictly_sorted(a@),
        strictly_sorted(b@),
    ensures
        r == (forall|x: u16| a@.contains(x) ==> !b@.contains(x)),
{
    let mut i: usize = 0;
    let mut j: usize = 0;
    while i < a.len() && j < b.len()
        invariant
            i <= a@.len(),
            j <= b@.len(),
            strictly_sorted(a@),
            strictly_sorted(b@),
            i < a@.len() ==> forall|k: int| 0 <= k < j ==> b@[k] < a@[i as int],
            j < b@.len() ==> forall|k: int| 0 <= k < i ==> a@[k] < b@[j as int],
            forall|k: int| 0 <= k < i ==> !b@.contains(a@[k]),
            forall|k: int| 0 <= k < j ==> !a@.contains(b@[k]),
        decreases a@.len() + b@.len() - i - j,
    {
        if a[i] == b[j] {
            assert(a@.contains(a@[i as int]) && b@.contains(a@[i as int]));
            return false;
        } else if a[i] < b[j] {
            proof {
                if b@.contains(a@[i as int]) {
                    let k = choose|k: int| 0 <= k < b@.len() && b@[k] == a@[i as int];
                    if k >= j {
                        assert(b@[j as int] <= b@[k]);
                    }
                }
            }
            i = i + 1;
        } else {
            proof {
                if a@.contains(b@[j as int]) {
                    let k = choose|k: int| 0 <= k < a@.len() && a@[k] == b@[j as int];
                    if k >= i {
                        assert(a@[i as int] <= a@[k]);
                    }
                }
            }
            j = j + 1;
        }
    }
    proof {
        assert forall|x: u16| a@.contains(x) implies !b@.contains(x) by {
            let k = choose|k: int| 0 <= k < a@.len() && a@[k] == x;
            if i == a@.len() {
                assert(!b@.contains(a@[k]));
            } else {
                if b@.contains(x) {
                    let m = choose|m: int| 0 <= m < b@.len() && b@[m] == x;
                    assert(!a@.contains(b@[m]));
                }
            }
        }
    }
    true
}

/// Whether every element of one strictly sorted vector lies in another.
fn subset_sorted(a: &Vec<u16>, b: &Vec<u16>) -> (r: bool)
    requires
        strictly_sorted(a@),
        strictly_sorted(b@),
    ensures
        r == (forall|x: u16| a@.contains(x) ==> b@.contains(x)),
{
    let mut i: usize = 0;
    let mut j: usize = 0;
    while i < a.len() && j < b.len()
        invariant
            i <= a@.len(),
            j <= b@.len(),
            strictly_sorted(a@),
            strictly_sorted(b@),
            i < a@.len() ==> forall|k: int| 0 <= k < j ==> b@[k] < a@[i as int],
            forall|k: int| 0 <= k < i ==> b@.contains(a@[k]),
        decreases a@.len() + b@.len() - i - j,
    {
        if a[i] == b[j] {
            assert(b@.contains(a@[i as int]));
            i = i + 1;
            j = j + 1;
        } else if a[i] < b[j] {
            proof {
                let x = a@[i as int];
                assert(a@.contains(x));
                if b@.contains(x) {
                    let k = choose|k: int| 0 <= k < b@.len() && b@[k] == x;
                    if k >= j {
                        assert(b@[j as int] <= b@[k]);
                    }
                }
            }
            return false;
        } else {
            j = j + 1;
        }
    }
    if i < a.len() {
        proof {
            let x = a@[i as int];
            assert(a@.contains(x));
            if b@.contains(x) {
                let k = choose|k: int| 0 <= k < b@.len() && b@[k] == x;
            }
        }
        return false;
    }
    proof {
        assert forall|x: u16| a@.contains(x) implies b@.contains(x) by {
            let k = choose|k: int| 0 <= k < a@.len() && a@[k] == x;
        }
    }
    true
}

impl Store {
    /// The two stores hold the same values in the same layout.
    pub open spec fn same_as(&self, other: &Store) -> bool {
        match (self, other) {
            (Store::Array(a), Store::Array(b)) => a@ == b@,
            (Store::Full, Store::Full) => true,
            _ => false,
        }
    }
}

impl Clone for Store {
    fn clone(&self) -> (r: Self)
        ensures
            r.same_as(self),
    {
        match self {
            Store::Array(v) => {
                let c = v.clone();
                assert(c@ =~= v@);
                Store::Array(c)
            },
            Store::Full => Store::Full,
        }
    }
}

} // verus!
