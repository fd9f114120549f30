//! The permutation entity: an immutable sequence holding each value of
//! `0..n` exactly once, together with the extend / remove-at operations that
//! the avoidance-class builder drives.
use vstd::prelude::*;

verus! {

/// The values of `s`, read as mathematical integers.
pub open spec fn to_int_seq(s: Seq<usize>) -> Seq<int> {
    s.map_values(|x: usize| x as int)
}

/// `s` is a permutation of `{0, ..., s.len() - 1}`: every value lies in
/// range and no value repeats.
pub open spec fn is_perm_seq(s: Seq<int>) -> bool {
    &&& forall|i: int| 0 <= i < s.len() ==> 0 <= #[trigger] s[i] < s.len()
    &&& forall|i: int, j: int| 0 <= i < j < s.len() ==> s[i] != s[j]
}

/// Extending `s` with value `v`: every existing value `>= v` moves up by
/// one and `v` is appended as the new last element.
pub open spec fn append_spec(s: Seq<int>, v: int) -> Seq<int> {
    s.map_values(|x: int| if x >= v { x + 1 } else { x }).push(v)
}

/// Removing position `i` from `s`: the entry is deleted and every value
/// greater than the deleted one moves down by one.
pub open spec fn remove_spec(s: Seq<int>, i: int) -> Seq<int> {
    s.remove(i).map_values(|x: int| if x > s[i] { x - 1 } else { x })
}

/// A permutation of `{0, ..., n-1}`. Immutable once constructed; growing or
/// shrinking operations return a new permutation.
#[derive(Debug, Hash, Eq)]
pub struct Perm {
    val: Vec<usize>,
}

impl View for Perm {
    type V = Seq<int>;

    closed spec fn view(&self) -> Seq<int> {
        to_int_seq(self.val@)
    }
}

impl Clone for Perm {
    fn clone(&self) -> (r: Perm)
        ensures
            r@ == self@,
    {
        let mut out: Vec<usize> = Vec::new();
        let n: usize = self.val.len();
        let mut i: usize = 0;
        while i < n
            invariant
                n == self.val.len(),
                0 <= i <= n,
                out.len() == i,
                forall|j: int| 0 <= j < i ==> out@[j] == self.val@[j],
            decreases n - i,
        {
            out.push(self.val[i]);
            i += 1;
        }
        proof {
            assert(out@ =~= self.val@);
        }
        Perm { val: out }
    }
}

impl PartialEq for Perm {
    fn eq(&self, other: &Perm) -> (r: bool) {
        if self.val.len() != other.val.len() {
            proof {
                assert(self@.len() == self.val@.len());
                assert(other@.len() == other.val@.len());
            }
            return false;
        }
        let n: usize = self.val.len();
        let mut i: usize = 0;
        while i < n
            invariant
                n == self.val.len() == other.val.len(),
                0 <= i <= n,
                forall|j: int| 0 <= j < i ==> self@[j] == other@[j],
            decreases n - i,
        {
            proof {
                assert(self@[i as int] == self.val@[i as int] as int);
                assert(other@[i as int] == other.val@[i as int] as int);
            }
            if self.val[i] != other.val[i] {
                return false;
            }
            i += 1;
        }
        proof {
            assert(self@ =~= other@);
        }
        true
    }
}

impl vstd::std_specs::cmp::PartialEqSpecImpl for Perm {
    open spec fn obeys_eq_spec() -> bool {
        true
    }

    open spec fn eq_spec(&self, other: &Perm) -> bool {
        self@ == other@
    }
}

impl Perm {
    /// The value sequence is a valid permutation.
    pub open spec fn wf(&self) -> bool {
        is_perm_seq(self@)
    }

    /// Wraps an already-validated value sequence.
    pub fn new(val: Vec<usize>) -> (p: Perm)
        requires
            is_perm_seq(to_int_seq(val@)),
        ensures
            p@ == to_int_seq(val@),
            p.wf(),
    {
        Perm { val }
    }

    /// Checked constructor: wraps the sequence exactly when it is a
    /// permutation of `{0, ..., len-1}`, and rejects it otherwise.
    pub fn try_new(val: Vec<usize>) -> (r: Option<Perm>)
        ensures
            r is Some <==> is_perm_seq(to_int_seq(val@)),
            r matches Some(p) ==> p@ == to_int_seq(val@) && p.wf(),
    {
        let ghost s = to_int_seq(val@);
        let n: usize = val.len();
        let mut seen: Vec<bool> = Vec::new();
        let mut k: usize = 0;
        while k < n
            invariant
                seen.len() == k <= n,
                forall|j: int| 0 <= j < k ==> !(#[trigger] seen@[j]),
            decreases n - k,
        {
            seen.push(false);
            k += 1;
        }
        let mut i: usize = 0;
        while i < n
            invariant
                s == to_int_seq(val@),
                n == val.len() == seen.len(),
                n == s.len(),
                0 <= i <= n,
                forall|j: int| 0 <= j < i ==> 0 <= #[trigger] s[j] < n,
                forall|a: int, b: int| 0 <= a < b < i ==> s[a] != s[b],
                forall|v: int| 0 <= v < n ==>
                    ((#[trigger] seen@[v]) <==> exists|j: int| 0 <= j < i && s[j] == v),
            decreases n - i,
        {
            let v: usize = val[i];
            proof {
                assert(s[i as int] == v as int);
            }
            if v >= n {
                proof {
                    if is_perm_seq(s) {
                        assert(0 <= s[i as int] < s.len());
                        assert(false);
                    }
                }
                return None;
            }
            if seen[v] {
                proof {
                    let j = choose|j: int| 0 <= j < i && s[j] == v as int;
                    if is_perm_seq(s) {
                        assert(s[j] != s[i as int]);
                        assert(false);
                    }
                }
                return None;
            }
            proof {
                assert(!(exists|j: int| 0 <= j < i && s[j] == v as int));
            }
            seen.set(v, true);
            proof {
                assert forall|u: int| 0 <= u < n implies
                    ((#[trigger] seen@[u]) <==> exists|j: int| 0 <= j < i + 1 && s[j] == u) by {
                    if u == v as int {
                        assert(s[i as int] == u);
                    } else {
                        if seen@[u] {
                            let j = choose|j: int| 0 <= j < i && s[j] == u;
                            assert(0 <= j < i + 1 && s[j] == u);
                        }
                        if exists|j: int| 0 <= j < i + 1 && s[j] == u {
                            let j = choose|j: int| 0 <= j < i + 1 && s[j] == u;
                            assert(j < i);
                        }
                    }
                }
                assert forall|a: int, b: int| 0 <= a < b < i + 1 implies s[a] != s[b] by {
                    if b == i as int && s[a] == s[b] {
                        assert(0 <= a < i && s[a] == v as int);
                        assert(false);
                    }
                }
            }
            i += 1;
        }
        proof {
            assert(is_perm_seq(s));
        }
        Some(Perm { val })
    }

    /// The number of elements.
    pub fn len(&self) -> (n: usize)
        ensures
            n == self@.len(),
    {
        self.val.len()
    }

    /// The value at position `i`.
    pub fn value_at(&self, i: usize) -> (v: usize)
        requires
            i < self@.len(),
        ensures
            v == self@[i as int],
    {
        self.val[i]
    }

    /// A new permutation one longer: existing values `>= v` move up by one
    /// and `v` becomes the last element.
    pub fn append(&self, v: usize) -> (p: Perm)
        requires
            self.wf(),
            v <= self@.len(),
            self@.len() < usize::MAX,
        ensures
            p@ == append_spec(self@, v as int),
            p.wf(),
            p@.len() == self@.len() + 1,
    {
        let n: usize = self.val.len();
        let mut out: Vec<usize> = Vec::new();
        let mut i: usize = 0;
        while i < n
            invariant
                n == self.val.len(),
                n == self@.len(),
                self.wf(),
                v <= n < usize::MAX,
                0 <= i <= n,
                out.len() == i,
                forall|j: int| 0 <= j < i ==> #[trigger] out@[j] as int
                    == (if self@[j] >= v { self@[j] + 1 } else { self@[j] }),
            decreases n - i,
        {
            proof {
                assert(self@[i as int] == self.val@[i as int] as int);
                assert(0 <= self@[i as int] < n);
            }
            let x: usize = self.val[i];
            if x >= v {
                out.push(x + 1);
            } else {
                out.push(x);
            }
            i += 1;
        }
        out.push(v);
        proof {
            let t = append_spec(self@, v as int);
            assert forall|j: int| 0 <= j < t.len() implies to_int_seq(out@)[j] == t[j] by {
                assert(to_int_seq(out@)[j] == out@[j] as int);
            }
            assert(to_int_seq(out@) =~= t);
            lemma_append_wf(self@, v as int);
        }
        Perm { val: out }
    }

    /// A new permutation one shorter: position `i` is deleted and every
    /// remaining value greater than the deleted one moves down by one.
    pub fn remove(&self, i: usize) -> (p: Perm)
        requires
            self.wf(),
            i < self@.len(),
        ensures
            p@ == remove_spec(self@, i as int),
            p.wf(),
            p@.len() == self@.len() - 1,
    {
        let n: usize = self.val.len();
        proof {
            assert(self@[i as int] == self.val@[i as int] as int);
        }
        let w: usize = self.val[i];
        let mut out: Vec<usize> = Vec::new();
        let mut j: usize = 0;
        while j < n
            invariant
                n == self.val.len(),
                n == self@.len(),
                self.wf(),
                i < n,
                w == self@[i as int],
                0 <= j <= n,
                out.len() == (if j <= i { j as int } else { j - 1 }),
                forall|k: int| 0 <= k < out.len() ==> #[trigger] out@[k] as int
                    == (if (if k < i { self@[k] } else { self@[k + 1] }) > w {
                        (if k < i { self@[k] } else { self@[k + 1] }) - 1
                    } else {
                        (if k < i { self@[k] } else { self@[k + 1] })
                    }),
            decreases n - j,
        {
            if j != i {
                proof {
                    assert(self@[j as int] == self.val@[j as int] as int);
                    assert(0 <= self@[j as int] < n);
                }
                let x: usize = self.val[j];
                if x > w {
                    out.push(x - 1);
                } else {
                    out.push(x);
                }
            }
            j += 1;
        }
        proof {
            let t = remove_spec(self@, i as int);
            assert(t.len() == n - 1);
            assert forall|k: int| 0 <= k < t.len() implies to_int_seq(out@)[k] == t[k] by {
                assert(to_int_seq(out@)[k] == out@[k] as int);
                assert(self@.remove(i as int)[k] == (if k < i { self@[k] } else { self@[k + 1] }));
            }
            assert(to_int_seq(out@) =~= t);
            lemma_remove_wf(self@, i as int);
        }
        Perm { val: out }
    }
}

/// Some earlier position holds a value below the one at `k`.
pub open spec fn has_smaller_left(s: Seq<int>, k: int) -> bool {
    exists|j: int| 0 <= j < k && s[j] < s[k]
}

/// Some earlier position holds a value above the one at `k`.
pub open spec fn has_larger_left(s: Seq<int>, k: int) -> bool {
    exists|j: int| 0 <= j < k && s[j] > s[k]
}

/// `j` is the left floor of `k`: the earlier position holding the largest
/// value that is still below the value at `k`.
pub open spec fn is_left_floor(s: Seq<int>, k: int, j: int) -> bool {
    &&& 0 <= j < k
    &&& s[j] < s[k]
    &&& forall|l: int| 0 <= l < k && #[trigger] s[l] < s[k] ==> s[l] <= s[j]
}

/// `j` is the left ceiling of `k`: the earlier position holding the
/// smallest value that is still above the value at `k`.
pub open spec fn is_left_ceiling(s: Seq<int>, k: int, j: int) -> bool {
    &&& 0 <= j < k
    &&& s[j] > s[k]
    &&& forall|l: int| 0 <= l < k && #[trigger] s[l] > s[k] ==> s[l] >= s[j]
}

/// The floor half of one `left_inf_sup` entry is exact.
pub open spec fn floor_entry_ok(s: Seq<int>, k: int, e: Option<usize>) -> bool {
    match e {
        None => !has_smaller_left(s, k),
        Some(j) => is_left_floor(s, k, j as int),
    }
}

/// The ceiling half of one `left_inf_sup` entry is exact.
pub open spec fn ceiling_entry_ok(s: Seq<int>, k: int, e: Option<usize>) -> bool {
    match e {
        None => !has_larger_left(s, k),
        Some(j) => is_left_ceiling(s, k, j as int),
    }
}

/// One `pattern_details` entry is exact: floor and ceiling references plus
/// the numeric gap below the value at `k` (down to its floor, or to 0) and
/// above it (up to its ceiling, or to the length).
pub open spec fn detail_ok(s: Seq<int>, k: int, e: (Option<usize>, Option<usize>, usize, usize)) -> bool {
    &&& floor_entry_ok(s, k, e.0)
    &&& ceiling_entry_ok(s, k, e.1)
    &&& e.2 as int == (match e.0 {
        Some(j) => s[k] - s[j as int],
        None => s[k],
    })
    &&& e.3 as int == (match e.1 {
        Some(j) => s[j as int] - s[k],
        None => s.len() - s[k],
    })
}

impl Perm {
    /// For every position `k`, the earlier position holding the nearest
    /// value below the one at `k` and the earlier position holding the
    /// nearest value above it, each absent when no such value was seen yet.
    pub fn left_inf_sup(&self) -> (r: Vec<(Option<usize>, Option<usize>)>)
        requires
            self.wf(),
        ensures
            r@.len() == self@.len(),
            forall|k: int| 0 <= k < r@.len() ==> floor_entry_ok(self@, k, (#[trigger] r@[k]).0),
            forall|k: int| 0 <= k < r@.len() ==> ceiling_entry_ok(self@, k, (#[trigger] r@[k]).1),
    {
        let n: usize = self.val.len();
        let mut r: Vec<(Option<usize>, Option<usize>)> = Vec::new();
        let mut k: usize = 0;
        while k < n
            invariant
                n == self.val.len(),
                n == self@.len(),
                self.wf(),
                0 <= k <= n,
                r@.len() == k,
                forall|q: int| 0 <= q < k ==> floor_entry_ok(self@, q, (#[trigger] r@[q]).0),
                forall|q: int| 0 <= q < k ==> ceiling_entry_ok(self@, q, (#[trigger] r@[q]).1),
            decreases n - k,
        {
            proof {
                assert(self@[k as int] == self.val@[k as int] as int);
            }
            let vk: usize = self.val[k];
            let mut best_f: Option<usize> = None;
            let mut best_c: Option<usize> = None;
            let mut j: usize = 0;
            while j < k
                invariant
                    n == self.val.len(),
                    n == self@.len(),
                    self.wf(),
                    0 <= j <= k < n,
                    vk as int == self@[k as int],
                    match best_f {
                        None => forall|l: int| 0 <= l < j ==> !(#[trigger] self@[l] < self@[k as int]),
                        Some(b) => {
                            &&& 0 <= (b as int) < j
                            &&& self@[b as int] < self@[k as int]
                            &&& forall|l: int| 0 <= l < j && #[trigger] self@[l] < self@[k as int]
                                ==> self@[l] <= self@[b as int]
                        },
                    },
                    match best_c {
                        None => forall|l: int| 0 <= l < j ==> !(#[trigger] self@[l] > self@[k as int]),
                        Some(b) => {
                            &&& 0 <= (b as int) < j
                            &&& self@[b as int] > self@[k as int]
                            &&& forall|l: int| 0 <= l < j && #[trigger] self@[l] > self@[k as int]
                                ==> self@[l] >= self@[b as int]
                        },
                    },
                decreases k - j,
            {
                proof {
                    assert(self@[j as int] == self.val@[j as int] as int);
                }
                let vj: usize = self.val[j];
                if vj < vk {
                    best_f = match best_f {
                        None => Some(j),
                        Some(b) => {
                            proof {
                                assert(self@[b as int] == self.val@[b as int] as int);
                            }
                            if self.val[b] < vj {
                                Some(j)
                            } else {
                                Some(b)
                            }
                        },
                    };
                }
                if vj > vk {
                    best_c = match best_c {
                        None => Some(j),
                        Some(b) => {
                            proof {
                                assert(self@[b as int] == self.val@[b as int] as int);
                            }
                            if self.val[b] > vj {
                                Some(j)
                            } else {
                                Some(b)
                            }
                        },
                    };
                }
                j += 1;
            }
            r.push((best_f, best_c));
            k += 1;
        }
        r
    }

    /// One entry per position: left floor and ceiling references together
    /// with the gap below and the gap above the value there.
    pub fn pattern_details(&self) -> (r: Vec<(Option<usize>, Option<usize>, usize, usize)>)
        requires
            self.wf(),
        ensures
            r@.len() == self@.len(),
            forall|k: int| 0 <= k < r@.len() ==> detail_ok(self@, k, #[trigger] r@[k]),
    {
        let n: usize = self.val.len();
        let neighbors: Vec<(Option<usize>, Option<usize>)> = self.left_inf_sup();
        let mut r: Vec<(Option<usize>, Option<usize>, usize, usize)> = Vec::new();
        let mut k: usize = 0;
        while k < n
            invariant
                n == self.val.len(),
                n == self@.len(),
                self.wf(),
                0 <= k <= n,
                neighbors@.len() == n,
                forall|q: int| 0 <= q < n ==> floor_entry_ok(self@, q, (#[trigger] neighbors@[q]).0),
                forall|q: int| 0 <= q < n ==> ceiling_entry_ok(self@, q, (#[trigger] neighbors@[q]).1),
                r@.len() == k,
                forall|q: int| 0 <= q < k ==> detail_ok(self@, q, #[trigger] r@[q]),
            decreases n - k,
        {
            proof {
                assert(self@[k as int] == self.val@[k as int] as int);
            }
            let vk: usize = self.val[k];
            let (f, c) = neighbors[k];
            let below: usize = match f {
                Some(j) => {
                    proof {
                        assert(self@[j as int] == self.val@[j as int] as int);
                    }
                    vk - self.val[j]
                },
                None => vk,
            };
            let above: usize = match c {
                Some(j) => {
                    proof {
                        assert(self@[j as int] == self.val@[j as int] as int);
                    }
                    self.val[j] - vk
                },
                None => n - vk,
            };
            r.push((f, c, below, above));
            k += 1;
        }
        r
    }
}


/// A permutation of length `n` holds each value of `{0, ..., n-1}` exactly
/// once: the values lie in range, never repeat, and — since the positions
/// map injectively into exactly as many values — every value is attained.
pub proof fn lemma_perm_surjective(p: Seq<int>, w: int)
    requires
        is_perm_seq(p),
        0 <= w < p.len(),
    ensures
        exists|l: int| 0 <= l < p.len() && p[l] == w,
{
    let n = p.len() as int;
    let pos = vstd::set_lib::set_int_range(0, n);
    let f = |l: int| p[l];
    vstd::set_lib::lemma_int_range(0, n);
    assert(vstd::relations::injective_on(f, pos)) by {
        assert forall|x1: int, x2: int|
            pos.contains(x1) && pos.contains(x2) && #[trigger] f(x1) == #[trigger] f(x2) implies x1
            == x2 by {
            if x1 < x2 {
                assert(p[x1] != p[x2]);
            }
            if x2 < x1 {
                assert(p[x2] != p[x1]);
            }
        }
    }
    let img = pos.map(f);
    vstd::set_lib::lemma_map_size(pos, img, f);
    assert(img.subset_of(vstd::set_lib::set_int_range(0, n))) by {
        assert forall|y: int| img.contains(y) implies 0 <= y < n by {
            let l = choose|l: int| pos.contains(l) && y == f(l);
            assert(0 <= p[l] < n);
        }
    }
    vstd::set_lib::lemma_subset_equality(img, vstd::set_lib::set_int_range(0, n));
    assert(img.contains(w));
    let l = choose|l: int| pos.contains(l) && w == f(l);
    assert(0 <= l < p.len() && p[l] == w);
}

/// Extending a permutation with a value in `[0, len]` yields a permutation.
pub proof fn lemma_append_wf(s: Seq<int>, v: int)
    requires
        is_perm_seq(s),
        0 <= v <= s.len(),
    ensures
        is_perm_seq(append_spec(s, v)),
        append_spec(s, v).len() == s.len() + 1,
{
    let t = append_spec(s, v);
    assert forall|i: int| 0 <= i < t.len() implies 0 <= #[trigger] t[i] < t.len() by {
        if i < s.len() {
            assert(t[i] == if s[i] >= v { s[i] + 1 } else { s[i] });
        }
    }
    assert forall|i: int, j: int| 0 <= i < j < t.len() implies t[i] != t[j] by {
        if j < s.len() {
            assert(s[i] != s[j]);
        }
    }
}

/// Extending with `v` and then removing the appended position (the last
/// one, where `v` ends up) gives back the original permutation.
pub proof fn lemma_remove_append(s: Seq<int>, v: int)
    requires
        is_perm_seq(s),
        0 <= v <= s.len(),
    ensures
        remove_spec(append_spec(s, v), s.len() as int) == s,
{
    let t = append_spec(s, v);
    assert(t[s.len() as int] == v);
    let r = remove_spec(t, s.len() as int);
    assert forall|k: int| 0 <= k < s.len() implies r[k] == s[k] by {
        assert(t.remove(s.len() as int)[k] == t[k]);
        assert(t[k] == if s[k] >= v { s[k] + 1 } else { s[k] });
    }
    assert(r =~= s);
}

/// Removing the last position and then extending with the removed value
/// gives back the original permutation. (At an interior position the same
/// round trip instead moves the removed element to the end, so it holds
/// only for the last position.)
pub proof fn lemma_append_remove(s: Seq<int>, i: int)
    requires
        is_perm_seq(s),
        0 <= i,
        i == s.len() - 1,
    ensures
        append_spec(remove_spec(s, i), s[i]) == s,
{
    let w = s[i];
    let r = remove_spec(s, i);
    let t = append_spec(r, w);
    assert forall|k: int| 0 <= k < s.len() implies t[k] == s[k] by {
        if k < i {
            assert(s.remove(i)[k] == s[k]);
            assert(r[k] == if s[k] > w { s[k] - 1 } else { s[k] });
            assert(s[k] != w);
        }
    }
    assert(t =~= s);
}

/// Removing any position from a permutation yields a permutation.
pub proof fn lemma_remove_wf(s: Seq<int>, i: int)
    requires
        is_perm_seq(s),
        0 <= i < s.len(),
    ensures
        is_perm_seq(remove_spec(s, i)),
        remove_spec(s, i).len() == s.len() - 1,
{
    let w = s[i];
    let t = remove_spec(s, i);
    let n = s.len();
    assert forall|k: int| 0 <= k < t.len() implies 0 <= #[trigger] t[k] < t.len() by {
        let src = if k < i { s[k] } else { s[k + 1] };
        assert(t[k] == if src > w { src - 1 } else { src });
        assert(src != w);
        if src < w {
            assert(t[k] == src < w < n);
        }
    }
    assert forall|a: int, b: int| 0 <= a < b < t.len() implies t[a] != t[b] by {
        let sa = if a < i { s[a] } else { s[a + 1] };
        let sb = if b < i { s[b] } else { s[b + 1] };
        assert(sa != sb);
    }
}

} // verus!
