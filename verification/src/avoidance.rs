//! The avoidance-class builder: level by level, the permutations avoiding
//! every pattern of a fixed basis, built inductively through per-permutation
//! caches of the values that are legal to append.
use crate::patt::{
    is_occurrence, lemma_full_length_occurrence_is_equality, lemma_identity_occurrence,
    lemma_increasing_gap, lemma_occurrence_lifts_over_removal, lemma_occurrence_survives_removal,
};
use crate::perm::{
    append_spec, is_perm_seq, lemma_append_remove, lemma_append_wf, lemma_remove_append,
    lemma_remove_wf, remove_spec, to_int_seq, Perm,
};
use vstd::prelude::*;

verus! {

/// Length of the longest basis pattern.
pub open spec fn max_len(bs: Seq<Seq<int>>) -> int
    decreases bs.len(),
{
    if bs.len() == 0 {
        0
    } else {
        let m = max_len(bs.drop_last());
        if bs.last().len() > m {
            bs.last().len() as int
        } else {
            m
        }
    }
}

/// Every basis pattern is at most `max_len` long.
proof fn lemma_max_len_ge(bs: Seq<Seq<int>>, i: int)
    requires
        0 <= i < bs.len(),
    ensures
        bs[i].len() <= max_len(bs),
    decreases bs.len(),
{
    if i == bs.len() - 1 {
    } else {
        lemma_max_len_ge(bs.drop_last(), i);
        assert(bs.drop_last()[i] == bs[i]);
    }
}

/// First probed position: only the last `m` positions of `p` are probed.
pub open spec fn probe_lo(n: int, m: int) -> int {
    if n > m {
        n - m
    } else {
        0
    }
}

/// The renumbering test at probe position `i`: `v` is a potential extension
/// value of `p` when the probed sub-permutation, extended with `v` shifted
/// by the removed value, lies in `level` (the level `p` itself belongs to).
pub open spec fn potential_at(level: Set<Seq<int>>, p: Seq<int>, v: int, i: int) -> bool {
    ||| (v <= p[i] && level.contains(append_spec(remove_spec(p, i), v)))
    ||| (v >= p[i] + 1 && level.contains(append_spec(remove_spec(p, i), v - 1)))
}

/// `v` survives the probe intersection for `p` (which lives in `level`):
/// it is a potential value at every probed position. The empty permutation
/// has the single candidate value 0.
pub open spec fn candidate_ok(level: Set<Seq<int>>, m: int, p: Seq<int>, v: int) -> bool {
    if p.len() == 0 {
        v == 0
    } else {
        &&& 0 <= v <= p.len()
        &&& forall|i: int| probe_lo(p.len() as int, m) <= i < p.len() ==> potential_at(level, p, v, #[trigger] (i + 0))
    }
}

/// `v` is admitted as an extension of `p`: it survives the probes, and a
/// new permutation short enough to coincide with a basis pattern must not
/// literally equal one.
pub open spec fn admissible(basis: Seq<Seq<int>>, level: Set<Seq<int>>, p: Seq<int>, v: int) -> bool {
    &&& candidate_ok(level, max_len(basis), p, v)
    &&& (p.len() + 1 <= max_len(basis) ==> !basis.contains(append_spec(p, v)))
}

/// The contents of cache level `n`, as a set of value sequences: level 0 is
/// the empty permutation alone, and each next level holds exactly the
/// admitted extensions of the previous one.
pub open spec fn level_spec(basis: Seq<Seq<int>>, n: nat) -> Set<Seq<int>>
    decreases n,
{
    if n == 0 {
        Set::<Seq<int>>::empty().insert(Seq::<int>::empty())
    } else {
        let prev = level_spec(basis, (n - 1) as nat);
        Set::new(
            |q: Seq<int>|
                exists|p: Seq<int>, v: int|
                    prev.contains(p) && #[trigger] admissible(basis, prev, p, v) && q == append_spec(
                        p,
                        v,
                    ),
        )
    }
}

/// Every member of cache level `n` is a permutation of length `n`.
pub proof fn lemma_level_elems(basis: Seq<Seq<int>>, n: nat, q: Seq<int>)
    requires
        level_spec(basis, n).contains(q),
    ensures
        is_perm_seq(q),
        q.len() == n,
    decreases n,
{
    if n == 0 {
        assert(q == Seq::<int>::empty());
    } else {
        let prev = level_spec(basis, (n - 1) as nat);
        let (p, v) = choose|p: Seq<int>, v: int|
            prev.contains(p) && #[trigger] admissible(basis, prev, p, v) && q == append_spec(p, v);
        lemma_level_elems(basis, (n - 1) as nat, p);
        assert(0 <= v <= p.len());
        lemma_append_wf(p, v);
    }
}

/// Two equal extensions come from the same permutation and the same value:
/// the appended value sits last, and the shift it applied can be undone.
proof fn lemma_append_injective(p1: Seq<int>, v1: int, p2: Seq<int>, v2: int)
    requires
        append_spec(p1, v1) == append_spec(p2, v2),
    ensures
        p1 == p2,
        v1 == v2,
{
    let q = append_spec(p1, v1);
    assert(q[q.len() - 1] == v1);
    assert(append_spec(p2, v2)[q.len() - 1] == v2);
    assert(v1 == v2);
    assert forall|j: int| 0 <= j < p1.len() implies p1[j] == p2[j] by {
        assert(q[j] == if p1[j] >= v1 { p1[j] + 1 } else { p1[j] });
        assert(q[j] == if p2[j] >= v2 { p2[j] + 1 } else { p2[j] });
    }
    assert(p1 =~= p2);
}

/// Removing an interior position commutes with extension: deleting position
/// `i < p.len()` from `extend(p, v)` equals extending `remove(p, i)` with
/// `v`, shifted down when the removed value lay below it.
proof fn lemma_commute_remove_append(p: Seq<int>, v: int, i: int)
    requires
        is_perm_seq(p),
        0 <= i < p.len(),
        0 <= v <= p.len(),
    ensures
        remove_spec(append_spec(p, v), i) == append_spec(
            remove_spec(p, i),
            if v <= p[i] {
                v
            } else {
                v - 1
            },
        ),
{
    let n = p.len() as int;
    let q = append_spec(p, v);
    let u = if v <= p[i] { v } else { v - 1 };
    let lhs = remove_spec(q, i);
    let rhs = append_spec(remove_spec(p, i), u);
    let w = q[i];
    assert(w == if p[i] >= v { p[i] + 1 } else { p[i] });
    assert(lhs.len() == n);
    assert(rhs.len() == n);
    assert forall|j: int| 0 <= j < n implies lhs[j] == rhs[j] by {
        let qsrc = if j < i { q[j] } else { q[j + 1] };
        assert(q.remove(i)[j] == qsrc);
        assert(lhs[j] == if qsrc > w { qsrc - 1 } else { qsrc });
        if j == n - 1 {
            assert(qsrc == q[n] == v);
            assert(rhs[j] == u);
        } else {
            let psrc = if j < i { p[j] } else { p[j + 1] };
            assert(p.remove(i)[j] == psrc);
            assert(remove_spec(p, i)[j] == if psrc > p[i] { psrc - 1 } else { psrc });
            assert(qsrc == if psrc >= v { psrc + 1 } else { psrc });
            assert(psrc != p[i]);
        }
    }
    assert(lhs =~= rhs);
}

/// Probed sub-permutations of a level member lie in the previous level:
/// the last probe strips the freshly appended value, and the earlier ones
/// are exactly what the member's own admission test checked.
pub proof fn lemma_remove_in_level(basis: Seq<Seq<int>>, n: nat, q: Seq<int>, i: int)
    requires
        n >= 1,
        level_spec(basis, n).contains(q),
        probe_lo(n as int - 1, max_len(basis)) <= i < n,
    ensures
        level_spec(basis, (n - 1) as nat).contains(remove_spec(q, i)),
{
    let prev = level_spec(basis, (n - 1) as nat);
    let (p, v) = choose|p: Seq<int>, v: int|
        prev.contains(p) && #[trigger] admissible(basis, prev, p, v) && q == append_spec(p, v);
    lemma_level_elems(basis, (n - 1) as nat, p);
    lemma_level_elems(basis, n, q);
    let m = max_len(basis);
    if i == n - 1 {
        lemma_remove_append(p, v);
        assert(remove_spec(q, i) == p);
    } else {
        assert(p.len() > 0);
        assert(candidate_ok(prev, m, p, v));
        assert(probe_lo(p.len() as int, m) <= i < p.len());
        assert(potential_at(prev, p, v, i + 0));
        lemma_commute_remove_append(p, v, i);
        if v <= p[i] {
            assert(prev.contains(append_spec(remove_spec(p, i), v)));
        } else {
            assert(v >= p[i] + 1);
            assert(prev.contains(append_spec(remove_spec(p, i), v - 1)));
        }
    }
}

/// The recorded extension set of `key` is exact for `next` (the level one
/// above the one `key` belongs to): it holds exactly the values whose
/// extension of `key` lies in `next`.
pub open spec fn ext_contents_ok(next: Set<Seq<int>>, key: Seq<int>, ext: Seq<int>) -> bool {
    forall|v: int| #[trigger] ext.contains(v) <==> (0 <= v <= key.len() && next.contains(
        append_spec(key, v),
    ))
}

/// One cache level: an insertion-ordered map from the permutations of one
/// length to an optional recorded set of legal extension values.
pub struct CacheLevel {
    entries: Vec<(Perm, Option<Vec<usize>>)>,
}

impl CacheLevel {
    /// The keys, in insertion order.
    pub closed spec fn key_seq(&self) -> Seq<Seq<int>> {
        self.entries@.map_values(|e: (Perm, Option<Vec<usize>>)| e.0@)
    }

    /// The keys, as a set.
    pub open spec fn key_set(&self) -> Set<Seq<int>> {
        Set::new(|q: Seq<int>| self.key_seq().contains(q))
    }

    pub open spec fn contains_key(&self, q: Seq<int>) -> bool {
        self.key_seq().contains(q)
    }

    /// The recorded extension set of entry `i`, if any.
    pub closed spec fn entry_ext(&self, i: int) -> Option<Seq<int>> {
        match self.entries@[i].1 {
            Some(v) => Some(to_int_seq(v@)),
            None => None,
        }
    }

    /// Keys never repeat.
    pub open spec fn lvl_wf(&self) -> bool {
        forall|a: int, b: int| 0 <= a < b < self.key_seq().len() ==> self.key_seq()[a]
            != self.key_seq()[b]
    }

    pub fn new() -> (r: CacheLevel)
        ensures
            r.key_seq() == Seq::<Seq<int>>::empty(),
            r.lvl_wf(),
    {
        let r = CacheLevel { entries: Vec::new() };
        proof {
            assert(r.key_seq() =~= Seq::<Seq<int>>::empty());
        }
        r
    }

    pub fn len(&self) -> (n: usize)
        ensures
            n == self.key_seq().len(),
    {
        self.entries.len()
    }

    pub fn key_at(&self, i: usize) -> (p: &Perm)
        requires
            i < self.key_seq().len(),
        ensures
            p@ == self.key_seq()[i as int],
    {
        &self.entries[i].0
    }

    /// Position of `p` among the keys, if present.
    pub fn index_of(&self, p: &Perm) -> (r: Option<usize>)
        ensures
            match r {
                Some(i) => 0 <= i < self.key_seq().len() && self.key_seq()[i as int] == p@,
                None => !self.contains_key(p@),
            },
    {
        let n: usize = self.entries.len();
        let mut i: usize = 0;
        while i < n
            invariant
                n == self.key_seq().len(),
                n == self.entries@.len(),
                0 <= i <= n,
                forall|j: int| 0 <= j < i ==> self.key_seq()[j] != p@,
            decreases n - i,
        {
            if self.entries[i].0 == *p {
                return Some(i);
            }
            proof {
                assert(self.key_seq()[i as int] == self.entries@[i as int].0@);
            }
            i += 1;
        }
        proof {
            if self.key_seq().contains(p@) {
                let j = choose|j: int| 0 <= j < n && self.key_seq()[j] == p@;
                assert(false);
            }
        }
        None
    }

    /// A copy of the recorded extension set of entry `i`.
    pub fn ext_at(&self, i: usize) -> (r: Option<Vec<usize>>)
        requires
            i < self.key_seq().len(),
        ensures
            r is Some <==> self.entry_ext(i as int) is Some,
            r matches Some(e) ==> self.entry_ext(i as int) == Some(to_int_seq(e@)),
    {
        match &self.entries[i].1 {
            Some(v) => {
                let mut out: Vec<usize> = Vec::new();
                let m: usize = v.len();
                let mut j: usize = 0;
                while j < m
                    invariant
                        m == v@.len(),
                        0 <= j <= m,
                        out@.len() == j,
                        forall|a: int| 0 <= a < j ==> out@[a] == v@[a],
                    decreases m - j,
                {
                    out.push(v[j]);
                    j += 1;
                }
                proof {
                    assert(out@ =~= v@);
                }
                Some(out)
            },
            None => None,
        }
    }

    /// Records the extension set of entry `i`.
    pub fn set_ext(&mut self, i: usize, ext: Vec<usize>)
        requires
            i < old(self).key_seq().len(),
        ensures
            final(self).key_seq() == old(self).key_seq(),
            final(self).entry_ext(i as int) == Some(to_int_seq(ext@)),
            forall|j: int| 0 <= j < old(self).key_seq().len() && j != i
                ==> final(self).entry_ext(j) == old(self).entry_ext(j),
    {
        let key: Perm = self.entries[i].0.clone();
        self.entries.set(i, (key, Some(ext)));
        proof {
            assert(self.key_seq() =~= old(self).key_seq());
        }
    }

    /// Drops the recorded extension set of entry `i`, keeping the key.
    pub fn clear_ext(&mut self, i: usize)
        requires
            i < old(self).key_seq().len(),
        ensures
            final(self).key_seq() == old(self).key_seq(),
            final(self).entry_ext(i as int) is None,
            forall|j: int| 0 <= j < old(self).key_seq().len() && j != i
                ==> final(self).entry_ext(j) == old(self).entry_ext(j),
    {
        let key: Perm = self.entries[i].0.clone();
        self.entries.set(i, (key, None));
        proof {
            assert(self.key_seq() =~= old(self).key_seq());
        }
    }

    /// Inserts `p` (with no recorded extensions) unless it is present.
    pub fn insert_if_absent(&mut self, p: Perm)
        ensures
            final(self).key_set() == old(self).key_set().insert(p@),
            old(self).lvl_wf() ==> final(self).lvl_wf(),
    {
        match self.index_of(&p) {
            Some(ix) => {
                proof {
                    assert(self.key_seq()[ix as int] == p@);
                    assert(self.key_seq().contains(p@));
                    assert(self.key_set() =~= old(self).key_set().insert(p@));
                }
            },
            None => {
                self.entries.push((p, None));
                proof {
                    assert(self.key_seq() =~= old(self).key_seq().push(p@));
                    assert forall|q: Seq<int>| self.key_set().contains(q) <==> old(self).key_set().insert(p@).contains(q) by {
                        if self.key_seq().contains(q) {
                            let j = choose|j: int| 0 <= j < self.key_seq().len() && self.key_seq()[j] == q;
                            if j < old(self).key_seq().len() {
                                assert(old(self).key_seq().contains(q));
                            } else {
                                assert(q == p@);
                            }
                        }
                        if old(self).key_seq().contains(q) {
                            let j = choose|j: int| 0 <= j < old(self).key_seq().len() && old(self).key_seq()[j] == q;
                            assert(self.key_seq()[j] == q);
                        }
                        if q == p@ {
                            assert(self.key_seq()[self.key_seq().len() - 1] == p@);
                        }
                    }
                    assert(self.key_set() =~= old(self).key_set().insert(p@));
                }
            },
        }
    }
}

/// Membership of a value in a plain vector of values.
fn contains_val(v: &Vec<usize>, x: usize) -> (b: bool)
    ensures
        b <==> to_int_seq(v@).contains(x as int),
{
    let n: usize = v.len();
    let mut i: usize = 0;
    while i < n
        invariant
            n == v@.len(),
            0 <= i <= n,
            forall|j: int| 0 <= j < i ==> to_int_seq(v@)[j] != x as int,
        decreases n - i,
    {
        if v[i] == x {
            proof {
                assert(to_int_seq(v@)[i as int] == x as int);
            }
            return true;
        }
        proof {
            assert(to_int_seq(v@)[i as int] == v@[i as int] as int);
        }
        i += 1;
    }
    proof {
        if to_int_seq(v@).contains(x as int) {
            let j = choose|j: int| 0 <= j < n && to_int_seq(v@)[j] == x as int;
            assert(false);
        }
    }
    false
}

/// Whether `p` literally equals some basis pattern.
fn basis_contains(basis: &Vec<Perm>, p: &Perm) -> (b: bool)
    ensures
        b <==> basis@.map_values(|x: Perm| x@).contains(p@),
{
    let ghost bv = basis@.map_values(|x: Perm| x@);
    let n: usize = basis.len();
    let mut i: usize = 0;
    while i < n
        invariant
            n == basis@.len(),
            bv == basis@.map_values(|x: Perm| x@),
            0 <= i <= n,
            forall|j: int| 0 <= j < i ==> bv[j] != p@,
        decreases n - i,
    {
        if basis[i] == *p {
            proof {
                assert(bv[i as int] == p@);
            }
            return true;
        }
        proof {
            assert(bv[i as int] == basis@[i as int]@);
        }
        i += 1;
    }
    proof {
        if bv.contains(p@) {
            let j = choose|j: int| 0 <= j < n && bv[j] == p@;
            assert(false);
        }
    }
    false
}

/// Appending `x` to a sequence adds exactly `x` to its membership.
proof fn lemma_push_contains(s: Seq<int>, x: int, v: int)
    ensures
        s.push(x).contains(v) <==> (s.contains(v) || v == x),
{
    if s.push(x).contains(v) {
        let j = choose|j: int| 0 <= j < s.push(x).len() && s.push(x)[j] == v;
        if j < s.len() {
            assert(s[j] == v);
        }
    }
    if s.contains(v) {
        let j = choose|j: int| 0 <= j < s.len() && s[j] == v;
        assert(s.push(x)[j] == v);
    }
    if v == x {
        assert(s.push(x)[s.len() as int] == v);
    }
}

/// The probe intersection for one permutation `perm` of the current level:
/// the values that every probed position allows. `curr_set` is the set of
/// value sequences of `perm`'s own level, which the recorded extension sets
/// of the previous level refer to.
fn valid_values(
    perm: &Perm,
    max_patt_len: usize,
    prev_cache_level: Option<&CacheLevel>,
    curr_set: Ghost<Set<Seq<int>>>,
) -> (values: Vec<usize>)
    requires
        perm.wf(),
        max_patt_len >= 1,
        forall|q: Seq<int>| curr_set@.contains(q) ==> is_perm_seq(q) && q.len() == perm@.len(),
        match prev_cache_level {
            None => perm@.len() == 0,
            Some(prev) => {
                &&& perm@.len() >= 1
                &&& forall|i: int|
                    probe_lo(perm@.len() as int, max_patt_len as int) <= i < perm@.len()
                        ==> prev.contains_key(#[trigger] remove_spec(perm@, i))
                &&& forall|i: int, ix: int|
                    probe_lo(perm@.len() as int, max_patt_len as int) <= i < perm@.len() && 0 <= ix
                        < prev.key_seq().len() && prev.key_seq()[ix] == #[trigger] remove_spec(
                        perm@,
                        i,
                    ) ==> match #[trigger] prev.entry_ext(ix) {
                        Some(e) => ext_contents_ok(curr_set@, remove_spec(perm@, i), e),
                        None => false,
                    }
            },
        },
    ensures
        forall|v: int| #[trigger] to_int_seq(values@).contains(v) <==> candidate_ok(
            curr_set@,
            max_patt_len as int,
            perm@,
            v,
        ),
{
    let prev = match prev_cache_level {
        None => {
            let mut r: Vec<usize> = Vec::new();
            r.push(0);
            proof {
                assert(to_int_seq(r@)[0] == 0);
                assert forall|v: int| #[trigger] to_int_seq(r@).contains(v) <==> candidate_ok(
                    curr_set@,
                    max_patt_len as int,
                    perm@,
                    v,
                ) by {
                    if to_int_seq(r@).contains(v) {
                        let j = choose|j: int| 0 <= j < 1 && to_int_seq(r@)[j] == v;
                        assert(v == 0);
                    }
                    if v == 0 {
                        assert(to_int_seq(r@).contains(v));
                    }
                }
            }
            return r;
        },
        Some(prev) => prev,
    };
    let n: usize = perm.len();
    let start: usize = if n >= max_patt_len {
        n - max_patt_len
    } else {
        0
    };
    proof {
        assert(start as int == probe_lo(n as int, max_patt_len as int));
    }
    let mut values_opt: Option<Vec<usize>> = None;
    let mut i: usize = start;
    while i < n
        invariant
            perm.wf(),
            n == perm@.len(),
            max_patt_len >= 1,
            start as int == probe_lo(n as int, max_patt_len as int),
            start <= i <= n,
            start < n,
            forall|q: Seq<int>| curr_set@.contains(q) ==> is_perm_seq(q) && q.len() == n,
            forall|i2: int|
                start <= i2 < n ==> prev.contains_key(#[trigger] remove_spec(perm@, i2)),
            forall|i2: int, ix: int|
                start <= i2 < n && 0 <= ix < prev.key_seq().len() && prev.key_seq()[ix]
                    == #[trigger] remove_spec(perm@, i2) ==> match #[trigger] prev.entry_ext(ix) {
                    Some(e) => ext_contents_ok(curr_set@, remove_spec(perm@, i2), e),
                    None => false,
                },
            match values_opt {
                None => i == start,
                Some(vs) => i > start && forall|v: int| #[trigger] to_int_seq(vs@).contains(v)
                    <==> (0 <= v <= n && forall|i2: int|
                        start <= i2 < i ==> potential_at(curr_set@, perm@, v, #[trigger] (i2 + 0))),
            },
        decreases n - i,
    {
        let val: usize = perm.value_at(i);
        let sub_perm: Perm = perm.remove(i);
        let ix: usize = match prev.index_of(&sub_perm) {
            Some(ix) => ix,
            None => {
                proof {
                    assert(prev.contains_key(remove_spec(perm@, i as int)));
                    assert(false);
                }
                0
            },
        };
        let elements: Vec<usize> = match prev.ext_at(ix) {
            Some(e) => e,
            None => {
                proof {
                    assert(false);
                }
                Vec::new()
            },
        };
        let ghost ext_seq = to_int_seq(elements@);
        proof {
            assert(ext_contents_ok(curr_set@, remove_spec(perm@, i as int), ext_seq));
        }
        // potential values at this probe
        let mut potential: Vec<usize> = Vec::new();
        let en: usize = elements.len();
        let mut a: usize = 0;
        while a < en
            invariant
                en == elements@.len(),
                ext_seq == to_int_seq(elements@),
                ext_contents_ok(curr_set@, remove_spec(perm@, i as int), ext_seq),
                perm.wf(),
                n == perm@.len(),
                i < n,
                val as int == perm@[i as int],
                0 <= a <= en,
                forall|b2: int| 0 <= b2 < potential@.len() ==> exists|a2: int|
                    0 <= a2 < a && ((ext_seq[a2] <= val as int && #[trigger] potential@[b2] as int
                        == ext_seq[a2]) || (ext_seq[a2] >= val as int && potential@[b2] as int
                        == ext_seq[a2] + 1)),
                forall|a2: int| 0 <= a2 < a && #[trigger] ext_seq[a2] <= val as int
                    ==> to_int_seq(potential@).contains(ext_seq[a2]),
                forall|a2: int| 0 <= a2 < a && #[trigger] ext_seq[a2] >= val as int
                    ==> to_int_seq(potential@).contains(ext_seq[a2] + 1),
            decreases en - a,
        {
            let u: usize = elements[a];
            proof {
                assert(ext_seq[a as int] == u as int);
                assert(ext_seq.contains(u as int));
                assert(0 <= u as int <= remove_spec(perm@, i as int).len());
            }
            if u <= val {
                let ghost before = to_int_seq(potential@);
                potential.push(u);
                proof {
                    assert(to_int_seq(potential@) =~= before.push(u as int));
                    assert forall|x: int| before.contains(x) implies to_int_seq(
                        potential@,
                    ).contains(x) by {
                        lemma_push_contains(before, u as int, x);
                    }
                    assert(to_int_seq(potential@)[to_int_seq(potential@).len() - 1] == u as int);
                    assert(to_int_seq(potential@).contains(u as int));
                }
            }
            if u >= val {
                let ghost before = to_int_seq(potential@);
                potential.push(u + 1);
                proof {
                    assert(to_int_seq(potential@) =~= before.push(u + 1));
                    assert forall|x: int| before.contains(x) implies to_int_seq(
                        potential@,
                    ).contains(x) by {
                        lemma_push_contains(before, u as int + 1, x);
                    }
                    assert(to_int_seq(potential@)[to_int_seq(potential@).len() - 1] == u + 1);
                    assert(to_int_seq(potential@).contains(u as int + 1));
                }
            }
            a += 1;
        }
        proof {
            assert forall|v: int| #[trigger] to_int_seq(potential@).contains(v) <==> potential_at(
                curr_set@,
                perm@,
                v,
                i as int,
            ) by {
                let sub = remove_spec(perm@, i as int);
                if to_int_seq(potential@).contains(v) {
                    let b2 = choose|b2: int|
                        0 <= b2 < to_int_seq(potential@).len() && to_int_seq(potential@)[b2] == v;
                    let a2 = choose|a2: int|
                        0 <= a2 < en && ((ext_seq[a2] <= val as int && #[trigger] potential@[b2] as int
                            == ext_seq[a2]) || (ext_seq[a2] >= val as int && potential@[b2] as int
                            == ext_seq[a2] + 1));
                    assert(ext_seq.contains(ext_seq[a2]));
                    if ext_seq[a2] <= val as int && potential@[b2] as int == ext_seq[a2] {
                        assert(curr_set@.contains(append_spec(sub, v)));
                    } else {
                        assert(curr_set@.contains(append_spec(sub, v - 1)));
                    }
                }
                if potential_at(curr_set@, perm@, v, i as int) {
                    if v <= val as int && curr_set@.contains(append_spec(sub, v)) {
                        assert(ext_seq.contains(v)) by {
                            lemma_level_elems_helper(curr_set@, sub, v, n as int);
                        }
                        let a2 = choose|a2: int| 0 <= a2 < ext_seq.len() && ext_seq[a2] == v;
                        assert(to_int_seq(potential@).contains(ext_seq[a2]));
                    } else {
                        assert(v >= val as int + 1 && curr_set@.contains(append_spec(sub, v - 1)));
                        assert(ext_seq.contains(v - 1)) by {
                            lemma_level_elems_helper(curr_set@, sub, v - 1, n as int);
                        }
                        let a2 = choose|a2: int| 0 <= a2 < ext_seq.len() && ext_seq[a2] == v - 1;
                        assert(to_int_seq(potential@).contains(ext_seq[a2] + 1));
                    }
                }
            }
        }
        // intersect with the running set
        values_opt = match values_opt {
            None => Some(potential),
            Some(vec) => {
                let mut tmp: Vec<usize> = Vec::new();
                let pn: usize = potential.len();
                let mut b2: usize = 0;
                while b2 < pn
                    invariant
                        pn == potential@.len(),
                        0 <= b2 <= pn,
                        forall|c: int| 0 <= c < tmp@.len() ==> exists|d: int|
                            0 <= d < b2 && #[trigger] tmp@[c] == potential@[d],
                        forall|x: int| #[trigger] to_int_seq(tmp@).contains(x) ==> (to_int_seq(
                            potential@,
                        ).contains(x) && to_int_seq(vec@).contains(x)),
                        forall|d: int| 0 <= d < b2 && to_int_seq(vec@).contains(
                            #[trigger] potential@[d] as int,
                        ) ==> to_int_seq(tmp@).contains(potential@[d] as int),
                    decreases pn - b2,
                {
                    let x: usize = potential[b2];
                    proof {
                        assert(to_int_seq(potential@)[b2 as int] == x as int);
                        assert(to_int_seq(potential@).contains(x as int));
                    }
                    if contains_val(&vec, x) {
                        let ghost before = to_int_seq(tmp@);
                        tmp.push(x);
                        proof {
                            assert(to_int_seq(tmp@) =~= before.push(x as int));
                            assert forall|y: int| #[trigger] to_int_seq(tmp@).contains(y) implies (
                            to_int_seq(potential@).contains(y) && to_int_seq(vec@).contains(
                                y,
                            )) by {
                                lemma_push_contains(before, x as int, y);
                            }
                            assert forall|y: int| before.contains(y) implies to_int_seq(
                                tmp@,
                            ).contains(y) by {
                                lemma_push_contains(before, x as int, y);
                            }
                            assert(to_int_seq(tmp@)[to_int_seq(tmp@).len() - 1] == x as int);
                            assert(to_int_seq(tmp@).contains(x as int));
                        }
                    }
                    b2 += 1;
                }
                proof {
                    assert forall|x: int| #[trigger] to_int_seq(tmp@).contains(x) <==> (to_int_seq(
                        potential@,
                    ).contains(x) && to_int_seq(vec@).contains(x)) by {
                        if to_int_seq(potential@).contains(x) && to_int_seq(vec@).contains(x) {
                            let d = choose|d: int|
                                0 <= d < pn && to_int_seq(potential@)[d] == x;
                            assert(to_int_seq(vec@).contains(potential@[d] as int));
                        }
                    }
                }
                Some(tmp)
            },
        };
        proof {
            match &values_opt {
                Some(vs) => {
                    assert forall|v: int| #[trigger] to_int_seq(vs@).contains(v) <==> (0 <= v <= n
                        && forall|i2: int|
                        start <= i2 < i + 1 ==> potential_at(
                            curr_set@,
                            perm@,
                            v,
                            #[trigger] (i2 + 0),
                        )) by {
                        if to_int_seq(vs@).contains(v) {
                            assert(potential_at(curr_set@, perm@, v, i as int));
                            if v < 0 || v > n {
                                let sub = remove_spec(perm@, i as int);
                                lemma_level_elems_range(curr_set@, sub, v, val as int, n as int);
                            }
                            assert forall|i2: int| start <= i2 < i + 1 implies potential_at(
                                curr_set@,
                                perm@,
                                v,
                                #[trigger] (i2 + 0),
                            ) by {
                            }
                        }
                        if 0 <= v <= n && (forall|i2: int|
                            start <= i2 < i + 1 ==> potential_at(
                                curr_set@,
                                perm@,
                                v,
                                #[trigger] (i2 + 0),
                            )) {
                            assert(potential_at(curr_set@, perm@, v, i + 0));
                        }
                    }
                },
                None => {
                    assert(false);
                },
            }
        }
        i += 1;
    }
    let values: Vec<usize> = match values_opt {
        Some(v) => v,
        None => {
            proof {
                assert(false);
            }
            Vec::new()
        },
    };
    proof {
        assert forall|v: int| #[trigger] to_int_seq(values@).contains(v) <==> candidate_ok(
            curr_set@,
            max_patt_len as int,
            perm@,
            v,
        ) by {
            assert(candidate_ok(curr_set@, max_patt_len as int, perm@, v) == (0 <= v <= n
                && forall|i2: int|
                start <= i2 < n ==> potential_at(curr_set@, perm@, v, #[trigger] (i2 + 0))));
        }
    }
    values
}

/// A member of a level of length-`n` sequences that extends `sub` with `v`
/// pins `v` inside `[0, sub.len()]`.
proof fn lemma_level_elems_helper(level: Set<Seq<int>>, sub: Seq<int>, v: int, n: int)
    requires
        forall|q: Seq<int>| level.contains(q) ==> is_perm_seq(q) && q.len() == n,
        sub.len() == n - 1,
        level.contains(append_spec(sub, v)),
    ensures
        0 <= v <= sub.len(),
{
    let q = append_spec(sub, v);
    assert(q[q.len() - 1] == v);
    assert(0 <= q[q.len() - 1] < q.len());
}

/// Contrapositive form of the same bound, for values out of range.
proof fn lemma_level_elems_range(level: Set<Seq<int>>, sub: Seq<int>, v: int, val: int, n: int)
    requires
        forall|q: Seq<int>| level.contains(q) ==> is_perm_seq(q) && q.len() == n,
        sub.len() == n - 1,
        (v <= val && level.contains(append_spec(sub, v))) || (v >= val + 1 && level.contains(
            append_spec(sub, v - 1),
        )),
    ensures
        0 <= v <= n,
{
    if v <= val && level.contains(append_spec(sub, v)) {
        lemma_level_elems_helper(level, sub, v, n);
    } else {
        lemma_level_elems_helper(level, sub, v - 1, n);
    }
}

/// The recorded extension sets of every entry of `lvl` are exact for
/// `next`, the level above `lvl`'s own.
pub open spec fn ext_level_ok(lvl: CacheLevel, next: Set<Seq<int>>) -> bool {
    forall|i: int| 0 <= i < lvl.key_seq().len() ==> match #[trigger] lvl.entry_ext(i) {
        Some(e) => ext_contents_ok(next, lvl.key_seq()[i], e),
        None => false,
    }
}

/// An avoidance class: the ordered basis of forbidden patterns, and one
/// cache level per length built so far.
pub struct AvoidanceClass {
    pub basis: Vec<Perm>,
    pub perm_cache: Vec<CacheLevel>,
}

impl AvoidanceClass {
    /// The basis patterns' value sequences, in order.
    pub open spec fn basis_views(&self) -> Seq<Seq<int>> {
        self.basis@.map_values(|p: Perm| p@)
    }

    /// The class is consistent: a non-empty basis of non-empty patterns,
    /// at least the base level, every level holding exactly the contents
    /// the recurrence prescribes, and the second-newest level carrying the
    /// exact extension sets that building the next level will consume.
    pub open spec fn cls_wf(&self) -> bool {
        &&& self.basis@.len() > 0
        &&& forall|b: int| 0 <= b < self.basis@.len() ==> (#[trigger] self.basis@[b]).wf()
            && self.basis@[b]@.len() > 0
        &&& self.perm_cache@.len() >= 1
        &&& forall|l: int| 0 <= l < self.perm_cache@.len() ==> (#[trigger] self.perm_cache@[l]).lvl_wf()
        &&& forall|l: int| 0 <= l < self.perm_cache@.len() ==> (#[trigger] self.perm_cache@[l]).key_set()
            == level_spec(self.basis_views(), l as nat)
        &&& self.perm_cache@.len() >= 2 ==> ext_level_ok(
            self.perm_cache@[self.perm_cache@.len() - 2],
            level_spec(self.basis_views(), (self.perm_cache@.len() - 1) as nat),
        )
    }

    /// A class over `basis`, holding only the base level (the empty
    /// permutation). The basis must be non-empty, with non-empty patterns.
    pub fn new(basis: Vec<Perm>) -> (r: AvoidanceClass)
        requires
            basis@.len() > 0,
            forall|b: int| 0 <= b < basis@.len() ==> (#[trigger] basis@[b]).wf() && basis@[b]@.len()
                > 0,
        ensures
            r.cls_wf(),
            r.basis_views() == basis@.map_values(|p: Perm| p@),
            r.perm_cache@.len() == 1,
    {
        let mut level = CacheLevel::new();
        let empty_vec: Vec<usize> = Vec::new();
        proof {
            assert(to_int_seq(empty_vec@) =~= Seq::<int>::empty());
        }
        let empty_perm = Perm::new(empty_vec);
        level.insert_if_absent(empty_perm);
        let mut perm_cache: Vec<CacheLevel> = Vec::new();
        proof {
            let bv = basis@.map_values(|p: Perm| p@);
            assert(level.key_set() =~= level_spec(bv, 0));
        }
        perm_cache.push(level);
        let r = AvoidanceClass { basis, perm_cache };
        proof {
            assert(r.perm_cache@[0] == r.perm_cache@[r.perm_cache@.len() - 1]);
        }
        r
    }

    /// Builds every cache level up to and including length `n`. The levels
    /// already built are left as they are; each new one holds exactly what
    /// the recurrence over the basis prescribes, so the outcome depends on
    /// the basis alone.
    pub fn build_perm_class(&mut self, n: usize)
        requires
            old(self).cls_wf(),
        ensures
            final(self).cls_wf(),
            final(self).basis_views() == old(self).basis_views(),
            final(self).perm_cache@.len() == (if old(self).perm_cache@.len() > n {
                old(self).perm_cache@.len() as int
            } else {
                n as int + 1
            }),
    {
        let ghost bv = self.basis_views();
        let bn: usize = self.basis.len();
        let mut max_patt_len: usize = 0;
        let mut b: usize = 0;
        while b < bn
            invariant
                *self == *old(self),
                self.cls_wf(),
                bv == self.basis_views(),
                bn == self.basis@.len(),
                0 <= b <= bn,
                max_patt_len as int == max_len(bv.take(b as int)),
            decreases bn - b,
        {
            proof {
                assert(bv[b as int] == self.basis@[b as int]@);
                assert(bv.take(b as int + 1).drop_last() =~= bv.take(b as int));
                assert(bv.take(b as int + 1).last() == bv[b as int]);
            }
            let l: usize = self.basis[b].len();
            if l > max_patt_len {
                max_patt_len = l;
            }
            b += 1;
        }
        proof {
            assert(bv.take(bn as int) =~= bv);
            lemma_max_len_ge(bv, 0);
            assert(bv[0] == self.basis@[0]@);
            assert(bv[0].len() >= 1);
        }
        while self.perm_cache.len() <= n
            invariant
                self.cls_wf(),
                self.basis_views() == bv,
                bv == old(self).basis_views(),
                max_patt_len as int == max_len(bv),
                max_patt_len >= 1,
                old(self).perm_cache@.len() <= self.perm_cache@.len(),
                self.perm_cache@.len() > old(self).perm_cache@.len() ==> self.perm_cache@.len()
                    <= n as int + 1,
            decreases n as int + 1 - self.perm_cache@.len(),
        {
            let ghost pc0 = self.perm_cache@;
            let len: usize = self.perm_cache.len();
            let ghost curr_set = level_spec(bv, (len - 1) as nat);
            let ghost next_set = level_spec(bv, len as nat);
            let mut curr_level: CacheLevel = match self.perm_cache.pop() {
                Some(l) => l,
                None => {
                    proof {
                        assert(false);
                    }
                    CacheLevel::new()
                },
            };
            proof {
                assert(self.perm_cache@ =~= pc0.take(len as int - 1));
                assert(curr_level == pc0[len as int - 1]);
                assert forall|q: Seq<int>| curr_set.contains(q) implies is_perm_seq(q) && q.len()
                    == len - 1 by {
                    lemma_level_elems(bv, (len - 1) as nat, q);
                }
            }
            let ghost curr_keys = curr_level.key_seq();
            let entries_n: usize = curr_level.len();
            let mut new_level: CacheLevel = CacheLevel::new();
            proof {
                assert forall|q: Seq<int>| #[trigger] new_level.contains_key(q) implies false by {
                    assert(new_level.key_seq().len() == 0);
                    let j = choose|j: int|
                        0 <= j < new_level.key_seq().len() && new_level.key_seq()[j] == q;
                }
            }
            let mut idx: usize = 0;
            while idx < entries_n
                invariant
                    self.basis@.len() > 0,
                    forall|b2: int| 0 <= b2 < self.basis@.len() ==> (#[trigger] self.basis@[b2]).wf()
                        && self.basis@[b2]@.len() > 0,
                    bv == self.basis_views(),
                    max_patt_len as int == max_len(bv),
                    max_patt_len >= 1,
                    1 <= len <= usize::MAX,
                    pc0.len() == len,
                    self.perm_cache@ == pc0.take(len as int - 1),
                    len >= 2 ==> (self.perm_cache@[len - 2].lvl_wf() && self.perm_cache@[len
                        - 2].key_set() == level_spec(bv, (len - 2) as nat) && ext_level_ok(
                        self.perm_cache@[len - 2],
                        curr_set,
                    )),
                    curr_set == level_spec(bv, (len - 1) as nat),
                    next_set == level_spec(bv, len as nat),
                    forall|q: Seq<int>| curr_set.contains(q) ==> is_perm_seq(q) && q.len() == len
                        - 1,
                    curr_level.lvl_wf(),
                    curr_level.key_seq() == curr_keys,
                    curr_level.key_set() == curr_set,
                    entries_n == curr_keys.len(),
                    0 <= idx <= entries_n,
                    forall|ix: int| 0 <= ix < idx ==> match #[trigger] curr_level.entry_ext(ix) {
                        Some(e) => forall|v: int| #[trigger] e.contains(v) <==> admissible(
                            bv,
                            curr_set,
                            curr_keys[ix],
                            v,
                        ),
                        None => false,
                    },
                    new_level.lvl_wf(),
                    forall|q: Seq<int>| #[trigger] new_level.contains_key(q) <==> exists|ix: int, v: int|
                        0 <= ix < idx && #[trigger] admissible(bv, curr_set, curr_keys[ix], v) && q
                            == append_spec(curr_keys[ix], v),
                decreases entries_n - idx,
            {
                let key: Perm = curr_level.key_at(idx).clone();
                proof {
                    assert(curr_keys[idx as int] == key@);
                    assert(curr_keys.contains(key@));
                    assert(curr_set.contains(key@));
                }
                let prev_opt: Option<&CacheLevel> = if len >= 2 {
                    Some(&self.perm_cache[len - 2])
                } else {
                    None
                };
                proof {
                    if len >= 2 {
                        assert forall|i: int|
                            probe_lo(key@.len() as int, max_patt_len as int) <= i
                                < key@.len() implies self.perm_cache@[len - 2].contains_key(
                            #[trigger] remove_spec(key@, i),
                        ) by {
                            lemma_remove_in_level(bv, (len - 1) as nat, key@, i);
                        }
                    }
                }
                let values: Vec<usize> = valid_values(
                    &key,
                    max_patt_len,
                    prev_opt,
                    Ghost(curr_set),
                );
                let mut appended: Vec<usize> = Vec::new();
                let vn: usize = values.len();
                let mut j: usize = 0;
                while j < vn
                    invariant
                        self.basis@.len() > 0,
                        forall|b2: int| 0 <= b2 < self.basis@.len() ==> (
                        #[trigger] self.basis@[b2]).wf() && self.basis@[b2]@.len() > 0,
                        bv == self.basis_views(),
                        max_patt_len as int == max_len(bv),
                        forall|q: Seq<int>| curr_set.contains(q) ==> is_perm_seq(q) && q.len()
                            == len - 1,
                        1 <= len <= usize::MAX,
                        key.wf(),
                        key@ == curr_keys[idx as int],
                        key@.len() == len - 1,
                        idx < entries_n,
                        entries_n == curr_keys.len(),
                        vn == values@.len(),
                        0 <= j <= vn,
                        forall|v: int| #[trigger] to_int_seq(values@).contains(v) <==> candidate_ok(
                            curr_set,
                            max_patt_len as int,
                            key@,
                            v,
                        ),
                        forall|c: int| 0 <= c < appended@.len() ==> admissible(
                            bv,
                            curr_set,
                            key@,
                            #[trigger] appended@[c] as int,
                        ),
                        forall|a: int| 0 <= a < j && admissible(
                            bv,
                            curr_set,
                            key@,
                            #[trigger] values@[a] as int,
                        ) ==> to_int_seq(appended@).contains(values@[a] as int),
                        new_level.lvl_wf(),
                        forall|q: Seq<int>| #[trigger] new_level.contains_key(q) <==> ((exists|
                            ix: int,
                            v: int,
                        |
                            0 <= ix < idx && #[trigger] admissible(bv, curr_set, curr_keys[ix], v)
                                && q == append_spec(curr_keys[ix], v)) || (exists|a: int|
                            0 <= a < j && #[trigger] admissible(
                                bv,
                                curr_set,
                                key@,
                                values@[a] as int,
                            ) && q == append_spec(key@, values@[a] as int))),
                    decreases vn - j,
                {
                    let v: usize = values[j];
                    proof {
                        assert(to_int_seq(values@)[j as int] == v as int);
                        assert(to_int_seq(values@).contains(v as int));
                        assert(candidate_ok(curr_set, max_patt_len as int, key@, v as int));
                        assert(0 <= v as int <= key@.len());
                    }
                    let new_perm: Perm = key.append(v);
                    let keep: bool = if len > max_patt_len {
                        true
                    } else {
                        !basis_contains(&self.basis, &new_perm)
                    };
                    proof {
                        assert(new_perm@ == append_spec(key@, v as int));
                        assert(keep == admissible(bv, curr_set, key@, v as int));
                    }
                    if keep {
                        let ghost nl0 = new_level;
                        new_level.insert_if_absent(new_perm);
                        proof {
                            assert forall|q: Seq<int>| #[trigger] new_level.contains_key(q) <==> (
                            nl0.contains_key(q) || q == new_perm@) by {
                                assert(new_level.contains_key(q) == new_level.key_set().contains(
                                    q,
                                ));
                                assert(nl0.contains_key(q) == nl0.key_set().contains(q));
                            }
                        }
                        let ghost ap0 = to_int_seq(appended@);
                        appended.push(v);
                        proof {
                            assert(to_int_seq(appended@) =~= ap0.push(v as int));
                            assert forall|x: int| ap0.contains(x) implies to_int_seq(
                                appended@,
                            ).contains(x) by {
                                lemma_push_contains(ap0, v as int, x);
                            }
                            assert(to_int_seq(appended@)[to_int_seq(appended@).len() - 1]
                                == v as int);
                            assert(to_int_seq(appended@).contains(v as int));
                            assert(appended@[appended@.len() - 1] as int == v as int);
                        }
                    }
                    j += 1;
                }
                proof {
                    assert forall|v: int| #[trigger] to_int_seq(appended@).contains(v)
                        <==> admissible(bv, curr_set, key@, v) by {
                        if to_int_seq(appended@).contains(v) {
                            let c = choose|c: int|
                                0 <= c < to_int_seq(appended@).len() && to_int_seq(appended@)[c]
                                    == v;
                            assert(appended@[c] as int == v);
                            assert(admissible(bv, curr_set, key@, appended@[c] as int));
                        }
                        if admissible(bv, curr_set, key@, v) {
                            assert(candidate_ok(curr_set, max_patt_len as int, key@, v));
                            assert(to_int_seq(values@).contains(v));
                            let a = choose|a: int|
                                0 <= a < vn && to_int_seq(values@)[a] == v;
                            assert(values@[a] as int == v);
                            assert(to_int_seq(appended@).contains(values@[a] as int));
                        }
                    }
                }
                curr_level.set_ext(idx, appended);
                proof {
                    assert forall|q: Seq<int>| #[trigger] new_level.contains_key(q) <==> exists|
                        ix: int,
                        v: int,
                    |
                        0 <= ix < idx + 1 && #[trigger] admissible(bv, curr_set, curr_keys[ix], v)
                            && q == append_spec(curr_keys[ix], v) by {
                        if new_level.contains_key(q) {
                            if exists|a: int|
                                0 <= a < vn && #[trigger] admissible(
                                    bv,
                                    curr_set,
                                    key@,
                                    values@[a] as int,
                                ) && q == append_spec(key@, values@[a] as int) {
                                let a = choose|a: int|
                                    0 <= a < vn && #[trigger] admissible(
                                        bv,
                                        curr_set,
                                        key@,
                                        values@[a] as int,
                                    ) && q == append_spec(key@, values@[a] as int);
                                assert(0 <= idx < idx + 1 && admissible(
                                    bv,
                                    curr_set,
                                    curr_keys[idx as int],
                                    values@[a] as int,
                                ) && q == append_spec(curr_keys[idx as int], values@[a] as int));
                            }
                        }
                        if exists|ix: int, v: int|
                            0 <= ix < idx + 1 && #[trigger] admissible(
                                bv,
                                curr_set,
                                curr_keys[ix],
                                v,
                            ) && q == append_spec(curr_keys[ix], v) {
                            let (ix, v) = choose|ix: int, v: int|
                                0 <= ix < idx + 1 && #[trigger] admissible(
                                    bv,
                                    curr_set,
                                    curr_keys[ix],
                                    v,
                                ) && q == append_spec(curr_keys[ix], v);
                            if ix == idx {
                                assert(candidate_ok(curr_set, max_patt_len as int, key@, v));
                                assert(to_int_seq(values@).contains(v));
                                let a = choose|a: int|
                                    0 <= a < vn && to_int_seq(values@)[a] == v;
                                assert(values@[a] as int == v);
                                assert(admissible(bv, curr_set, key@, values@[a] as int) && q
                                    == append_spec(key@, values@[a] as int));
                            }
                        }
                    }
                }
                idx += 1;
            }
            proof {
                assert forall|q: Seq<int>| new_level.contains_key(q) <==> next_set.contains(
                    q,
                ) by {
                    if new_level.contains_key(q) {
                        let (ix, v) = choose|ix: int, v: int|
                            0 <= ix < entries_n && #[trigger] admissible(
                                bv,
                                curr_set,
                                curr_keys[ix],
                                v,
                            ) && q == append_spec(curr_keys[ix], v);
                        assert(curr_keys.contains(curr_keys[ix]));
                        assert(curr_set.contains(curr_keys[ix]));
                        assert(level_spec(bv, len as nat).contains(q));
                    }
                    if next_set.contains(q) {
                        let (p, v) = choose|p: Seq<int>, v: int|
                            curr_set.contains(p) && #[trigger] admissible(bv, curr_set, p, v) && q
                                == append_spec(p, v);
                        assert(curr_level.key_seq().contains(p));
                        let ix = choose|ix: int| 0 <= ix < curr_keys.len() && curr_keys[ix] == p;
                        assert(0 <= ix < entries_n && admissible(bv, curr_set, curr_keys[ix], v)
                            && q == append_spec(curr_keys[ix], v));
                    }
                }
                assert(new_level.key_set() =~= next_set);
                assert forall|ix: int| 0 <= ix < curr_level.key_seq().len() implies match #[trigger] curr_level.entry_ext(
                    ix,
                ) {
                    Some(e) => ext_contents_ok(next_set, curr_level.key_seq()[ix], e),
                    None => false,
                } by {
                    match curr_level.entry_ext(ix) {
                        Some(e) => {
                            assert forall|v: int| #[trigger] e.contains(v) <==> (0 <= v
                                <= curr_keys[ix].len() && next_set.contains(
                                append_spec(curr_keys[ix], v),
                            )) by {
                                if e.contains(v) {
                                    assert(admissible(bv, curr_set, curr_keys[ix], v));
                                    assert(candidate_ok(
                                        curr_set,
                                        max_patt_len as int,
                                        curr_keys[ix],
                                        v,
                                    ));
                                    assert(curr_keys.contains(curr_keys[ix]));
                                    assert(curr_set.contains(curr_keys[ix]));
                                    assert(next_set.contains(append_spec(curr_keys[ix], v)));
                                }
                                if 0 <= v <= curr_keys[ix].len() && next_set.contains(
                                    append_spec(curr_keys[ix], v),
                                ) {
                                    let (p, v2) = choose|p: Seq<int>, v2: int|
                                        curr_set.contains(p) && #[trigger] admissible(
                                            bv,
                                            curr_set,
                                            p,
                                            v2,
                                        ) && append_spec(curr_keys[ix], v) == append_spec(p, v2);
                                    lemma_append_injective(curr_keys[ix], v, p, v2);
                                    assert(admissible(bv, curr_set, curr_keys[ix], v));
                                }
                            }
                        },
                        None => {
                            assert(false);
                        },
                    }
                }
                assert(ext_level_ok(curr_level, next_set));
            }
            if len >= 2 {
                let mut prev_level: CacheLevel = match self.perm_cache.pop() {
                    Some(l) => l,
                    None => {
                        proof {
                            assert(false);
                        }
                        CacheLevel::new()
                    },
                };
                proof {
                    assert(self.perm_cache@ =~= pc0.take(len as int - 2));
                    assert(prev_level == pc0[len as int - 2]);
                }
                let ghost prev_keys = prev_level.key_seq();
                let pn2: usize = prev_level.len();
                let mut c2: usize = 0;
                while c2 < pn2
                    invariant
                        pn2 == prev_keys.len(),
                        0 <= c2 <= pn2,
                        prev_level.key_seq() == prev_keys,
                        prev_level.lvl_wf(),
                    decreases pn2 - c2,
                {
                    prev_level.clear_ext(c2);
                    c2 += 1;
                }
                proof {
                    assert(prev_level.key_set() =~= pc0[len as int - 2].key_set());
                }
                self.perm_cache.push(prev_level);
            }
            self.perm_cache.push(curr_level);
            self.perm_cache.push(new_level);
            proof {
                let pc = self.perm_cache@;
                assert(pc.len() == len + 1);
                assert forall|l: int| 0 <= l < pc.len() implies (#[trigger] pc[l]).lvl_wf() && pc[
                    l
                ].key_set() == level_spec(bv, l as nat) by {
                    if l < len - 2 {
                        assert(pc[l] == pc0[l]);
                    } else if l == len - 2 {
                        assert(pc[l].key_set() == pc0[l].key_set());
                    } else if l == len - 1 {
                        assert(pc[l] == curr_level);
                        assert(curr_level.key_set() == curr_set);
                    } else {
                        assert(pc[l] == new_level);
                    }
                }
                assert(pc[pc.len() - 2] == curr_level);
                assert(ext_level_ok(pc[pc.len() - 2], level_spec(bv, (pc.len() - 1) as nat)));
            }
        }
    }

    /// The permutations of length `n`, in their level's enumeration order.
    /// Valid only for lengths already built.
    pub fn perms_of_length(&self, n: usize) -> (r: Vec<Perm>)
        requires
            self.cls_wf(),
            n < self.perm_cache@.len(),
        ensures
            r@.len() == self.perm_cache@[n as int].key_seq().len(),
            forall|j: int| 0 <= j < r@.len() ==> (#[trigger] r@[j])@ == self.perm_cache@[
                n as int
            ].key_seq()[j],
    {
        let level: &CacheLevel = &self.perm_cache[n];
        let m: usize = level.len();
        let mut r: Vec<Perm> = Vec::new();
        let mut i: usize = 0;
        while i < m
            invariant
                m == level.key_seq().len(),
                level == self.perm_cache@[n as int],
                0 <= i <= m,
                r@.len() == i,
                forall|j: int| 0 <= j < i ==> (#[trigger] r@[j])@ == level.key_seq()[j],
            decreases m - i,
        {
            r.push(level.key_at(i).clone());
            i += 1;
        }
        r
    }
}

/// The contents of every built level are a function of the basis alone:
/// two classes over the same basis agree, level by level, on the set of
/// permutations they hold, however and how often each was built.
pub proof fn lemma_class_determined(c1: &AvoidanceClass, c2: &AvoidanceClass, l: int)
    requires
        c1.cls_wf(),
        c2.cls_wf(),
        c1.basis_views() == c2.basis_views(),
        0 <= l < c1.perm_cache@.len(),
        l < c2.perm_cache@.len(),
    ensures
        c1.perm_cache@[l].key_set() == c2.perm_cache@[l].key_set(),
{
    assert(c1.perm_cache@[l].key_set() == level_spec(c1.basis_views(), l as nat));
    assert(c2.perm_cache@[l].key_set() == level_spec(c2.basis_views(), l as nat));
}

/// `q` contains no basis pattern: no position tuple in `q` is an
/// occurrence of any pattern of `basis`.
pub open spec fn avoids(basis: Seq<Seq<int>>, q: Seq<int>) -> bool {
    forall|b: int, o: Seq<int>| 0 <= b < basis.len() ==> !#[trigger] is_occurrence(q, basis[b], o)
}

/// Avoidance is closed under deleting a position: an occurrence in the
/// shortened permutation would lift back to one in the original.
pub proof fn lemma_avoids_remove(basis: Seq<Seq<int>>, q: Seq<int>, j: int)
    requires
        is_perm_seq(q),
        0 <= j < q.len(),
        avoids(basis, q),
    ensures
        avoids(basis, remove_spec(q, j)),
{
    let r = remove_spec(q, j);
    assert forall|b: int, o: Seq<int>| 0 <= b < basis.len() implies !#[trigger] is_occurrence(
        r,
        basis[b],
        o,
    ) by {
        if is_occurrence(r, basis[b], o) {
            lemma_occurrence_lifts_over_removal(q, basis[b], o, j);
        }
    }
}

/// `j` appears nowhere in the tuple `o`.
spec fn unused_position(o: Seq<int>, j: int) -> bool {
    forall|a: int| 0 <= a < o.len() ==> o[a] != j
}

/// A tuple shorter than an index interval leaves some interval position
/// unused.
proof fn lemma_free_position(o: Seq<int>, lo: int, hi: int)
    requires
        lo <= hi,
        o.len() < hi - lo,
    ensures
        exists|j: int| lo <= j < hi && #[trigger] unused_position(o, j),
{
    let d = vstd::set_lib::set_int_range(lo, hi);
    let idx = vstd::set_lib::set_int_range(0, o.len() as int);
    let f = |a: int| o[a];
    let img = idx.map(f);
    vstd::set_lib::lemma_int_range(lo, hi);
    vstd::set_lib::lemma_int_range(0, o.len() as int);
    vstd::set_lib::lemma_map_size_bound(idx, img, f);
    if !(exists|j: int| lo <= j < hi && #[trigger] unused_position(o, j)) {
        assert forall|j: int| d.contains(j) implies img.contains(j) by {
            assert(!unused_position(o, j));
            let a = choose|a: int| 0 <= a < o.len() && o[a] == j;
            assert(idx.contains(a) && j == f(a));
        }
        vstd::set_lib::lemma_len_subset(d, img);
        assert(false);
    }
}

/// Soundness of the recurrence: every member of cache level `n` avoids
/// every basis pattern.
pub proof fn lemma_class_sound(basis: Seq<Seq<int>>, n: nat, q: Seq<int>)
    requires
        basis.len() > 0,
        forall|b: int| 0 <= b < basis.len() ==> is_perm_seq(#[trigger] basis[b]) && basis[b].len()
            > 0,
        level_spec(basis, n).contains(q),
    ensures
        avoids(basis, q),
    decreases n,
{
    lemma_level_elems(basis, n, q);
    let m = max_len(basis);
    if n == 0 {
        assert forall|b: int, o: Seq<int>| 0 <= b < basis.len() implies !#[trigger] is_occurrence(
            q,
            basis[b],
            o,
        ) by {
            if is_occurrence(q, basis[b], o) {
                assert(0 <= o[0] < q.len());
            }
        }
    } else {
        let prev = level_spec(basis, (n - 1) as nat);
        let (p, v) = choose|p: Seq<int>, v: int|
            prev.contains(p) && #[trigger] admissible(basis, prev, p, v) && q == append_spec(p, v);
        lemma_class_sound(basis, (n - 1) as nat, p);
        lemma_level_elems(basis, (n - 1) as nat, p);
        assert forall|b: int, o: Seq<int>| 0 <= b < basis.len() implies !#[trigger] is_occurrence(
            q,
            basis[b],
            o,
        ) by {
            if is_occurrence(q, basis[b], o) {
                let bl = basis[b].len() as int;
                lemma_max_len_ge(basis, b);
                if bl == n {
                    lemma_full_length_occurrence_is_equality(q, basis[b], o);
                    assert(basis.contains(basis[b]));
                    assert(p.len() + 1 <= m);
                    assert(false);
                } else {
                    let lo = probe_lo(n as int - 1, m);
                    assert(o.len() == bl);
                    assert(bl <= m);
                    assert(bl <= n) by {
                        lemma_increasing_gap(o, 0, bl - 1);
                        assert(0 <= o[0]);
                        assert(o[bl - 1] < n);
                    }
                    assert(bl < n as int - lo) by {
                        if n as int - 1 > m {
                            assert(lo == n as int - 1 - m);
                        } else {
                            assert(lo == 0);
                        }
                    }
                    lemma_free_position(o, lo, n as int);
                    let j = choose|j: int| lo <= j < n && #[trigger] unused_position(o, j);
                    assert(forall|a: int| 0 <= a < o.len() ==> o[a] != j);
                    lemma_occurrence_survives_removal(q, basis[b], o, j);
                    lemma_remove_in_level(basis, n, q, j);
                    lemma_class_sound(basis, (n - 1) as nat, remove_spec(q, j));
                }
            }
        }
    }
}

/// Completeness of the recurrence: every permutation of length `n` that
/// avoids the basis is a member of cache level `n`.
pub proof fn lemma_class_complete(basis: Seq<Seq<int>>, n: nat, q: Seq<int>)
    requires
        basis.len() > 0,
        forall|b: int| 0 <= b < basis.len() ==> is_perm_seq(#[trigger] basis[b]) && basis[b].len()
            > 0,
        is_perm_seq(q),
        q.len() == n,
        avoids(basis, q),
    ensures
        level_spec(basis, n).contains(q),
    decreases n,
{
    if n == 0 {
        assert(q =~= Seq::<int>::empty());
    } else {
        let k = n as int - 1;
        let p = remove_spec(q, k);
        let v = q[k];
        lemma_remove_wf(q, k);
        lemma_append_remove(q, k);
        lemma_avoids_remove(basis, q, k);
        lemma_class_complete(basis, (n - 1) as nat, p);
        let prev = level_spec(basis, (n - 1) as nat);
        let m = max_len(basis);
        assert(0 <= v < n);
        if p.len() > 0 {
            assert forall|i: int| probe_lo(p.len() as int, m) <= i < p.len() implies potential_at(
                prev,
                p,
                v,
                #[trigger] (i + 0),
            ) by {
                let sub = remove_spec(p, i);
                lemma_commute_remove_append(p, v, i);
                let rq = remove_spec(q, i);
                lemma_remove_wf(q, i);
                lemma_avoids_remove(basis, q, i);
                lemma_class_complete(basis, (n - 1) as nat, rq);
                if v <= p[i] {
                    assert(rq == append_spec(sub, v));
                } else {
                    assert(rq == append_spec(sub, v - 1));
                }
            }
        }
        if p.len() + 1 <= m {
            if basis.contains(append_spec(p, v)) {
                let b = choose|b: int| 0 <= b < basis.len() && basis[b] == append_spec(p, v);
                lemma_identity_occurrence(q, basis[b]);
                assert(false);
            }
        }
        assert(candidate_ok(prev, m, p, v));
        assert(admissible(basis, prev, p, v));
        assert(prev.contains(p) && admissible(basis, prev, p, v) && q == append_spec(p, v));
        assert(level_spec(basis, n).contains(q));
    }
}

/// The built levels are exactly the avoidance class: a permutation stands
/// in the level of its length if and only if it avoids every basis
/// pattern.
pub proof fn lemma_class_level_exact(c: &AvoidanceClass, l: int, q: Seq<int>)
    requires
        c.cls_wf(),
        0 <= l < c.perm_cache@.len(),
    ensures
        c.perm_cache@[l].key_set().contains(q) <==> (is_perm_seq(q) && q.len() == l && avoids(
            c.basis_views(),
            q,
        )),
{
    let bv = c.basis_views();
    assert forall|b: int| 0 <= b < bv.len() implies is_perm_seq(#[trigger] bv[b]) && bv[b].len()
        > 0 by {
        assert(bv[b] == c.basis@[b]@);
        assert(c.basis@[b].wf());
    }
    assert(c.perm_cache@[l].key_set() == level_spec(bv, l as nat));
    if c.perm_cache@[l].key_set().contains(q) {
        lemma_level_elems(bv, l as nat, q);
        lemma_class_sound(bv, l as nat, q);
    }
    if is_perm_seq(q) && q.len() == l && avoids(bv, q) {
        lemma_class_complete(bv, l as nat, q);
    }
}

} // verus!
