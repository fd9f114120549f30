//! Order-isomorphic occurrence search: a lazy, resumable enumerator of the
//! occurrences of a pattern permutation inside a text permutation, pruned by
//! the pattern's floor/ceiling structure.
use crate::perm::{
    detail_ok, has_larger_left, has_smaller_left, is_left_ceiling, is_left_floor, is_perm_seq,
    lemma_perm_surjective, to_int_seq, Perm,
};
use vstd::prelude::*;

verus! {

/// One occurrence: the chosen positions in the text, in increasing order.
pub type PattOccurrence = Vec<usize>;

/// The positions of `occ` are strictly increasing and lie inside `t`.
pub open spec fn occ_positions_ok(t: Seq<int>, occ: Seq<int>) -> bool {
    &&& forall|a: int| 0 <= a < occ.len() ==> 0 <= #[trigger] occ[a] < t.len()
    &&& forall|a: int, b: int| 0 <= a < b < occ.len() ==> occ[a] < occ[b]
}

/// The values of `t` at the positions of `occ` compare, pairwise, exactly as
/// the first `occ.len()` values of `p` compare.
pub open spec fn order_iso(p: Seq<int>, t: Seq<int>, occ: Seq<int>) -> bool {
    forall|a: int, b: int| 0 <= a < b < occ.len()
        ==> ((p[a] < p[b]) <==> (t[#[trigger] occ[a]] < t[#[trigger] occ[b]]))
}

/// `occ` chooses positions for a prefix of the pattern `p` inside `t`, in an
/// order-isomorphic way.
pub open spec fn is_partial_occurrence(t: Seq<int>, p: Seq<int>, occ: Seq<int>) -> bool {
    &&& occ.len() <= p.len()
    &&& occ_positions_ok(t, occ)
    &&& order_iso(p, t, occ)
}

/// `occ` is a full occurrence of the pattern `p` inside the text `t`.
pub open spec fn is_occurrence(t: Seq<int>, p: Seq<int>, occ: Seq<int>) -> bool {
    &&& occ.len() == p.len()
    &&& is_partial_occurrence(t, p, occ)
}

/// Smallest text value admissible for the next chosen position, given the
/// pattern-detail entry `e` for the current depth.
pub open spec fn spec_lower(t: Seq<int>, occ: Seq<int>, e: (Option<usize>, Option<usize>, usize, usize)) -> int {
    match e.0 {
        None => e.2 as int,
        Some(fp) => t[occ[fp as int]] + e.2,
    }
}

/// Largest text value admissible for the next chosen position.
pub open spec fn spec_upper(t: Seq<int>, occ: Seq<int>, e: (Option<usize>, Option<usize>, usize, usize)) -> int {
    match e.1 {
        None => t.len() - e.3,
        Some(cp) => t[occ[cp as int]] - e.3,
    }
}

/// A partial occurrence extended at a position whose value lies inside the
/// floor/ceiling bounds is again a partial occurrence: the floor (ceiling)
/// reference carries the order constraint against every earlier smaller
/// (larger) pattern value.
proof fn lemma_extend_occurrence(
    p: Seq<int>,
    t: Seq<int>,
    occ: Seq<int>,
    j: int,
    e: (Option<usize>, Option<usize>, usize, usize),
)
    requires
        is_perm_seq(p),
        is_perm_seq(t),
        is_partial_occurrence(t, p, occ),
        occ.len() < p.len(),
        detail_ok(p, occ.len() as int, e),
        0 <= j < t.len(),
        forall|a: int| 0 <= a < occ.len() ==> #[trigger] occ[a] < j,
        spec_lower(t, occ, e) <= t[j],
        t[j] <= spec_upper(t, occ, e),
    ensures
        is_partial_occurrence(t, p, occ.push(j)),
{
    let k = occ.len() as int;
    let o2 = occ.push(j);
    assert forall|a: int, b: int| 0 <= a < b < o2.len() implies o2[a] < o2[b] by {
        if b < k {
            assert(occ[a] < occ[b]);
        }
    }
    assert forall|a: int, b: int| 0 <= a < b < o2.len() implies
        ((p[a] < p[b]) <==> (t[#[trigger] o2[a]] < t[#[trigger] o2[b]])) by {
        if b < k {
            assert(occ[a] < occ[b]);
            assert((p[a] < p[b]) <==> (t[occ[a]] < t[occ[b]]));
        } else {
            assert(o2[a] == occ[a]);
            assert(o2[b] == j);
            assert(occ[a] != j);
            assert(t[occ[a]] != t[j]);
            assert(p[a] != p[k]);
            if p[a] < p[k] {
                match e.0 {
                    None => {
                        assert(has_smaller_left(p, k));
                        assert(false);
                    },
                    Some(fp_u) => {
                        let fp = fp_u as int;
                        assert(is_left_floor(p, k, fp));
                        assert(p[a] < p[k]);
                        assert(p[a] <= p[fp]);
                        assert(e.2 == p[k] - p[fp]);
                        assert(t[occ[fp]] + (p[k] - p[fp]) <= t[j]);
                        if a == fp {
                            assert(t[occ[a]] < t[j]);
                        } else {
                            assert(p[a] != p[fp]);
                            assert(p[a] < p[fp]);
                            if a < fp {
                                assert((p[a] < p[fp]) <==> (t[occ[a]] < t[occ[fp]]));
                            } else {
                                assert((p[fp] < p[a]) <==> (t[occ[fp]] < t[occ[a]]));
                                assert(occ[fp] != occ[a]);
                                assert(t[occ[fp]] != t[occ[a]]);
                            }
                            assert(t[occ[a]] < t[occ[fp]]);
                            assert(t[occ[a]] < t[j]);
                        }
                    },
                }
                assert(t[o2[a]] < t[o2[b]]);
            } else {
                assert(p[a] > p[k]);
                match e.1 {
                    None => {
                        assert(has_larger_left(p, k));
                        assert(false);
                    },
                    Some(cp_u) => {
                        let cp = cp_u as int;
                        assert(is_left_ceiling(p, k, cp));
                        assert(p[a] >= p[cp]);
                        assert(e.3 == p[cp] - p[k]);
                        assert(t[j] <= t[occ[cp]] - (p[cp] - p[k]));
                        if a == cp {
                            assert(t[occ[a]] > t[j]);
                        } else {
                            assert(p[a] > p[cp]);
                            if a < cp {
                                assert((p[a] < p[cp]) <==> (t[occ[a]] < t[occ[cp]]));
                                assert(occ[a] != occ[cp]);
                                assert(t[occ[a]] != t[occ[cp]]);
                            } else {
                                assert((p[cp] < p[a]) <==> (t[occ[cp]] < t[occ[a]]));
                            }
                            assert(t[occ[a]] > t[occ[cp]]);
                            assert(t[occ[a]] > t[j]);
                        }
                    },
                }
                assert(t[o2[a]] > t[o2[b]]);
            }
        }
    }
}


/// Counting argument behind the pruning bounds: between two chosen
/// elements of an occurrence there must be room in the text for every
/// pattern value that lies between the two pattern values.
proof fn lemma_value_gap(p: Seq<int>, t: Seq<int>, o: Seq<int>, x: int, k: int)
    requires
        is_perm_seq(p),
        is_perm_seq(t),
        is_occurrence(t, p, o),
        0 <= x < p.len(),
        0 <= k < p.len(),
        x != k,
        p[x] < p[k],
    ensures
        t[o[k]] - t[o[x]] >= p[k] - p[x],
{
    let n = p.len() as int;
    let a = p[x];
    let b = p[k];
    assert(t[o[x]] < t[o[k]]) by {
        lemma_iso_pair(p, t, o, x, k);
    }
    let s = Set::new(|l: int| 0 <= l < n && a < p[l] < b);
    let f = |l: int| p[l];
    let v = vstd::set_lib::set_int_range(a + 1, b);
    assert(s.map(f) =~= v) by {
        assert forall|y: int| v.contains(y) implies s.map(f).contains(y) by {
            lemma_perm_surjective(p, y);
            let l = choose|l: int| 0 <= l < p.len() && p[l] == y;
            assert(s.contains(l) && y == f(l));
        }
        assert forall|y: int| s.map(f).contains(y) implies v.contains(y) by {
            let l = choose|l: int| s.contains(l) && y == f(l);
        }
    }
    vstd::set_lib::lemma_int_range(a + 1, b);
    assert(s.finite() && s.len() == b - a - 1) by {
        assert(vstd::relations::injective_on(f, s)) by {
            assert forall|x1: int, x2: int|
                s.contains(x1) && s.contains(x2) && #[trigger] f(x1) == #[trigger] f(x2) implies x1
                == x2 by {
                if x1 < x2 {
                    assert(p[x1] != p[x2]);
                }
                if x2 < x1 {
                    assert(p[x2] != p[x1]);
                }
            }
        }
        assert(s.subset_of(vstd::set_lib::set_int_range(0, n))) by {
            assert forall|l: int| s.contains(l) implies vstd::set_lib::set_int_range(0, n).contains(
                l,
            ) by {}
        }
        vstd::set_lib::lemma_int_range(0, n);
        vstd::set_lib::lemma_len_subset(s, vstd::set_lib::set_int_range(0, n));
        vstd::set_lib::lemma_map_size(s, v, f);
    }
    let g = |l: int| t[o[l]];
    let w = s.map(g);
    assert(vstd::relations::injective_on(g, s)) by {
        assert forall|x1: int, x2: int|
            s.contains(x1) && s.contains(x2) && #[trigger] g(x1) == #[trigger] g(x2) implies x1
            == x2 by {
            if x1 < x2 {
                assert(o[x1] < o[x2]);
                assert(t[o[x1]] != t[o[x2]]);
            }
            if x2 < x1 {
                assert(o[x2] < o[x1]);
                assert(t[o[x2]] != t[o[x1]]);
            }
        }
    }
    vstd::set_lib::lemma_map_size(s, w, g);
    assert(w.subset_of(vstd::set_lib::set_int_range(t[o[x]] + 1, t[o[k]]))) by {
        assert forall|y: int| w.contains(y) implies t[o[x]] < y < t[o[k]] by {
            let l = choose|l: int| s.contains(l) && y == g(l);
            lemma_iso_pair(p, t, o, x, l);
            lemma_iso_pair(p, t, o, l, k);
        }
    }
    vstd::set_lib::lemma_int_range(t[o[x]] + 1, t[o[k]]);
    vstd::set_lib::lemma_len_subset(w, vstd::set_lib::set_int_range(t[o[x]] + 1, t[o[k]]));
}

/// Order isomorphism of an occurrence, read at one unordered index pair.
proof fn lemma_iso_pair(p: Seq<int>, t: Seq<int>, o: Seq<int>, x: int, y: int)
    requires
        is_perm_seq(p),
        is_perm_seq(t),
        is_occurrence(t, p, o),
        0 <= x < p.len(),
        0 <= y < p.len(),
        x != y,
    ensures
        p[x] < p[y] <==> t[o[x]] < t[o[y]],
        p[x] < p[y] ==> t[o[x]] < t[o[y]],
        p[y] < p[x] ==> t[o[y]] < t[o[x]],
{
    if x < y {
        assert(o[x] < o[y]);
        assert(t[o[x]] != t[o[y]]);
        assert(p[x] != p[y]);
    } else {
        assert(o[y] < o[x]);
        assert(t[o[y]] != t[o[x]]);
        assert(p[y] != p[x]);
    }
}

/// How many text values sit below (and above) a chosen element: a value
/// of rank `p[k]` in the pattern needs at least `p[k]` smaller text values
/// to its occurrence's left and `p.len() - 1 - p[k]` larger ones.
proof fn lemma_value_rank(p: Seq<int>, t: Seq<int>, o: Seq<int>, k: int)
    requires
        is_perm_seq(p),
        is_perm_seq(t),
        is_occurrence(t, p, o),
        0 <= k < p.len(),
    ensures
        t[o[k]] >= p[k],
        t[o[k]] <= t.len() - p.len() + p[k],
{
    let n = p.len() as int;
    let g = |l: int| t[o[l]];
    let f = |l: int| p[l];
    // below
    let s1 = Set::new(|l: int| 0 <= l < n && p[l] < p[k]);
    assert(s1.map(f) =~= vstd::set_lib::set_int_range(0, p[k])) by {
        assert forall|y: int| vstd::set_lib::set_int_range(0, p[k]).contains(y) implies s1.map(
            f,
        ).contains(y) by {
            lemma_perm_surjective(p, y);
            let l = choose|l: int| 0 <= l < p.len() && p[l] == y;
            assert(s1.contains(l) && y == f(l));
        }
        assert forall|y: int| s1.map(f).contains(y) implies 0 <= y < p[k] by {
            let l = choose|l: int| s1.contains(l) && y == f(l);
        }
    }
    vstd::set_lib::lemma_int_range(0, p[k]);
    vstd::set_lib::lemma_int_range(0, n);
    assert(s1.subset_of(vstd::set_lib::set_int_range(0, n)));
    vstd::set_lib::lemma_len_subset(s1, vstd::set_lib::set_int_range(0, n));
    assert(vstd::relations::injective_on(f, s1)) by {
        assert forall|x1: int, x2: int|
            s1.contains(x1) && s1.contains(x2) && #[trigger] f(x1) == #[trigger] f(x2) implies x1
            == x2 by {
            if x1 < x2 {
                assert(p[x1] != p[x2]);
            }
            if x2 < x1 {
                assert(p[x2] != p[x1]);
            }
        }
    }
    vstd::set_lib::lemma_map_size(s1, vstd::set_lib::set_int_range(0, p[k]), f);
    assert(vstd::relations::injective_on(g, s1)) by {
        assert forall|x1: int, x2: int|
            s1.contains(x1) && s1.contains(x2) && #[trigger] g(x1) == #[trigger] g(x2) implies x1
            == x2 by {
            if x1 < x2 {
                assert(o[x1] < o[x2]);
                assert(t[o[x1]] != t[o[x2]]);
            }
            if x2 < x1 {
                assert(o[x2] < o[x1]);
                assert(t[o[x2]] != t[o[x1]]);
            }
        }
    }
    let w1 = s1.map(g);
    vstd::set_lib::lemma_map_size(s1, w1, g);
    assert(w1.subset_of(vstd::set_lib::set_int_range(0, t[o[k]]))) by {
        assert forall|y: int| w1.contains(y) implies 0 <= y < t[o[k]] by {
            let l = choose|l: int| s1.contains(l) && y == g(l);
            lemma_iso_pair(p, t, o, l, k);
            assert(0 <= t[o[l]]);
        }
    }
    vstd::set_lib::lemma_int_range(0, t[o[k]]);
    vstd::set_lib::lemma_len_subset(w1, vstd::set_lib::set_int_range(0, t[o[k]]));
    // above
    let s2 = Set::new(|l: int| 0 <= l < n && p[l] > p[k]);
    assert(s2.map(f) =~= vstd::set_lib::set_int_range(p[k] + 1, n)) by {
        assert forall|y: int| vstd::set_lib::set_int_range(p[k] + 1, n).contains(y) implies s2.map(
            f,
        ).contains(y) by {
            lemma_perm_surjective(p, y);
            let l = choose|l: int| 0 <= l < p.len() && p[l] == y;
            assert(s2.contains(l) && y == f(l));
        }
        assert forall|y: int| s2.map(f).contains(y) implies p[k] < y < n by {
            let l = choose|l: int| s2.contains(l) && y == f(l);
        }
    }
    vstd::set_lib::lemma_int_range(p[k] + 1, n);
    assert(s2.subset_of(vstd::set_lib::set_int_range(0, n)));
    vstd::set_lib::lemma_len_subset(s2, vstd::set_lib::set_int_range(0, n));
    assert(vstd::relations::injective_on(f, s2)) by {
        assert forall|x1: int, x2: int|
            s2.contains(x1) && s2.contains(x2) && #[trigger] f(x1) == #[trigger] f(x2) implies x1
            == x2 by {
            if x1 < x2 {
                assert(p[x1] != p[x2]);
            }
            if x2 < x1 {
                assert(p[x2] != p[x1]);
            }
        }
    }
    vstd::set_lib::lemma_map_size(s2, vstd::set_lib::set_int_range(p[k] + 1, n), f);
    assert(vstd::relations::injective_on(g, s2)) by {
        assert forall|x1: int, x2: int|
            s2.contains(x1) && s2.contains(x2) && #[trigger] g(x1) == #[trigger] g(x2) implies x1
            == x2 by {
            if x1 < x2 {
                assert(o[x1] < o[x2]);
                assert(t[o[x1]] != t[o[x2]]);
            }
            if x2 < x1 {
                assert(o[x2] < o[x1]);
                assert(t[o[x2]] != t[o[x1]]);
            }
        }
    }
    let w2 = s2.map(g);
    vstd::set_lib::lemma_map_size(s2, w2, g);
    assert(w2.subset_of(vstd::set_lib::set_int_range(t[o[k]] + 1, t.len() as int))) by {
        assert forall|y: int| w2.contains(y) implies t[o[k]] < y < t.len() by {
            let l = choose|l: int| s2.contains(l) && y == g(l);
            lemma_iso_pair(p, t, o, l, k);
            assert(t[o[l]] < t.len());
        }
    }
    vstd::set_lib::lemma_int_range(t[o[k]] + 1, t.len() as int);
    vstd::set_lib::lemma_len_subset(w2, vstd::set_lib::set_int_range(t[o[k]] + 1, t.len() as int));
}

/// `a` precedes `b` in lexicographic order: they agree on a proper prefix
/// and `a` is smaller at the first position after it.
pub open spec fn lex_less(a: Seq<int>, b: Seq<int>) -> bool {
    exists|m: int| 0 <= m < a.len() && m < b.len() && a.take(m) == b.take(m) && a[m] < b[m]
}

/// Lexicographically at most: equal, or strictly before.
pub open spec fn lex_le(a: Seq<int>, b: Seq<int>) -> bool {
    a == b || lex_less(a, b)
}

/// `o` completes the partial occurrence `occ`, choosing its next position
/// at `i` or later.
pub open spec fn extends_from(occ: Seq<int>, i: int, o: Seq<int>) -> bool {
    &&& o.take(occ.len() as int) == occ
    &&& o[occ.len() as int] >= i
}

/// The pruning interval loses nothing: every completion of `occ` places
/// its next element's text value inside the floor/ceiling bounds.
proof fn lemma_bounds_necessary(
    p: Seq<int>,
    t: Seq<int>,
    occ: Seq<int>,
    o: Seq<int>,
    e: (Option<usize>, Option<usize>, usize, usize),
)
    requires
        is_perm_seq(p),
        is_perm_seq(t),
        is_partial_occurrence(t, p, occ),
        occ.len() < p.len(),
        detail_ok(p, occ.len() as int, e),
        is_occurrence(t, p, o),
        o.take(occ.len() as int) == occ,
    ensures
        spec_lower(t, occ, e) <= t[o[occ.len() as int]],
        t[o[occ.len() as int]] <= spec_upper(t, occ, e),
{
    let k = occ.len() as int;
    assert(forall|l: int| 0 <= l < k ==> occ[l] == o.take(k)[l] && #[trigger] o[l] == o.take(k)[l]);
    match e.0 {
        None => {
            assert(e.2 == p[k]);
            lemma_value_rank(p, t, o, k);
        },
        Some(fp_u) => {
            let fp = fp_u as int;
            assert(is_left_floor(p, k, fp));
            assert(e.2 == p[k] - p[fp]);
            lemma_value_gap(p, t, o, fp, k);
            assert(occ[fp] == o[fp]);
        },
    }
    match e.1 {
        None => {
            assert(e.3 == p.len() - p[k]);
            lemma_value_rank(p, t, o, k);
        },
        Some(cp_u) => {
            let cp = cp_u as int;
            assert(is_left_ceiling(p, k, cp));
            assert(e.3 == p[cp] - p[k]);
            lemma_value_gap(p, t, o, k, cp);
            assert(occ[cp] == o[cp]);
        },
    }
}

/// Strictly increasing integer sequences grow at least by one per step.
pub proof fn lemma_increasing_gap(o: Seq<int>, a: int, b: int)
    requires
        forall|x: int, y: int| 0 <= x < y < o.len() ==> o[x] < o[y],
        0 <= a <= b < o.len(),
    ensures
        o[b] - o[a] >= b - a,
    decreases b - a,
{
    if a < b {
        lemma_increasing_gap(o, a, b - 1);
        assert(o[b - 1] < o[b]);
    }
}

/// No completion fits when fewer text positions remain than pattern
/// elements are still unchosen.
proof fn lemma_no_room(t: Seq<int>, p: Seq<int>, occ: Seq<int>, i: int)
    requires
        occ.len() < p.len(),
        t.len() - i < p.len() - occ.len(),
    ensures
        forall|o: Seq<int>| !(is_occurrence(t, p, o) && extends_from(occ, i, o)),
{
    let k = occ.len() as int;
    let n = p.len() as int;
    assert forall|o: Seq<int>| !(is_occurrence(t, p, o) && extends_from(occ, i, o)) by {
        if is_occurrence(t, p, o) && extends_from(occ, i, o) {
            lemma_increasing_gap(o, k, n - 1);
            assert(o[n - 1] < t.len());
            assert(o[k] >= i);
        }
    }
}

/// A completion whose next chosen position is exactly `j` also completes
/// the one-longer partial occurrence that records `j`.
proof fn lemma_step_extends(occ: Seq<int>, cand: Seq<int>, j: int, o: Seq<int>)
    requires
        occ.len() + 1 < o.len(),
        cand == occ.push(j),
        o.take(occ.len() as int) == occ,
        o[occ.len() as int] == j,
        forall|x: int, y: int| 0 <= x < y < o.len() ==> o[x] < o[y],
    ensures
        extends_from(cand, j + 1, o),
{
    let k = occ.len() as int;
    assert(forall|l: int| 0 <= l < k ==> occ[l] == o.take(k)[l] && #[trigger] o[l] == o.take(k)[l]);
    assert(o.take(k + 1) =~= cand);
    assert(o[k + 1] > o[k]);
}

/// A pattern longer than the text occurs nowhere in it.
proof fn lemma_pattern_too_long(t: Seq<int>, p: Seq<int>)
    requires
        p.len() > t.len(),
    ensures
        forall|o: Seq<int>| !is_occurrence(t, p, o),
{
    assert forall|o: Seq<int>| !is_occurrence(t, p, o) by {
        if is_occurrence(t, p, o) {
            lemma_increasing_gap(o, 0, p.len() - 1);
            assert(0 <= o[0]);
            assert(o[p.len() - 1] < t.len());
        }
    }
}


/// Deleting a text position that an occurrence does not use keeps the
/// occurrence: the remaining positions shift down past the deleted one and
/// the renumbered values compare as before.
pub proof fn lemma_occurrence_survives_removal(t: Seq<int>, p: Seq<int>, o: Seq<int>, j: int)
    requires
        is_perm_seq(t),
        is_occurrence(t, p, o),
        0 <= j < t.len(),
        forall|a: int| 0 <= a < o.len() ==> #[trigger] o[a] != j,
    ensures
        is_occurrence(
            crate::perm::remove_spec(t, j),
            p,
            o.map_values(
                |x: int|
                    if x < j {
                        x
                    } else {
                        x - 1
                    },
            ),
        ),
{
    let r = crate::perm::remove_spec(t, j);
    let o2 = o.map_values(|x: int| if x < j { x } else { x - 1 });
    let w = t[j];
    assert(r.len() == t.len() - 1);
    assert forall|k: int| 0 <= k < o.len() implies 0 <= #[trigger] o2[k] < r.len() && r[o2[k]]
        == (if t[o[k]] > w {
        t[o[k]] - 1
    } else {
        t[o[k]]
    }) by {
        assert(o[k] != j);
        if o[k] < j {
            assert(t.remove(j)[o[k]] == t[o[k]]);
        } else {
            assert(t.remove(j)[o[k] - 1] == t[o[k]]);
        }
    }
    assert forall|a: int, b: int| 0 <= a < b < o2.len() implies o2[a] < o2[b] by {
        assert(o[a] < o[b]);
        assert(o[a] != j && o[b] != j);
    }
    assert forall|a: int, b: int| 0 <= a < b < o2.len() implies ((p[a] < p[b]) <==> (r[
        #[trigger] o2[a]
    ] < r[#[trigger] o2[b]])) by {
        assert((p[a] < p[b]) <==> (t[o[a]] < t[o[b]]));
        assert(t[o[a]] != w && t[o[b]] != w);
    }
}

/// Conversely, an occurrence in the text with a position deleted lifts to
/// the original text: the positions shift up past the deleted one.
pub proof fn lemma_occurrence_lifts_over_removal(t: Seq<int>, p: Seq<int>, o2: Seq<int>, j: int)
    requires
        is_perm_seq(t),
        0 <= j < t.len(),
        is_occurrence(crate::perm::remove_spec(t, j), p, o2),
    ensures
        is_occurrence(
            t,
            p,
            o2.map_values(
                |x: int|
                    if x < j {
                        x
                    } else {
                        x + 1
                    },
            ),
        ),
{
    let r = crate::perm::remove_spec(t, j);
    let o = o2.map_values(|x: int| if x < j { x } else { x + 1 });
    let w = t[j];
    assert forall|k: int| 0 <= k < o.len() implies 0 <= #[trigger] o[k] < t.len() && r[o2[k]]
        == (if t[o[k]] > w {
        t[o[k]] - 1
    } else {
        t[o[k]]
    }) && t[o[k]] != w by {
        assert(0 <= o2[k] < r.len());
        if o2[k] < j {
            assert(t.remove(j)[o2[k]] == t[o2[k]]);
        } else {
            assert(t.remove(j)[o2[k]] == t[o2[k] + 1]);
        }
    }
    assert forall|a: int, b: int| 0 <= a < b < o.len() implies o[a] < o[b] by {
        assert(o2[a] < o2[b]);
    }
    assert forall|a: int, b: int| 0 <= a < b < o.len() implies ((p[a] < p[b]) <==> (t[
        #[trigger] o[a]
    ] < t[#[trigger] o[b]])) by {
        assert((p[a] < p[b]) <==> (r[o2[a]] < r[o2[b]]));
    }
}

/// Equal permutations contain each other through the identity positions.
pub proof fn lemma_identity_occurrence(q: Seq<int>, b: Seq<int>)
    requires
        q == b,
    ensures
        is_occurrence(q, b, Seq::new(b.len(), |a: int| a)),
{
    let o = Seq::new(b.len(), |a: int| a);
    assert forall|a: int, c: int| 0 <= a < c < o.len() implies ((b[a] < b[c]) <==> (q[
        #[trigger] o[a]
    ] < q[#[trigger] o[c]])) by {}
}

/// An occurrence of a full-length pattern forces equality: its positions
/// are the identity, and by the rank bounds each text value then equals
/// the pattern value.
pub proof fn lemma_full_length_occurrence_is_equality(t: Seq<int>, p: Seq<int>, o: Seq<int>)
    requires
        is_perm_seq(t),
        is_perm_seq(p),
        is_occurrence(t, p, o),
        p.len() == t.len(),
    ensures
        p == t,
{
    let n = p.len() as int;
    assert forall|k: int| 0 <= k < n implies o[k] == k by {
        lemma_increasing_gap(o, 0, k);
        lemma_increasing_gap(o, k, n - 1);
        assert(o[0] >= 0);
        assert(o[n - 1] < n);
    }
    assert forall|k: int| 0 <= k < n implies p[k] == t[k] by {
        lemma_value_rank(p, t, o, k);
    }
    assert(p =~= t);
}

/// Copies an occurrence's position vector.
fn clone_occ(v: &Vec<usize>) -> (r: Vec<usize>)
    ensures
        r@ == v@,
{
    let mut r: Vec<usize> = Vec::new();
    let n: usize = v.len();
    let mut i: usize = 0;
    while i < n
        invariant
            n == v.len(),
            0 <= i <= n,
            r@.len() == i,
            forall|j: int| 0 <= j < i ==> r@[j] == v@[j],
        decreases n - i,
    {
        r.push(v[i]);
        i += 1;
    }
    proof {
        assert(r@ =~= v@);
    }
    r
}

/// Anything that carries a permutation and can be searched as a text.
pub trait Patt: Sized {
    /// The carried permutation's value sequence.
    spec fn pview(&self) -> Seq<int>;

    /// The carried value sequence is a valid permutation.
    spec fn pwf(&self) -> bool;

    fn len(&self) -> (n: usize)
        ensures
            n == self.pview().len(),
    ;

    fn get_perm(&self) -> (p: &Perm)
        requires
            self.pwf(),
        ensures
            p@ == self.pview(),
            p.wf(),
    ;

    /// A fresh, not-yet-started enumerator of the occurrences of `patt`
    /// inside `self`.
    fn patt_iter(&self, patt: &Perm) -> (it: IntoPattIter)
        requires
            self.pwf(),
            patt.wf(),
        ensures
            it.wf(),
            it.text() == self.pview(),
            it.pattern() == patt@,
            it.last_reported() is None,
            !it.finished(),
    ;

    /// Every occurrence of `patt` inside `self`, eagerly collected: each
    /// element is an occurrence, every occurrence of a non-empty pattern is
    /// listed, and the list is strictly ordered lexicographically by
    /// position tuple, so none is listed twice.
    fn occurrences_in(&self, patt: &Self) -> (occs: Vec<PattOccurrence>)
        requires
            self.pwf(),
            patt.pwf(),
        ensures
            forall|m: int| 0 <= m < occs@.len()
                ==> is_occurrence(self.pview(), patt.pview(), to_int_seq((#[trigger] occs@[m])@)),
            patt.pview().len() > 0 ==> forall|o: Seq<int>|
                is_occurrence(self.pview(), patt.pview(), o) ==> exists|m: int|
                    0 <= m < occs@.len() && to_int_seq((#[trigger] occs@[m])@) == o,
            forall|m1: int, m2: int| 0 <= m1 < m2 < occs@.len() ==> lex_less(
                to_int_seq(occs@[m1]@),
                to_int_seq(occs@[m2]@),
            ),
    ;

    /// Whether `patt` occurs inside `self` at all. An empty pattern is
    /// reported as absent: its occurrence sequence is defined to be empty.
    fn contains(&self, patt: &Self) -> (b: bool)
        requires
            self.pwf(),
            patt.pwf(),
        ensures
            b <==> (patt.pview().len() > 0 && exists|o: Seq<int>|
                is_occurrence(self.pview(), patt.pview(), o)),
    ;
}

/// The resumable occurrence search: a saved partial state (last reported
/// occurrence) plus the pattern's precomputed detail entries. Each call of
/// `next` resumes the depth-first scan behind the last result.
pub struct IntoPattIter {
    perm: Perm,
    patt: Perm,
    patt_details: Vec<(Option<usize>, Option<usize>, usize, usize)>,
    curr: Option<PattOccurrence>,
    done: bool,
}

impl IntoPattIter {
    /// The text permutation searched in.
    pub closed spec fn text(&self) -> Seq<int> {
        self.perm@
    }

    /// The pattern permutation searched for.
    pub closed spec fn pattern(&self) -> Seq<int> {
        self.patt@
    }

    /// Text and pattern are valid permutations, the detail entries are
    /// exact, and any saved state is a real occurrence.
    pub closed spec fn wf(&self) -> bool {
        &&& self.perm.wf()
        &&& self.patt.wf()
        &&& self.patt_details@.len() == self.patt@.len()
        &&& forall|k: int| 0 <= k < self.patt@.len()
            ==> detail_ok(self.patt@, k, #[trigger] self.patt_details@[k])
        &&& match self.curr {
            Some(o) => is_occurrence(self.text(), self.pattern(), to_int_seq(o@)),
            None => true,
        }
    }

    /// The occurrence reported by the latest successful call of `next`.
    pub closed spec fn last_reported(&self) -> Option<Seq<int>> {
        match self.curr {
            Some(o) => Some(to_int_seq(o@)),
            None => None,
        }
    }

    /// The search has reported that no occurrences remain.
    pub closed spec fn finished(&self) -> bool {
        self.done
    }

    pub fn new(perm: Perm, patt: Perm) -> (it: IntoPattIter)
        requires
            perm.wf(),
            patt.wf(),
        ensures
            it.wf(),
            it.text() == perm@,
            it.pattern() == patt@,
            it.last_reported() is None,
            !it.finished(),
    {
        let patt_details = patt.pattern_details();
        IntoPattIter { perm, patt, patt_details, curr: None, done: false }
    }

    /// Whether the value at text position `j` lies inside the admissible
    /// interval for extending `next_occ` by one more chosen position.
    fn candidate_in_range(&self, next_occ: &Vec<usize>, j: usize) -> (b: bool)
        requires
            self.wf(),
            self.pattern().len() <= self.text().len(),
            is_partial_occurrence(self.text(), self.pattern(), to_int_seq(next_occ@)),
            next_occ@.len() < self.pattern().len(),
            j < self.text().len(),
        ensures
            b <==> {
                let e = self.patt_details@[next_occ@.len() as int];
                spec_lower(self.text(), to_int_seq(next_occ@), e) <= self.text()[j as int]
                    && self.text()[j as int] <= spec_upper(self.text(), to_int_seq(next_occ@), e)
            },
    {
        let pi: &Perm = &self.perm;
        let k: usize = next_occ.len();
        let (left_inf, left_sup, floor_dist, ceil_dist) = self.patt_details[k];
        let tj: usize = pi.value_at(j);
        proof {
            assert(detail_ok(self.pattern(), k as int, self.patt_details@[k as int]));
        }
        let lower_ok: bool = match left_inf {
            None => tj >= floor_dist,
            Some(fp) => {
                proof {
                    assert(is_left_floor(self.pattern(), k as int, fp as int));
                    assert(to_int_seq(next_occ@)[fp as int] == next_occ@[fp as int] as int);
                }
                let fv: usize = pi.value_at(next_occ[fp]);
                tj >= fv && tj - fv >= floor_dist
            },
        };
        let upper_ok: bool = match left_sup {
            None => {
                proof {
                    assert(ceil_dist as int <= self.pattern().len());
                }
                tj <= pi.len() - ceil_dist
            },
            Some(cp) => {
                proof {
                    assert(is_left_ceiling(self.pattern(), k as int, cp as int));
                    assert(to_int_seq(next_occ@)[cp as int] == next_occ@[cp as int] as int);
                }
                let cv: usize = pi.value_at(next_occ[cp]);
                tj <= cv && cv - tj >= ceil_dist
            },
        };
        lower_ok && upper_ok
    }

    /// One step of the depth-first search: starting the scan at text
    /// position `i` with the partial occurrence `next_occ` already chosen,
    /// produce a full occurrence extending it, or report that the scan from
    /// here is exhausted.
    pub fn occurrences(&self, i: usize, next_occ: Vec<usize>) -> (r: Option<PattOccurrence>)
        requires
            self.wf(),
            self.pattern().len() <= self.text().len(),
            is_partial_occurrence(self.text(), self.pattern(), to_int_seq(next_occ@)),
            next_occ@.len() < self.pattern().len(),
            i <= self.text().len(),
            forall|a: int| 0 <= a < next_occ@.len() ==> #[trigger] to_int_seq(next_occ@)[a] < i,
        ensures
            r matches Some(o) ==> is_occurrence(self.text(), self.pattern(), to_int_seq(o@))
                && extends_from(to_int_seq(next_occ@), i as int, to_int_seq(o@)),
            r matches Some(o) ==> forall|o2: Seq<int>|
                is_occurrence(self.text(), self.pattern(), o2) && extends_from(
                    to_int_seq(next_occ@),
                    i as int,
                    o2,
                ) ==> lex_le(to_int_seq(o@), o2),
            r is None ==> forall|o: Seq<int>|
                !(is_occurrence(self.text(), self.pattern(), o) && extends_from(
                    to_int_seq(next_occ@),
                    i as int,
                    o,
                )),
        decreases self.pattern().len() - next_occ@.len(),
    {
        let pi: &Perm = &self.perm;
        let n: usize = self.patt.len();
        let k: usize = next_occ.len();
        let needed: usize = n - k;
        let t_len: usize = pi.len();
        let mut j: usize = i;
        loop
            invariant
                self.wf(),
                self.pattern().len() <= self.text().len(),
                is_partial_occurrence(self.text(), self.pattern(), to_int_seq(next_occ@)),
                next_occ@.len() < self.pattern().len(),
                n == self.pattern().len(),
                k == next_occ@.len(),
                needed == n - k,
                t_len == self.text().len(),
                i <= j <= t_len,
                forall|a: int| 0 <= a < next_occ@.len() ==> #[trigger] to_int_seq(next_occ@)[a] < j,
                forall|o: Seq<int>|
                    !(is_occurrence(self.text(), self.pattern(), o) && extends_from(
                        to_int_seq(next_occ@),
                        i as int,
                        o,
                    ) && o[k as int] < j),
            decreases t_len - j,
        {
            if t_len - j < needed {
                proof {
                    lemma_no_room(self.text(), self.pattern(), to_int_seq(next_occ@), j as int);
                    assert forall|o: Seq<int>|
                        !(is_occurrence(self.text(), self.pattern(), o) && extends_from(
                            to_int_seq(next_occ@),
                            i as int,
                            o,
                        )) by {
                        if is_occurrence(self.text(), self.pattern(), o) && extends_from(
                            to_int_seq(next_occ@),
                            i as int,
                            o,
                        ) {
                            if o[k as int] >= j {
                                assert(extends_from(to_int_seq(next_occ@), j as int, o));
                            }
                        }
                    }
                }
                return None;
            }
            let in_range: bool = self.candidate_in_range(&next_occ, j);
            let ghost cand_s = to_int_seq(next_occ@).push(j as int);
            if in_range {
                let mut candidate = clone_occ(&next_occ);
                candidate.push(j);
                proof {
                    assert(to_int_seq(candidate@) =~= cand_s);
                    lemma_extend_occurrence(
                        self.pattern(),
                        self.text(),
                        to_int_seq(next_occ@),
                        j as int,
                        self.patt_details@[k as int],
                    );
                }
                if needed == 1 {
                    proof {
                        let occ_s = to_int_seq(next_occ@);
                        assert(cand_s.take(k as int) =~= occ_s);
                        assert(extends_from(occ_s, i as int, cand_s));
                        assert forall|o2: Seq<int>|
                            is_occurrence(self.text(), self.pattern(), o2) && extends_from(
                                occ_s,
                                i as int,
                                o2,
                            ) implies lex_le(cand_s, o2) by {
                            assert(forall|l: int| 0 <= l < k ==> occ_s[l] == o2.take(k as int)[l]
                                && #[trigger] o2[l] == o2.take(k as int)[l]);
                            if o2[k as int] == j {
                                assert(o2 =~= cand_s);
                            } else {
                                assert(o2[k as int] > j);
                                assert(cand_s.take(k as int) == o2.take(k as int));
                                assert(0 <= (k as int) && (k as int) < cand_s.len() && (k as int)
                                    < o2.len() && cand_s.take(k as int) == o2.take(k as int)
                                    && cand_s[k as int] < o2[k as int]);
                            }
                        }
                    }
                    return Some(candidate);
                }
                match self.occurrences(j + 1, candidate) {
                    Some(o) => {
                        proof {
                            let occ_s = to_int_seq(next_occ@);
                            let o_s = to_int_seq(o@);
                            assert(extends_from(cand_s, j as int + 1, o_s));
                            assert(forall|l: int| 0 <= l < k + 1 ==> cand_s[l] == o_s.take(
                                k as int + 1,
                            )[l] && #[trigger] o_s[l] == o_s.take(k as int + 1)[l]);
                            assert(o_s.take(k as int) =~= occ_s);
                            assert(o_s[k as int] == j >= i);
                            assert(extends_from(occ_s, i as int, o_s));
                            assert forall|o2: Seq<int>|
                                is_occurrence(self.text(), self.pattern(), o2) && extends_from(
                                    occ_s,
                                    i as int,
                                    o2,
                                ) implies lex_le(o_s, o2) by {
                                assert(forall|l: int| 0 <= l < k ==> occ_s[l] == o2.take(
                                    k as int,
                                )[l] && #[trigger] o2[l] == o2.take(k as int)[l]);
                                if o2[k as int] == j {
                                    lemma_step_extends(occ_s, cand_s, j as int, o2);
                                    assert(lex_le(o_s, o2));
                                } else {
                                    assert(o2[k as int] > j);
                                    assert(o_s.take(k as int) == o2.take(k as int));
                                    assert(0 <= (k as int) && (k as int) < o_s.len() && (k as int)
                                        < o2.len() && o_s.take(k as int) == o2.take(k as int)
                                        && o_s[k as int] < o2[k as int]);
                                }
                            }
                        }
                        return Some(o);
                    },
                    None => {},
                }
            }
            proof {
                let occ_s = to_int_seq(next_occ@);
                assert forall|o: Seq<int>|
                    !(is_occurrence(self.text(), self.pattern(), o) && extends_from(
                        occ_s,
                        i as int,
                        o,
                    ) && o[k as int] < j + 1) by {
                    if is_occurrence(self.text(), self.pattern(), o) && extends_from(
                        occ_s,
                        i as int,
                        o,
                    ) && o[k as int] == j {
                        assert(forall|l: int| 0 <= l < k ==> occ_s[l] == o.take(k as int)[l]
                            && #[trigger] o[l] == o.take(k as int)[l]);
                        if !in_range {
                            lemma_bounds_necessary(
                                self.pattern(),
                                self.text(),
                                occ_s,
                                o,
                                self.patt_details@[k as int],
                            );
                        } else {
                            lemma_step_extends(occ_s, cand_s, j as int, o);
                            assert(extends_from(cand_s, j as int + 1, o));
                        }
                    }
                }
            }
            j += 1;
        }
    }

    /// The next occurrence in lexicographic position order, resuming behind
    /// the last reported one; `None` once the search is exhausted, and on
    /// every later call.
    pub fn next(&mut self) -> (r: Option<PattOccurrence>)
        requires
            old(self).wf(),
        ensures
            final(self).wf(),
            final(self).text() == old(self).text(),
            final(self).pattern() == old(self).pattern(),
            r matches Some(o) ==> is_occurrence(old(self).text(), old(self).pattern(), to_int_seq(o@))
                && final(self).last_reported() == Some(to_int_seq(o@)) && !final(self).finished(),
            r is None ==> final(self).finished(),
            old(self).finished() ==> r is None,
            (!old(self).finished() && old(self).last_reported() is None) ==> match r {
                Some(o) => forall|o2: Seq<int>|
                    is_occurrence(old(self).text(), old(self).pattern(), o2) ==> lex_le(
                        to_int_seq(o@),
                        o2,
                    ),
                None => old(self).pattern().len() == 0 || forall|o2: Seq<int>|
                    !is_occurrence(old(self).text(), old(self).pattern(), o2),
            },
            (!old(self).finished() && old(self).last_reported() is Some) ==> match r {
                Some(o) => lex_less(old(self).last_reported()->Some_0, to_int_seq(o@)) && forall|
                    o2: Seq<int>,
                |
                    is_occurrence(old(self).text(), old(self).pattern(), o2) && lex_less(
                        old(self).last_reported()->Some_0,
                        o2,
                    ) ==> lex_le(to_int_seq(o@), o2),
                None => forall|o2: Seq<int>|
                    is_occurrence(old(self).text(), old(self).pattern(), o2) ==> !lex_less(
                        old(self).last_reported()->Some_0,
                        o2,
                    ),
            },
    {
        if self.done {
            return None;
        }
        let n: usize = self.patt.len();
        let t_len: usize = self.perm.len();
        if n == 0 || n > t_len {
            proof {
                if n > t_len {
                    lemma_pattern_too_long(self.text(), self.pattern());
                }
            }
            self.done = true;
            return None;
        }
        let ghost resumed = self.last_reported();
        let mut i: usize;
        let mut next_occ: Vec<usize>;
        match &self.curr {
            Some(occ) => {
                let ghost orig: Seq<int> = to_int_seq(occ@);
                proof {
                    assert(is_occurrence(self.text(), self.pattern(), orig));
                    assert(orig[orig.len() - 1] < t_len);
                }
                let mut occ2 = clone_occ(occ);
                let last: usize = match occ2.pop() {
                    Some(x) => x,
                    None => {
                        proof {
                            assert(false);
                        }
                        0
                    },
                };
                proof {
                    assert(last as int == orig[orig.len() - 1]);
                    assert(to_int_seq(occ2@) =~= orig.take(orig.len() - 1));
                    assert forall|a: int| 0 <= a < occ2@.len() implies
                        #[trigger] to_int_seq(occ2@)[a] < last + 1 by {
                        assert(orig[a] < orig[orig.len() - 1]);
                    }
                    assert(is_partial_occurrence(self.text(), self.pattern(), to_int_seq(occ2@)));
                    assert forall|o2: Seq<int>|
                        is_occurrence(self.text(), self.pattern(), o2) && #[trigger] lex_less(
                            orig,
                            o2,
                        ) implies extends_from(to_int_seq(occ2@), last + 1, o2) || (exists|l2: int|
                        0 <= l2 < occ2@.len() && #[trigger] o2.take(l2) == orig.take(l2) && o2[l2]
                            > orig[l2]) by {
                        let m = choose|m: int|
                            0 <= m < orig.len() && m < o2.len() && orig.take(m) == o2.take(m)
                                && orig[m] < o2[m];
                        if m == orig.len() - 1 {
                            assert(extends_from(to_int_seq(occ2@), last + 1, o2));
                        } else {
                            assert(o2.take(m) == orig.take(m) && o2[m] > orig[m]);
                        }
                    }
                }
                i = last + 1;
                next_occ = occ2;
            },
            None => {
                i = 0;
                next_occ = Vec::new();
                proof {
                    assert(to_int_seq(next_occ@) =~= Seq::<int>::empty());
                }
            },
        }
        loop
            invariant
                self.wf(),
                self == old(self),
                !self.finished(),
                resumed == old(self).last_reported(),
                n == self.pattern().len(),
                t_len == self.text().len(),
                0 < n <= t_len,
                is_partial_occurrence(self.text(), self.pattern(), to_int_seq(next_occ@)),
                next_occ@.len() < n,
                i <= t_len,
                forall|a: int| 0 <= a < next_occ@.len() ==> #[trigger] to_int_seq(next_occ@)[a] < i,
                match resumed {
                    None => next_occ@.len() == 0 && i == 0,
                    Some(prev) => {
                        &&& prev.len() == n
                        &&& is_occurrence(self.text(), self.pattern(), prev)
                        &&& to_int_seq(next_occ@) == prev.take(next_occ@.len() as int)
                        &&& i as int == prev[next_occ@.len() as int] + 1
                        &&& forall|o2: Seq<int>|
                            is_occurrence(self.text(), self.pattern(), o2) && #[trigger] lex_less(
                                prev,
                                o2,
                            ) ==> extends_from(to_int_seq(next_occ@), i as int, o2) || (exists|
                                l2: int,
                            |
                                0 <= l2 < next_occ@.len() && #[trigger] o2.take(l2) == prev.take(
                                    l2,
                                ) && o2[l2] > prev[l2])
                    },
                },
            decreases next_occ@.len(),
        {
            match self.occurrences(i, clone_occ(&next_occ)) {
                Some(occ) => {
                    proof {
                        let o_s = to_int_seq(occ@);
                        let ell = next_occ@.len() as int;
                        match resumed {
                            None => {
                                assert(to_int_seq(next_occ@) =~= Seq::<int>::empty());
                                assert forall|o2: Seq<int>|
                                    is_occurrence(self.text(), self.pattern(), o2) implies lex_le(
                                    o_s,
                                    o2,
                                ) by {
                                    assert(o2.take(0) =~= Seq::<int>::empty());
                                    assert(0 <= o2[0]);
                                    assert(extends_from(to_int_seq(next_occ@), i as int, o2));
                                }
                            },
                            Some(prev) => {
                                assert(o_s.take(ell) == prev.take(ell));
                                assert(o_s[ell] >= prev[ell] + 1);
                                assert(prev.take(ell) == o_s.take(ell) && prev[ell] < o_s[ell]);
                                assert(lex_less(prev, o_s));
                                assert forall|o2: Seq<int>|
                                    is_occurrence(self.text(), self.pattern(), o2) && lex_less(
                                        prev,
                                        o2,
                                    ) implies lex_le(o_s, o2) by {
                                    if extends_from(to_int_seq(next_occ@), i as int, o2) {
                                        assert(lex_le(o_s, o2));
                                    } else {
                                        let l2 = choose|l2: int|
                                            0 <= l2 < ell && #[trigger] o2.take(l2) == prev.take(
                                                l2,
                                            ) && o2[l2] > prev[l2];
                                        assert forall|l: int| 0 <= l < l2 implies o_s.take(l2)[l]
                                            == o2.take(l2)[l] by {
                                            assert(o_s.take(ell)[l] == prev.take(ell)[l]);
                                            assert(prev.take(l2)[l] == prev[l]);
                                        }
                                        assert(o_s.take(l2) =~= o2.take(l2));
                                        assert(o_s.take(ell)[l2] == prev.take(ell)[l2]);
                                        assert(o_s[l2] == prev[l2]);
                                        assert(o_s.take(l2) == o2.take(l2) && o_s[l2] < o2[l2]);
                                        assert(lex_less(o_s, o2));
                                    }
                                }
                            },
                        }
                    }
                    let out = clone_occ(&occ);
                    self.curr = Some(occ);
                    return Some(out);
                },
                None => {
                    if next_occ.len() == 0 {
                        proof {
                            match resumed {
                                None => {
                                    assert(to_int_seq(next_occ@) =~= Seq::<int>::empty());
                                    assert forall|o2: Seq<int>|
                                        !is_occurrence(self.text(), self.pattern(), o2) by {
                                        if is_occurrence(self.text(), self.pattern(), o2) {
                                            assert(o2.take(0) =~= Seq::<int>::empty());
                                            assert(0 <= o2[0]);
                                            assert(extends_from(
                                                to_int_seq(next_occ@),
                                                i as int,
                                                o2,
                                            ));
                                        }
                                    }
                                },
                                Some(prev) => {
                                    assert forall|o2: Seq<int>|
                                        is_occurrence(
                                            self.text(),
                                            self.pattern(),
                                            o2,
                                        ) implies !lex_less(prev, o2) by {
                                        if lex_less(prev, o2) {
                                            assert(!(exists|l2: int|
                                                0 <= l2 < next_occ@.len() && #[trigger] o2.take(
                                                    l2,
                                                ) == prev.take(l2) && o2[l2] > prev[l2]));
                                            assert(extends_from(
                                                to_int_seq(next_occ@),
                                                i as int,
                                                o2,
                                            ));
                                        }
                                    }
                                },
                            }
                        }
                        self.curr = None;
                        self.done = true;
                        return None;
                    }
                    let ghost orig: Seq<int> = to_int_seq(next_occ@);
                    proof {
                        assert(orig[orig.len() - 1] < t_len);
                    }
                    let last: usize = match next_occ.pop() {
                        Some(x) => x,
                        None => {
                            proof {
                                assert(false);
                            }
                            0
                        },
                    };
                    proof {
                        assert(last as int == orig[orig.len() - 1]);
                        assert(to_int_seq(next_occ@) =~= orig.take(orig.len() - 1));
                        assert forall|a: int| 0 <= a < next_occ@.len() implies
                            #[trigger] to_int_seq(next_occ@)[a] < last + 1 by {
                            assert(orig[a] < orig[orig.len() - 1]);
                        }
                        assert(is_partial_occurrence(self.text(), self.pattern(), to_int_seq(next_occ@)));
                        match resumed {
                            None => {
                                assert(false);
                            },
                            Some(prev) => {
                                let ell = orig.len() as int;
                                assert(orig == prev.take(ell));
                                assert(to_int_seq(next_occ@) =~= prev.take(ell - 1));
                                assert(last as int == prev.take(ell)[ell - 1]);
                                assert(last as int == prev[ell - 1]);
                                assert forall|o2: Seq<int>|
                                    is_occurrence(self.text(), self.pattern(), o2)
                                        && #[trigger] lex_less(prev, o2) implies extends_from(
                                    to_int_seq(next_occ@),
                                    last + 1,
                                    o2,
                                ) || (exists|l2: int|
                                    0 <= l2 < ell - 1 && #[trigger] o2.take(l2) == prev.take(l2)
                                        && o2[l2] > prev[l2]) by {
                                    assert(!extends_from(orig, i as int, o2));
                                    let l2 = choose|l2: int|
                                        0 <= l2 < ell && #[trigger] o2.take(l2) == prev.take(l2)
                                            && o2[l2] > prev[l2];
                                    if l2 == ell - 1 {
                                        assert(o2.take(ell - 1) == prev.take(ell - 1));
                                        assert(extends_from(to_int_seq(next_occ@), last + 1, o2));
                                    } else {
                                        assert(o2.take(l2) == prev.take(l2) && o2[l2] > prev[l2]);
                                    }
                                }
                            },
                        }
                    }
                    i = last + 1;
                },
            }
        }
    }

    /// Collects, in lexicographic order, every occurrence extending the
    /// partial occurrence `prefix` whose next chosen position is `>= i`.
    fn collect_from(&self, i: usize, prefix: Vec<usize>, out: &mut Vec<PattOccurrence>)
        requires
            self.wf(),
            self.pattern().len() <= self.text().len(),
            is_partial_occurrence(self.text(), self.pattern(), to_int_seq(prefix@)),
            prefix@.len() < self.pattern().len(),
            i <= self.text().len(),
            forall|a: int| 0 <= a < prefix@.len() ==> #[trigger] to_int_seq(prefix@)[a] < i,
        ensures
            final(out)@.len() >= old(out)@.len(),
            forall|m: int| 0 <= m < old(out)@.len() ==> final(out)@[m] == old(out)@[m],
            forall|m: int| old(out)@.len() <= m < final(out)@.len()
                ==> is_occurrence(self.text(), self.pattern(), to_int_seq((#[trigger] final(out)@[m])@)),
            forall|m: int| old(out)@.len() <= m < final(out)@.len()
                ==> extends_from(to_int_seq(prefix@), i as int, to_int_seq((#[trigger] final(out)@[m])@)),
            forall|o: Seq<int>|
                is_occurrence(self.text(), self.pattern(), o) && extends_from(
                    to_int_seq(prefix@),
                    i as int,
                    o,
                ) ==> exists|m: int| old(out)@.len() <= m < final(out)@.len() && to_int_seq(
                    (#[trigger] final(out)@[m])@,
                ) == o,
            forall|m1: int, m2: int| old(out)@.len() <= m1 < m2 < final(out)@.len()
                ==> lex_less(to_int_seq(final(out)@[m1]@), to_int_seq(final(out)@[m2]@)),
        decreases self.pattern().len() - prefix@.len(),
    {
        let pi: &Perm = &self.perm;
        let n: usize = self.patt.len();
        let k: usize = prefix.len();
        let needed: usize = n - k;
        let t_len: usize = pi.len();
        let mut j: usize = i;
        while t_len - j >= needed
            invariant
                self.wf(),
                self.pattern().len() <= self.text().len(),
                is_partial_occurrence(self.text(), self.pattern(), to_int_seq(prefix@)),
                prefix@.len() < self.pattern().len(),
                n == self.pattern().len(),
                k == prefix@.len(),
                needed == n - k,
                t_len == self.text().len(),
                i <= j <= t_len,
                forall|a: int| 0 <= a < prefix@.len() ==> #[trigger] to_int_seq(prefix@)[a] < j,
                out@.len() >= old(out)@.len(),
                forall|m: int| 0 <= m < old(out)@.len() ==> out@[m] == old(out)@[m],
                forall|m: int| old(out)@.len() <= m < out@.len()
                    ==> is_occurrence(self.text(), self.pattern(), to_int_seq((#[trigger] out@[m])@)),
                forall|m: int| old(out)@.len() <= m < out@.len()
                    ==> extends_from(to_int_seq(prefix@), i as int, to_int_seq((#[trigger] out@[m])@))
                        && to_int_seq((#[trigger] out@[m])@)[k as int] < j,
                forall|o: Seq<int>|
                    is_occurrence(self.text(), self.pattern(), o) && extends_from(
                        to_int_seq(prefix@),
                        i as int,
                        o,
                    ) && o[k as int] < j ==> exists|m: int| old(out)@.len() <= m < out@.len()
                        && to_int_seq((#[trigger] out@[m])@) == o,
                forall|m1: int, m2: int| old(out)@.len() <= m1 < m2 < out@.len()
                    ==> lex_less(to_int_seq(out@[m1]@), to_int_seq(out@[m2]@)),
            decreases t_len - j,
        {
            let in_range: bool = self.candidate_in_range(&prefix, j);
            let ghost cand_s = to_int_seq(prefix@).push(j as int);
            let ghost out_before = out@;
            if in_range {
                let mut candidate = clone_occ(&prefix);
                candidate.push(j);
                proof {
                    assert(to_int_seq(candidate@) =~= cand_s);
                    lemma_extend_occurrence(
                        self.pattern(),
                        self.text(),
                        to_int_seq(prefix@),
                        j as int,
                        self.patt_details@[k as int],
                    );
                }
                if needed == 1 {
                    out.push(candidate);
                    proof {
                        assert(to_int_seq(out@[out@.len() - 1]@) == cand_s);
                        assert(cand_s.take(k as int) =~= to_int_seq(prefix@));
                        assert(extends_from(to_int_seq(prefix@), i as int, cand_s));
                    }
                } else {
                    self.collect_from(j + 1, candidate, out);
                    proof {
                        assert forall|m: int| out_before.len() <= m < out@.len() implies
                            extends_from(
                                to_int_seq(prefix@),
                                i as int,
                                to_int_seq((#[trigger] out@[m])@),
                            ) && to_int_seq((#[trigger] out@[m])@)[k as int] == j by {
                            let o = to_int_seq(out@[m]@);
                            assert(extends_from(cand_s, j as int + 1, o));
                            assert(o.take(k as int + 1) == cand_s);
                            assert(forall|l: int| 0 <= l < k + 1 ==> cand_s[l] == o.take(
                                k as int + 1,
                            )[l] && #[trigger] o[l] == o.take(k as int + 1)[l]);
                            assert(o.take(k as int) =~= to_int_seq(prefix@));
                            assert(o[k as int] == j);
                        }
                    }
                }
            }
            proof {
                assert forall|m1: int, m2: int|
                    old(out)@.len() <= m1 < m2 < out@.len() implies lex_less(
                    to_int_seq(out@[m1]@),
                    to_int_seq(out@[m2]@),
                ) by {
                    if m1 < out_before.len() && m2 >= out_before.len() {
                        let a = to_int_seq(out@[m1]@);
                        let b = to_int_seq(out@[m2]@);
                        assert(out@[m1] == out_before[m1]);
                        assert(a.take(k as int) == to_int_seq(prefix@));
                        assert(b.take(k as int) == to_int_seq(prefix@));
                        assert(a[k as int] < j);
                        assert(b[k as int] == j);
                        assert(0 <= (k as int) && (k as int) < a.len() && (k as int) < b.len()
                            && a.take(k as int) == b.take(k as int) && a[k as int] < b[
                            k as int
                        ]);
                    }
                }
                let occ_s = to_int_seq(prefix@);
                assert forall|o: Seq<int>|
                    is_occurrence(self.text(), self.pattern(), o) && extends_from(
                        occ_s,
                        i as int,
                        o,
                    ) && o[k as int] < j + 1 implies exists|m: int| old(out)@.len() <= m
                        < out@.len() && to_int_seq((#[trigger] out@[m])@) == o by {
                    if o[k as int] == j {
                        assert(forall|l: int| 0 <= l < k ==> occ_s[l] == o.take(k as int)[l]
                            && #[trigger] o[l] == o.take(k as int)[l]);
                        if !in_range {
                            lemma_bounds_necessary(
                                self.pattern(),
                                self.text(),
                                occ_s,
                                o,
                                self.patt_details@[k as int],
                            );
                        } else {
                            if k + 1 == self.pattern().len() {
                                assert(o =~= cand_s);
                                let m = out@.len() - 1;
                                assert(to_int_seq(out@[m]@) == o);
                            } else {
                                lemma_step_extends(occ_s, cand_s, j as int, o);
                                let m = choose|m: int|
                                    out_before.len() <= m < out@.len() && to_int_seq(
                                        (#[trigger] out@[m])@,
                                    ) == o;
                                assert(old(out)@.len() <= m < out@.len());
                            }
                        }
                    } else {
                        let m = choose|m: int|
                            old(out)@.len() <= m < out_before.len() && to_int_seq(
                                (#[trigger] out_before[m])@,
                            ) == o;
                        assert(out@[m] == out_before[m]);
                    }
                }
            }
            j += 1;
        }
        proof {
            let occ_s = to_int_seq(prefix@);
            lemma_no_room(self.text(), self.pattern(), occ_s, j as int);
            assert forall|o: Seq<int>|
                is_occurrence(self.text(), self.pattern(), o) && extends_from(
                    occ_s,
                    i as int,
                    o,
                ) implies exists|m: int| old(out)@.len() <= m < out@.len() && to_int_seq(
                    (#[trigger] out@[m])@,
                ) == o by {
                if o[k as int] >= j {
                    assert(extends_from(occ_s, j as int, o));
                    assert(false);
                }
            }
        }
    }
}

impl Patt for Perm {
    open spec fn pview(&self) -> Seq<int> {
        self@
    }

    open spec fn pwf(&self) -> bool {
        self.wf()
    }

    fn len(&self) -> (n: usize) {
        self.len()
    }

    fn get_perm(&self) -> (p: &Perm) {
        self
    }

    fn patt_iter(&self, patt: &Perm) -> (it: IntoPattIter) {
        IntoPattIter::new(self.clone(), patt.clone())
    }

    fn occurrences_in(&self, patt: &Perm) -> (occs: Vec<PattOccurrence>) {
        let mut out: Vec<PattOccurrence> = Vec::new();
        if patt.len() == 0 || patt.len() > self.len() {
            proof {
                if patt@.len() > self@.len() {
                    lemma_pattern_too_long(self@, patt@);
                }
            }
            return out;
        }
        let it = IntoPattIter::new(self.clone(), patt.clone());
        let start: Vec<usize> = Vec::new();
        proof {
            assert(to_int_seq(start@) =~= Seq::<int>::empty());
        }
        it.collect_from(0, start, &mut out);
        proof {
            assert forall|o: Seq<int>| is_occurrence(self@, patt@, o) implies extends_from(
                Seq::<int>::empty(),
                0,
                o,
            ) by {
                assert(o.take(0) =~= Seq::<int>::empty());
                assert(0 <= o[0]);
            }
        }
        out
    }

    fn contains(&self, patt: &Perm) -> (b: bool) {
        if patt.len() == 0 || patt.len() > self.len() {
            proof {
                if patt@.len() > self@.len() {
                    lemma_pattern_too_long(self@, patt@);
                }
            }
            return false;
        }
        let it = IntoPattIter::new(self.clone(), patt.clone());
        let start: Vec<usize> = Vec::new();
        proof {
            assert(to_int_seq(start@) =~= Seq::<int>::empty());
        }
        match it.occurrences(0, start) {
            Some(o) => {
                proof {
                    assert(is_occurrence(self.pview(), patt.pview(), to_int_seq(o@)));
                }
                true
            },
            None => {
                proof {
                    assert forall|o: Seq<int>| !is_occurrence(self@, patt@, o) by {
                        if is_occurrence(self@, patt@, o) {
                            assert(o.take(0) =~= Seq::<int>::empty());
                            assert(0 <= o[0]);
                            assert(extends_from(Seq::<int>::empty(), 0, o));
                        }
                    }
                }
                false
            },
        }
    }
}

} // verus!
