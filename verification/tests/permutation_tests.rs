use permuta_rs::avoidance::AvoidanceClass;
use permuta_rs::patt::Patt;
use permuta_rs::perm::Perm;

fn perm(vals: &[usize]) -> Perm {
    Perm::try_new(vals.to_vec()).expect("valid permutation")
}

fn perm_values(p: &Perm) -> Vec<usize> {
    let mut out = Vec::new();
    let mut i = 0;
    while i < p.len() {
        out.push(p.value_at(i));
        i += 1;
    }
    out
}

#[test]
fn try_new_accepts_bijections() {
    assert!(Perm::try_new(vec![]).is_some());
    assert!(Perm::try_new(vec![0]).is_some());
    assert!(Perm::try_new(vec![2, 0, 1]).is_some());
    assert!(Perm::try_new(vec![5, 3, 0, 4, 2, 1]).is_some());
}

#[test]
fn try_new_rejects_non_bijections() {
    assert!(Perm::try_new(vec![1]).is_none());
    assert!(Perm::try_new(vec![0, 0]).is_none());
    assert!(Perm::try_new(vec![0, 2]).is_none());
    assert!(Perm::try_new(vec![3, 1, 2]).is_none());
    assert!(Perm::try_new(vec![0, 1, 1, 2]).is_none());
}

#[test]
fn append_shifts_and_places_last() {
    // [1, 0] extended with 1: old values >= 1 move up, 1 appended last.
    let p = perm(&[1, 0]);
    let q = p.append(1);
    assert_eq!(perm_values(&q), vec![2, 0, 1]);
    // extending with the extremes
    assert_eq!(perm_values(&p.append(0)), vec![2, 1, 0]);
    assert_eq!(perm_values(&p.append(2)), vec![1, 0, 2]);
}

#[test]
fn remove_deletes_and_renumbers() {
    let p = perm(&[2, 0, 3, 1]);
    assert_eq!(perm_values(&p.remove(0)), vec![0, 2, 1]);
    assert_eq!(perm_values(&p.remove(2)), vec![2, 0, 1]);
    assert_eq!(perm_values(&p.remove(3)), vec![1, 0, 2]);
}

#[test]
fn extend_remove_round_trip() {
    // removing the appended (last) position undoes the extension,
    let p = perm(&[2, 0, 3, 1]);
    for v in 0..=4 {
        let q = p.append(v);
        assert!(q.remove(4) == p);
    }
    // and re-appending a removed last value undoes the removal.
    let last = p.value_at(3);
    let r = p.remove(3);
    assert!(r.append(last) == p);
}

#[test]
fn pattern_details_first_entry() {
    let p = perm(&[2, 0, 1]);
    let d = p.pattern_details();
    assert_eq!(d.len(), 3);
    // first entry: no floor, no ceiling, gaps are value and len - value
    assert_eq!(d[0], (None, None, 2, 1));
    // 0 at position 1: below the only earlier value 2
    assert_eq!(d[1], (None, Some(0), 0, 2));
    // 1 at position 2: floor 0 (position 1), ceiling 2 (position 0)
    assert_eq!(d[2], (Some(1), Some(0), 1, 1));
}

#[test]
fn left_inf_sup_nearest_neighbors() {
    let p = perm(&[5, 3, 0, 4, 2, 1]);
    let r = p.left_inf_sup();
    assert_eq!(
        r,
        vec![
            (None, None),
            (None, Some(0)),
            (None, Some(1)),
            (Some(1), Some(0)),
            (Some(2), Some(1)),
            (Some(2), Some(4)),
        ]
    );
}

/// Brute-force order-isomorphism check of one position tuple.
fn is_occurrence_brute(text: &[usize], patt: &[usize], pos: &[usize]) -> bool {
    if pos.len() != patt.len() {
        return false;
    }
    for a in 0..pos.len() {
        if pos[a] >= text.len() {
            return false;
        }
        for b in (a + 1)..pos.len() {
            if pos[a] >= pos[b] {
                return false;
            }
            if (patt[a] < patt[b]) != (text[pos[a]] < text[pos[b]]) {
                return false;
            }
        }
    }
    true
}

/// All increasing index tuples of length `k` over `0..n`, lexicographic.
fn index_tuples(n: usize, k: usize) -> Vec<Vec<usize>> {
    let mut out = Vec::new();
    let mut stack: Vec<Vec<usize>> = vec![vec![]];
    while let Some(prefix) = stack.pop() {
        if prefix.len() == k {
            out.push(prefix);
            continue;
        }
        let lo = prefix.last().map(|x| x + 1).unwrap_or(0);
        // push in reverse so the lexicographically least is handled first
        let mut j = n;
        while j > lo {
            j -= 1;
            let mut next = prefix.clone();
            next.push(j);
            stack.push(next);
        }
    }
    out
}

#[test]
fn occurrence_scenario_high_low_middle() {
    // text [5,3,0,4,2,1], pattern [2,0,1]: every triple ordered
    // high, low, middle.
    let text = perm(&[5, 3, 0, 4, 2, 1]);
    let patt = perm(&[2, 0, 1]);
    let occs = text.occurrences_in(&patt);
    assert_eq!(
        occs,
        vec![
            vec![0, 1, 3],
            vec![0, 2, 3],
            vec![0, 2, 4],
            vec![0, 2, 5],
            vec![1, 2, 4],
            vec![1, 2, 5],
        ]
    );
}

#[test]
fn occurrence_iterator_matches_eager_collection() {
    let text = perm(&[5, 3, 0, 4, 2, 1]);
    let patt = perm(&[2, 0, 1]);
    let eager = text.occurrences_in(&patt);
    let mut it = text.patt_iter(patt.get_perm());
    let mut lazy = Vec::new();
    while let Some(occ) = it.next() {
        lazy.push(occ);
    }
    assert_eq!(lazy, eager);
    // exhausted: every further call keeps reporting no more occurrences
    assert!(it.next().is_none());
    assert!(it.next().is_none());
}

#[test]
fn occurrence_correct_and_complete_against_brute_force() {
    let texts: Vec<Vec<usize>> = vec![
        vec![5, 3, 0, 4, 2, 1],
        vec![0, 1, 2, 3, 4, 5, 6],
        vec![6, 5, 4, 3, 2, 1, 0],
        vec![3, 1, 4, 0, 5, 2, 7, 6],
        vec![2, 0, 1],
    ];
    let patts: Vec<Vec<usize>> = vec![
        vec![0],
        vec![0, 1],
        vec![1, 0],
        vec![2, 0, 1],
        vec![0, 2, 1],
        vec![1, 3, 0, 2],
    ];
    for t in &texts {
        for p in &patts {
            let text = perm(t);
            let patt = perm(p);
            let occs = text.occurrences_in(&patt);
            // every reported tuple really is an occurrence
            for occ in &occs {
                assert!(is_occurrence_brute(t, p, occ));
            }
            // the count matches the brute-force count over all tuples
            let mut brute = Vec::new();
            if p.len() <= t.len() {
                for tuple in index_tuples(t.len(), p.len()) {
                    if is_occurrence_brute(t, p, &tuple) {
                        brute.push(tuple);
                    }
                }
            }
            assert_eq!(occs, brute);
        }
    }
}

#[test]
fn empty_pattern_and_oversized_pattern_yield_nothing() {
    let text = perm(&[1, 0]);
    let empty = perm(&[]);
    let long = perm(&[2, 0, 1]);
    assert_eq!(text.occurrences_in(&empty), Vec::<Vec<usize>>::new());
    assert_eq!(text.occurrences_in(&long), Vec::<Vec<usize>>::new());
    let mut it = text.patt_iter(empty.get_perm());
    assert!(it.next().is_none());
}

#[test]
fn contains_reports_presence() {
    let text = perm(&[5, 3, 0, 4, 2, 1]);
    assert!(text.contains(&perm(&[2, 0, 1])));
    assert!(text.contains(&perm(&[1, 0])));
    // [0,1,2] needs three ascending values; [5,3,0,4,2,1] has no such triple
    assert!(!text.contains(&perm(&[0, 1, 2])));
}

fn level_value_sets(class: &AvoidanceClass, n: usize) -> Vec<Vec<usize>> {
    let mut out: Vec<Vec<usize>> = class
        .perms_of_length(n)
        .iter()
        .map(perm_values)
        .collect();
    out.sort();
    out
}

#[test]
fn avoidance_scenario_basis_021() {
    let mut class = AvoidanceClass::new(vec![perm(&[0, 2, 1])]);
    class.build_perm_class(3);
    assert_eq!(level_value_sets(&class, 0), vec![Vec::<usize>::new()]);
    assert_eq!(level_value_sets(&class, 1), vec![vec![0]]);
    assert_eq!(level_value_sets(&class, 2), vec![vec![0, 1], vec![1, 0]]);
    assert_eq!(
        level_value_sets(&class, 3),
        vec![
            vec![0, 1, 2],
            vec![1, 0, 2],
            vec![1, 2, 0],
            vec![2, 0, 1],
            vec![2, 1, 0],
        ]
    );
}

fn all_perms_go(n: usize, current: &mut Vec<usize>, out: &mut Vec<Vec<usize>>) {
    if current.len() == n {
        out.push(current.clone());
        return;
    }
    for v in 0..n {
        if !current.contains(&v) {
            current.push(v);
            all_perms_go(n, current, out);
            current.pop();
        }
    }
}

/// All permutations of length `n`, by value vectors.
fn all_perms(n: usize) -> Vec<Vec<usize>> {
    let mut out = Vec::new();
    let mut current: Vec<usize> = Vec::new();
    all_perms_go(n, &mut current, &mut out);
    out
}

#[test]
fn avoidance_sound_and_complete_for_small_lengths() {
    let basis = vec![perm(&[0, 2, 1])];
    let mut class = AvoidanceClass::new(basis);
    class.build_perm_class(5);
    let patt = perm(&[0, 2, 1]);
    // expected sizes follow the Catalan numbers for a single length-3 pattern
    let expected_sizes = [1usize, 1, 2, 5, 14, 42];
    for n in 0..=5 {
        let level = class.perms_of_length(n);
        assert_eq!(level.len(), expected_sizes[n]);
        // soundness: no member contains the basis pattern (checked with the
        // occurrence engine, independently of the builder)
        for member in &level {
            assert!(!member.contains(&patt));
        }
        // completeness: every avoider found by brute force is in the level
        let members: Vec<Vec<usize>> = level_value_sets(&class, n);
        for candidate in all_perms(n) {
            let cperm = perm(&candidate);
            if !cperm.contains(&patt) {
                assert!(members.contains(&candidate));
            }
        }
    }
}

#[test]
fn avoidance_two_pattern_basis() {
    // avoiding both [0,1,2] and [2,1,0]: by the pigeonhole argument no
    // permutation of length 5 or more survives
    let mut class = AvoidanceClass::new(vec![perm(&[0, 1, 2]), perm(&[2, 1, 0])]);
    class.build_perm_class(5);
    assert_eq!(class.perms_of_length(2).len(), 2);
    assert_eq!(class.perms_of_length(3).len(), 4);
    assert_eq!(class.perms_of_length(4).len(), 4);
    assert_eq!(class.perms_of_length(5).len(), 0);
    let p012 = perm(&[0, 1, 2]);
    let p210 = perm(&[2, 1, 0]);
    for n in 0..=4 {
        for member in &class.perms_of_length(n) {
            assert!(!member.contains(&p012));
            assert!(!member.contains(&p210));
        }
        for candidate in all_perms(n) {
            let cperm = perm(&candidate);
            if !cperm.contains(&p012) && !cperm.contains(&p210) {
                assert!(level_value_sets(&class, n).contains(&candidate));
            }
        }
    }
}

#[test]
fn building_twice_is_idempotent() {
    let mut class1 = AvoidanceClass::new(vec![perm(&[0, 2, 1])]);
    class1.build_perm_class(4);
    class1.build_perm_class(4);
    class1.build_perm_class(2);
    let mut class2 = AvoidanceClass::new(vec![perm(&[0, 2, 1])]);
    class2.build_perm_class(2);
    class2.build_perm_class(4);
    for n in 0..=4 {
        assert_eq!(level_value_sets(&class1, n), level_value_sets(&class2, n));
    }
}
