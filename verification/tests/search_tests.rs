use labs_search::bit_sequence::BitSequence;
use labs_search::energy::{calculate_e_min, final_energy, modular_min_abs};
use labs_search::roots::{generate_roots, is_canonical_root, lex_le_vec};
use labs_search::search::{branch, search_step};
use labs_search::symmetry::{alternate_complement, complement, reverse};

fn to_bools(s: &str) -> Vec<bool> {
    s.chars().map(|c| c == '+').collect()
}

fn energy_of(x: &[bool]) -> isize {
    let n = x.len();
    let mut e = 0isize;
    for k in 1..n {
        let mut c = 0isize;
        for i in 0..n - k {
            c += if x[i] != x[i + k] { -1 } else { 1 };
        }
        e += c * c;
    }
    e
}

/// Builds a node with `m` signs fixed at each end, all bookkeeping from scratch.
fn node(n: usize, left: &str, right: &str) -> BitSequence {
    let mut b = BitSequence::new(n);
    let mut s = to_bools(left);
    s.extend(to_bools(right));
    b.m = left.len();
    b.sequence = s;
    b.initialize_fixed_energys();
    b.multi_update_fixed_energys();
    b.multi_update_u_min_max();
    b
}

fn best_energy(n: usize, bound: isize) -> isize {
    let roots = generate_roots(n);
    let mut best = bound;
    for root in roots.iter() {
        let mut stack = vec![root.clone()];
        while !stack.is_empty() {
            let found = search_step(&mut stack, best);
            for inc in found {
                assert_eq!(inc.energy, energy_of(&inc.sequence.sequence));
                assert_eq!(inc.sequence.sequence.len(), n);
                if inc.energy < best {
                    best = inc.energy;
                }
            }
        }
    }
    best
}

#[test]
fn optimal_energy_n13_is_barker() {
    assert_eq!(best_energy(13, 1000), 6);
}

#[test]
fn optimal_energy_n11() {
    assert_eq!(best_energy(11, 1000), 5);
}

#[test]
fn optimal_energy_n12() {
    assert_eq!(best_energy(12, 1000), 10);
}

#[test]
fn optimal_energy_n14() {
    assert_eq!(best_energy(14, 1000), 19);
}

#[test]
fn optimal_energy_n17() {
    assert_eq!(best_energy(17, 1000), 32);
}

#[test]
fn optimal_energy_n20() {
    assert_eq!(best_energy(20, 1000), 26);
}

#[test]
fn bound_below_optimum_finds_nothing() {
    assert_eq!(best_energy(13, 6), 6);
}

#[test]
fn modular_min_abs_values() {
    assert_eq!(modular_min_abs(7, 4), 1);
    assert_eq!(modular_min_abs(6, 4), 2);
    assert_eq!(modular_min_abs(-7, 4), 1);
    assert_eq!(modular_min_abs(-6, 4), 2);
    assert_eq!(modular_min_abs(5, 2), 1);
    assert_eq!(modular_min_abs(-4, 2), 0);
    assert_eq!(modular_min_abs(0, 4), 0);
    assert_eq!(modular_min_abs(3, -4), 7);
    assert_eq!(modular_min_abs(-5, isize::MIN), isize::MAX - 4);
}

#[test]
fn complete_even_node_bound_is_energy() {
    let full = to_bools("++++--+-+-+-");
    let mut c = node(12, "++++--", "+-+-+-");
    assert!(c.u_max.iter().all(|u| *u == 0) && c.u_min.iter().all(|u| *u == 0));
    let e = calculate_e_min(&mut c);
    assert_eq!(e, energy_of(&full));
    assert_eq!(final_energy(&c), energy_of(&full));
}

#[test]
fn fixed_energies_count_fixed_pairs() {
    // n = 8, two fixed at each end: x = + - ? ? ? ? + +
    let b = node(8, "+-", "++");
    // lag 7: pair (0, 7) = + + -> 1
    assert_eq!(b.fixed_energys[6], 1);
    // lag 6: pairs (0, 6) = + + and (1, 7) = - + -> 0
    assert_eq!(b.fixed_energys[5], 0);
    // lag 1: pairs (0, 1) = + - and (6, 7) = + + -> 0
    assert_eq!(b.fixed_energys[0], 0);
    // lag 5: pairs (1, 6) = - + -> -1; (0, 5) and (2, 7) touch free positions
    assert_eq!(b.fixed_energys[4], -1);
}

#[test]
fn free_ranges_match_brute_force() {
    let n = 12;
    let b = node(n, "+-++", "--+-");
    let free = n - 8;
    for k in 0..n - 1 {
        let lag = k + 1;
        let mut hi = isize::MIN;
        let mut lo = isize::MAX;
        for mask in 0..(1usize << free) {
            let mut x = to_bools("+-++");
            for j in 0..free {
                x.push(mask & (1 << j) != 0);
            }
            x.extend(to_bools("--+-"));
            let mut c = 0isize;
            for i in 0..n - lag {
                let fi = i < 4 || i >= n - 4;
                let fj = i + lag < 4 || i + lag >= n - 4;
                if !(fi && fj) {
                    c += if x[i] != x[i + lag] { -1 } else { 1 };
                }
            }
            hi = hi.max(c);
            lo = lo.min(c);
        }
        assert_eq!(b.u_max[k] as isize, hi, "lag {}", lag);
        assert_eq!(b.u_min[k] as isize, -lo, "lag {}", lag);
    }
}

#[test]
fn incremental_update_matches_from_scratch() {
    let n = 15;
    let mut parent = node(n, "+-+", "--+");
    let child = branch(&mut parent);
    let expected = node(n, "+-+-", "---+");
    assert_eq!(child.sequence, expected.sequence);
    assert_eq!(child.fixed_energys, expected.fixed_energys);
    assert_eq!(child.u_max, expected.u_max);
    assert_eq!(child.u_min, expected.u_min);
    assert!(parent.branched_mm);
}

#[test]
fn branch_hands_out_four_extensions_in_order() {
    let n = 14;
    let mut parent = node(n, "++", "+-");
    let c1 = branch(&mut parent);
    let c2 = branch(&mut parent);
    let c3 = branch(&mut parent);
    let c4 = branch(&mut parent);
    assert_eq!(c1.sequence, to_bools("++--+-"));
    assert_eq!(c2.sequence, to_bools("++-++-"));
    assert_eq!(c3.sequence, to_bools("+++-+-"));
    assert_eq!(c4.sequence, to_bools("+++++-"));
    assert!(parent.branched_pp && parent.branched_pm && parent.branched_mp && parent.branched_mm);
    assert_eq!(c4.m, 3);
}

#[test]
fn set_last_bit_completes_odd_sequence() {
    let mut b = node(11, "+++--", "+-+-+");
    b.set_last_bit(true);
    let x = to_bools("+++--++-+-+");
    assert_eq!(b.sequence, x);
    assert_eq!(final_energy(&b), energy_of(&x));
}

#[test]
fn lower_bound_never_exceeds_completions() {
    let n = 13;
    let b = node(n, "+-+", "++-");
    let mut c = b.clone();
    let bound = calculate_e_min(&mut c);
    let free = n - 6;
    for mask in 0..(1usize << free) {
        let mut x = to_bools("+-+");
        for j in 0..free {
            x.push(mask & (1 << j) != 0);
        }
        x.extend(to_bools("++-"));
        assert!(bound <= energy_of(&x));
    }
}

#[test]
fn symmetries_keep_energy() {
    let x = "+++++--++-+-+";
    let mut b = BitSequence::new(13);
    b.sequence = to_bools(x);
    let e = energy_of(&b.sequence);
    let mut r = b.clone();
    reverse(&mut r);
    assert_eq!(r.sequence, to_bools("+-+-++--+++++"));
    assert_eq!(energy_of(&r.sequence), e);
    let mut c = b.clone();
    complement(&mut c);
    assert_eq!(c.sequence, to_bools("-----++--+-+-"));
    assert_eq!(energy_of(&c.sequence), e);
    let mut a = BitSequence::new(12);
    a.sequence = to_bools("++++--+-+-+-");
    let ea = energy_of(&a.sequence);
    alternate_complement(&mut a);
    assert_eq!(a.sequence, to_bools("-+-++-------"));
    assert_eq!(energy_of(&a.sequence), ea);
}

#[test]
fn to_pm_string_writes_signs() {
    let mut b = BitSequence::new(4);
    b.sequence = to_bools("+--+");
    assert_eq!(b.to_pm_string(), "+--+");
}

#[test]
fn lexicographic_order() {
    assert!(lex_le_vec(&to_bools("--+"), &to_bools("-+-")));
    assert!(!lex_le_vec(&to_bools("-+-"), &to_bools("--+")));
    assert!(lex_le_vec(&to_bools("-+"), &to_bools("-+-")));
    assert!(lex_le_vec(&to_bools("+-+"), &to_bools("+-+")));
}

#[test]
fn roots_are_canonical_and_initialized() {
    let roots = generate_roots(13);
    assert!(!roots.is_empty());
    for r in roots.iter() {
        assert!(is_canonical_root(r));
        assert_eq!(r.m, 5);
        assert_eq!(r.n, 13);
    }
    // all-minus prefix is the smallest of its class
    assert!(roots.iter().any(|r| r.sequence.iter().all(|b| !*b)));
}

fn completion_energies(prefix: &[bool], n: usize) -> Vec<isize> {
    let f = n - prefix.len();
    let mut out = Vec::new();
    for bits in 0..(1usize << f) {
        let mut x: Vec<bool> = prefix[..5].to_vec();
        for j in 0..f {
            x.push(bits & (1 << j) != 0);
        }
        x.extend_from_slice(&prefix[5..]);
        out.push(energy_of(&x));
    }
    out
}

#[test]
fn roots_lose_no_energy() {
    for n in [12usize, 13] {
        let roots = generate_roots(n);
        let root_energies: Vec<Vec<isize>> =
            roots.iter().map(|r| completion_energies(&r.sequence, n)).collect();
        for i in 0..1024usize {
            let prefix: Vec<bool> = (0..10).map(|j| i & (1 << j) != 0).collect();
            let mine = completion_energies(&prefix, n);
            let covered = root_energies
                .iter()
                .any(|theirs| mine.iter().all(|e| theirs.contains(e)));
            assert!(covered, "prefix {} of length {} has no root", i, n);
        }
    }
}

fn recomputed(mut b: BitSequence) -> BitSequence {
    b.initialize_fixed_energys();
    b.multi_update_fixed_energys();
    b.multi_update_u_min_max();
    b
}

#[test]
fn symmetries_of_stored_signs_keep_or_swap_ranges() {
    for (n, left, right) in [(11usize, "+-++", "-+--"), (12, "++-", "+--"), (13, "-++--", "+-+-+")] {
        let s = node(n, left, right);
        let mut r = s.clone();
        reverse(&mut r);
        let r = recomputed(r);
        let mut c = s.clone();
        complement(&mut c);
        let c = recomputed(c);
        let mut a = s.clone();
        alternate_complement(&mut a);
        let a = recomputed(a);
        assert_eq!(r.fixed_energys, s.fixed_energys);
        assert_eq!(r.u_max, s.u_max);
        assert_eq!(r.u_min, s.u_min);
        assert_eq!(c.fixed_energys, s.fixed_energys);
        assert_eq!(c.u_max, s.u_max);
        assert_eq!(c.u_min, s.u_min);
        for k in 0..n - 1 {
            if (k + 1) % 2 == 1 {
                assert_eq!(a.fixed_energys[k], -s.fixed_energys[k]);
                assert_eq!(a.u_max[k], s.u_min[k]);
                assert_eq!(a.u_min[k], s.u_max[k]);
            } else {
                assert_eq!(a.fixed_energys[k], s.fixed_energys[k]);
                assert_eq!(a.u_max[k], s.u_max[k]);
                assert_eq!(a.u_min[k], s.u_min[k]);
            }
        }
    }
}

#[test]
fn ranges_have_equal_parity_and_fit_the_lag() {
    for (n, left, right) in [(11usize, "+-++", "-+--"), (12, "++-", "+--"), (14, "-+", "+-")] {
        let s = node(n, left, right);
        let m = left.len();
        for k in 0..n - 1 {
            assert_eq!(s.u_max[k] % 2, s.u_min[k] % 2);
            assert!(s.u_max[k] <= n - (k + 1));
            assert!(s.u_min[k] <= n - (k + 1));
            if k + 1 >= n - m {
                assert_eq!(s.u_max[k], 0);
                assert_eq!(s.u_min[k], 0);
            }
        }
    }
}

#[test]
fn bound_without_free_pairs_is_sum_of_squares() {
    let mut b = BitSequence::new(6);
    b.fixed_energys = vec![3, -2, 1, 0, -1];
    b.u_max = vec![0; 5];
    b.u_min = vec![0; 5];
    assert_eq!(calculate_e_min(&mut b), 15);
    assert_eq!(final_energy(&b), 15);
}
