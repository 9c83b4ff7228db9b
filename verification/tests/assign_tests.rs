use openmoonvy_mcp_rs::assign::{hungarian_min, saturating_square, COST_INF};

fn total(cost: &[Vec<i64>], a: &[usize]) -> i128 {
    a.iter().enumerate().map(|(r, &c)| cost[r][c] as i128).sum()
}

fn permutations(n: usize) -> Vec<Vec<usize>> {
    if n == 0 {
        return vec![vec![]];
    }
    let mut out = Vec::new();
    for p in permutations(n - 1) {
        for k in 0..=p.len() {
            let mut q = p.clone();
            q.insert(k, n - 1);
            out.push(q);
        }
    }
    out
}

fn is_permutation(a: &[usize]) -> bool {
    let mut seen = vec![false; a.len()];
    for &c in a {
        if c >= a.len() || seen[c] {
            return false;
        }
        seen[c] = true;
    }
    true
}

#[test]
fn hungarian_finds_least_cost_assignment() {
    let cost = vec![vec![4, 1, 3], vec![2, 0, 5], vec![3, 2, 2]];
    let a = hungarian_min(&cost);
    assert_eq!(a, vec![1, 0, 2]);
    assert_eq!(total(&cost, &a), 5);
}

#[test]
fn hungarian_matches_brute_force() {
    let mut seed: u64 = 7;
    for n in 1..=5usize {
        for _ in 0..20 {
            let mut cost = vec![vec![0i64; n]; n];
            for row in cost.iter_mut() {
                for c in row.iter_mut() {
                    seed = seed.wrapping_mul(6364136223846793005).wrapping_add(1442695040888963407);
                    *c = ((seed >> 33) % 50) as i64;
                    if (seed >> 20) % 7 == 0 {
                        *c = COST_INF;
                    }
                }
            }
            let a = hungarian_min(&cost);
            assert!(is_permutation(&a));
            let best = permutations(n).iter().map(|p| total(&cost, p)).min().unwrap();
            assert_eq!(total(&cost, &a), best);
        }
    }
}

#[test]
fn saturated_squares() {
    assert_eq!(saturating_square(-3), 9);
    assert_eq!(saturating_square(i64::MIN), i64::MAX);
    assert_eq!(saturating_square(3_037_000_500), i64::MAX);
}
