use version_sorter::sorter::{do_sort, Direction};
use version_sorter::{ascending_sort, compare, descending_sort};

fn batch(items: &[&str]) -> Vec<String> {
    items.iter().map(|s| s.to_string()).collect()
}

fn is_permutation(order: &[u32], n: usize) -> bool {
    let mut seen = vec![false; n];
    for &p in order {
        if p as usize >= n || seen[p as usize] {
            return false;
        }
        seen[p as usize] = true;
    }
    order.len() == n
}

#[test]
fn numbers_sort_by_value_not_by_text() {
    assert_eq!(ascending_sort(batch(&["10", "9", "2"])), vec![2, 1, 0]);
}

#[test]
fn descending_puts_the_greatest_first() {
    assert_eq!(descending_sort(batch(&["10", "9", "2"])), vec![0, 1, 2]);
    assert_eq!(descending_sort(batch(&["2", "10", "9"])), vec![1, 2, 0]);
}

#[test]
fn empty_batch_gives_empty_result() {
    assert_eq!(ascending_sort(Vec::new()), Vec::<u32>::new());
    assert_eq!(descending_sort(Vec::new()), Vec::<u32>::new());
}

#[test]
fn single_string_gives_its_position() {
    assert_eq!(ascending_sort(batch(&["1.0"])), vec![0]);
    assert_eq!(descending_sort(batch(&["1.0"])), vec![0]);
}

#[test]
fn a_list_of_releases() {
    let versions = batch(&[
        "1.0.9", "2.0", "1.0.10", "1.0.3", "2.0.pre", "1.0.9a", "2.0.1", "1.10", "0.9",
    ]);
    // 0.9 < 1.0.3 < 1.0.9a < 1.0.9 < 1.0.10 < 1.10 < 2.0.pre < 2.0 < 2.0.1
    assert_eq!(ascending_sort(versions.clone()), vec![8, 3, 5, 0, 2, 7, 4, 1, 6]);
    assert_eq!(descending_sort(versions), vec![6, 1, 4, 7, 2, 0, 5, 3, 8]);
}

#[test]
fn descending_is_ascending_reversed_without_ties() {
    let versions = batch(&[
        "3.1", "1.0", "1.0.1", "2", "1.0-rc.1", "10.2", "2.b", "2.a", "0.0.0.1", "",
    ]);
    for (i, a) in versions.iter().enumerate() {
        for (j, b) in versions.iter().enumerate() {
            assert!(i == j || compare(a, b) != 0);
        }
    }
    let up = ascending_sort(versions.clone());
    let mut down = descending_sort(versions);
    down.reverse();
    assert_eq!(up, down);
}

#[test]
fn duplicates_give_a_permutation() {
    let versions = batch(&["1.0", "2.0", "1.0", "1.0", "2.0", "0.1", "1.0"]);
    let up = ascending_sort(versions.clone());
    assert!(is_permutation(&up, 7));
    assert_eq!(up[0], 5);
    for k in 1..5 {
        assert_eq!(versions[up[k] as usize], "1.0");
    }
    for k in 5..7 {
        assert_eq!(versions[up[k] as usize], "2.0");
    }
    let down = descending_sort(versions.clone());
    assert!(is_permutation(&down, 7));
    assert_eq!(down[6], 5);
    for k in 0..2 {
        assert_eq!(versions[down[k] as usize], "2.0");
    }
}

#[test]
fn neighbours_are_in_order() {
    let versions = batch(&[
        "ac1", "a2", "ab3", "1.9", "1.10", "a", "ab", "", "-", "1.0-rc1", "1.0", "zz", "1.2.3",
        "v1.9", "v1.10", "9999999999", "4294967296", "a.b", "x-y",
    ]);
    let up = ascending_sort(versions.clone());
    assert!(is_permutation(&up, versions.len()));
    for k in 1..up.len() {
        let (a, b) = (&versions[up[k - 1] as usize], &versions[up[k] as usize]);
        assert!(compare(a, b) <= 0, "{:?} {:?}", a, b);
    }
    let down = descending_sort(versions.clone());
    assert!(is_permutation(&down, versions.len()));
    for k in 1..down.len() {
        let (a, b) = (&versions[down[k - 1] as usize], &versions[down[k] as usize]);
        assert!(compare(a, b) >= 0, "{:?} {:?}", a, b);
    }
}

#[test]
fn a_large_batch_is_sorted() {
    let mut versions = Vec::new();
    let mut seed: u32 = 12345;
    for _ in 0..500 {
        seed = seed.wrapping_mul(1_103_515_245).wrapping_add(12345);
        let major = (seed >> 16) % 5;
        seed = seed.wrapping_mul(1_103_515_245).wrapping_add(12345);
        let minor = (seed >> 16) % 30;
        seed = seed.wrapping_mul(1_103_515_245).wrapping_add(12345);
        let patch = (seed >> 16) % 200;
        versions.push(format!("{}.{}.{}", major, minor, patch));
    }
    let up = ascending_sort(versions.clone());
    assert!(is_permutation(&up, 500));
    for j in 0..up.len() {
        for k in j + 1..up.len() {
            assert!(compare(&versions[up[j] as usize], &versions[up[k] as usize]) <= 0);
        }
    }
}

#[test]
fn direction_selects_the_order() {
    let versions = batch(&["b", "a", "c"]);
    assert_eq!(do_sort(versions.clone(), Direction::Ascending), vec![1, 0, 2]);
    assert_eq!(do_sort(versions, Direction::Descending), vec![2, 0, 1]);
}

#[test]
fn a_circle_of_strings_is_still_permuted() {
    let versions = batch(&["ac1", "a2", "ab3"]);
    assert_eq!(ascending_sort(versions.clone()), vec![0, 1, 2]);
    assert_eq!(descending_sort(versions), vec![0, 2, 1]);
}
