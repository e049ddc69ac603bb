use data_structures::algorithm::backtracing::all_combination_of_size_k::generate_all_combinations;
use data_structures::algorithm::backtracing::permutations::permute;

#[test]
fn all_combination_of_size_k_test_output() {
    assert_eq!(
        generate_all_combinations(4, 2),
        vec![
            vec![1, 2],
            vec![1, 3],
            vec![1, 4],
            vec![2, 3],
            vec![2, 4],
            vec![3, 4],
        ]
    )
}

#[test]
fn test_empty() {
    assert_eq!(generate_all_combinations(4, 0), vec![vec![]]);
}

#[test]
fn permutations_test_output() {
    let result = permute(&(1..4).collect());
    assert_eq!(result.len(), 6);
    assert!(result.contains(&vec![1, 2, 3]));
    assert!(result.contains(&vec![1, 3, 2]));
    assert!(result.contains(&vec![2, 1, 3]));
    assert!(result.contains(&vec![2, 3, 1]));
    assert!(result.contains(&vec![3, 1, 2]));
    assert!(result.contains(&vec![3, 2, 1]));
}

#[test]
fn combinations_at_the_edges() {
    assert_eq!(generate_all_combinations(3, 5), Vec::<Vec<i32>>::new());
    assert_eq!(generate_all_combinations(5, 5), vec![vec![1, 2, 3, 4, 5]]);
    assert_eq!(generate_all_combinations(3, 1), vec![vec![1], vec![2], vec![3]]);
    assert_eq!(generate_all_combinations(0, 1), Vec::<Vec<i32>>::new());
    assert_eq!(generate_all_combinations(-3, 2), Vec::<Vec<i32>>::new());
    assert_eq!(generate_all_combinations(4, -1), vec![Vec::<i32>::new()]);
    assert_eq!(generate_all_combinations(0, 0), vec![Vec::<i32>::new()]);
    assert_eq!(generate_all_combinations(i32::MIN, 1), Vec::<Vec<i32>>::new());
    assert_eq!(generate_all_combinations(i32::MIN, i32::MAX), Vec::<Vec<i32>>::new());
}

#[test]
fn combinations_are_counted_by_the_binomial() {
    assert_eq!(generate_all_combinations(6, 3).len(), 20);
    assert_eq!(generate_all_combinations(10, 4).len(), 210);
    let rows = generate_all_combinations(7, 3);
    for row in rows.iter() {
        assert_eq!(row.len(), 3);
        assert!(row.windows(2).all(|w| w[0] < w[1]));
        assert!(row.iter().all(|x| 1 <= *x && *x <= 7));
    }
    assert!(rows.windows(2).all(|w| w[0] < w[1]));
    assert!(rows.contains(&vec![2, 5, 7]));
}

#[test]
fn permutations_come_in_the_order_of_the_exchanges() {
    assert_eq!(
        permute(&vec![1, 2, 3]),
        vec![
            vec![1, 2, 3],
            vec![1, 3, 2],
            vec![2, 1, 3],
            vec![2, 3, 1],
            vec![3, 2, 1],
            vec![3, 1, 2],
        ]
    );
}

#[test]
fn permutations_at_the_edges() {
    assert_eq!(permute(&vec![]), vec![Vec::<i32>::new()]);
    assert_eq!(permute(&vec![7]), vec![vec![7]]);
    assert_eq!(permute(&vec![5, 5]), vec![vec![5, 5], vec![5, 5]]);
}

#[test]
fn permutations_are_counted_by_the_factorial() {
    let input = vec![4, 8, 15, 16, 23];
    let rows = permute(&input);
    assert_eq!(rows.len(), 120);
    for row in rows.iter() {
        let mut sorted = row.clone();
        sorted.sort();
        assert_eq!(sorted, input);
    }
    assert_eq!(input, vec![4, 8, 15, 16, 23]);
}
