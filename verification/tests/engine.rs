use code_2015::allocation::all_combinations;
use code_2015::optimizer::{optimize, optimize_ties, Direction, EngineError, TieSet, Winner};
use code_2015::ordering::permutations;
use code_2015::scoring::{cyclic_sum, path_sum, CyclicSum, PathSum};
use code_2015::table::WeightTable;

fn factorial(n: usize) -> usize {
    (1..=n).product()
}

fn binomial(n: usize, r: usize) -> usize {
    if r > n {
        return 0;
    }
    let mut c: usize = 1;
    for i in 0..r {
        c = c * (n - i) / (i + 1);
    }
    c
}

#[test]
fn orderings_in_enumeration_order() {
    assert_eq!(permutations(Vec::new()), Vec::<Vec<usize>>::new());
    assert_eq!(permutations(vec![7]), vec![vec![7]]);
    assert_eq!(permutations(vec![1, 2]), vec![vec![1, 2], vec![2, 1]]);
    assert_eq!(
        permutations(vec![1, 2, 3]),
        vec![
            vec![1, 2, 3],
            vec![2, 1, 3],
            vec![2, 3, 1],
            vec![1, 3, 2],
            vec![3, 1, 2],
            vec![3, 2, 1]
        ]
    );
}

#[test]
fn orderings_are_all_the_permutations() {
    for n in 1..=6usize {
        let items: Vec<usize> = (0..n).map(|i| 10 * i + 3).collect();
        let all = permutations(items.clone());
        assert_eq!(all.len(), factorial(n));
        let mut sorted_items = items.clone();
        sorted_items.sort();
        for p in all.iter() {
            let mut q = p.clone();
            q.sort();
            assert_eq!(q, sorted_items);
        }
        let mut distinct = all.clone();
        distinct.sort();
        distinct.dedup();
        assert_eq!(distinct.len(), all.len());
    }
}

#[test]
fn splits_in_enumeration_order() {
    let none: [u8; 0] = [];
    assert_eq!(all_combinations(&none, 5), Vec::<Vec<u32>>::new());
    assert_eq!(all_combinations(&['a'], 5), vec![vec![5]]);
    assert_eq!(all_combinations(&['a'], 0), vec![vec![0]]);
    assert_eq!(all_combinations(&['a', 'b'], 2), vec![vec![0, 2], vec![1, 1], vec![2, 0]]);
    assert_eq!(all_combinations(&['a', 'b', 'c'], 0), vec![vec![0, 0, 0]]);
    assert_eq!(
        all_combinations(&['a', 'b', 'c'], 2),
        vec![
            vec![0, 0, 2],
            vec![0, 1, 1],
            vec![0, 2, 0],
            vec![1, 0, 1],
            vec![1, 1, 0],
            vec![2, 0, 0]
        ]
    );
}

#[test]
fn splits_are_counted_by_the_binomial() {
    for k in 1..=4usize {
        let items: Vec<usize> = (0..k).collect();
        for total in 0..=7u32 {
            let all = all_combinations(&items, total);
            assert_eq!(all.len(), binomial(total as usize + k - 1, k - 1));
            for split in all.iter() {
                assert_eq!(split.len(), k);
                assert_eq!(split.iter().sum::<u32>(), total);
            }
            let mut distinct = all.clone();
            distinct.sort();
            distinct.dedup();
            assert_eq!(distinct.len(), all.len());
        }
    }
    let four = [0u8; 4];
    assert_eq!(all_combinations(&four, 100).len(), 176851);
}

fn table_of(size: usize, weights: &[(usize, usize, i64)]) -> WeightTable {
    let mut table = WeightTable::new(size);
    for (a, b, w) in weights {
        table.set(*a, *b, *w);
    }
    table
}

#[test]
fn table_holds_what_was_set() {
    let mut table = table_of(3, &[(0, 1, 5), (1, 0, -5)]);
    assert_eq!(table.size(), 3);
    assert_eq!(table.get(0, 1), Some(5));
    assert_eq!(table.get(1, 0), Some(-5));
    assert_eq!(table.get(0, 0), None);
    assert_eq!(table.get(0, 3), None);
    assert_eq!(table.get(7, 0), None);
    table.set(0, 1, 6);
    assert_eq!(table.get(0, 1), Some(6));
    table.unset(0, 1);
    assert_eq!(table.get(0, 1), None);
    assert_eq!(table.get(1, 0), Some(-5));
}

#[test]
fn path_sum_of_two_is_the_one_weight() {
    let table = table_of(2, &[(0, 1, 7), (1, 0, 100)]);
    assert_eq!(path_sum(&table, &vec![0, 1]), Ok(7));
    assert_eq!(path_sum(&table, &vec![1, 0]), Ok(100));
}

#[test]
fn path_sum_goes_one_way_and_does_not_return() {
    let table = table_of(3, &[(0, 1, 1), (1, 2, 10), (2, 0, 100), (1, 0, 1000)]);
    assert_eq!(path_sum(&table, &vec![0, 1, 2]), Ok(11));
    assert_eq!(path_sum(&table, &vec![2, 0, 1]), Ok(101));
    assert_eq!(path_sum(&table, &vec![0]), Ok(0));
    assert_eq!(path_sum(&table, &Vec::new()), Ok(0));
    assert_eq!(
        path_sum(&table, &vec![0, 2, 1]),
        Err(EngineError::MissingWeight { from: 0, to: 2 })
    );
    assert_eq!(
        path_sum(&table, &vec![1, 2, 1, 0]),
        Err(EngineError::MissingWeight { from: 2, to: 1 })
    );
}

#[test]
fn cyclic_sum_of_fewer_than_two_is_zero() {
    let table = table_of(2, &[]);
    assert_eq!(cyclic_sum(&table, &Vec::new()), Ok(0));
    assert_eq!(cyclic_sum(&table, &vec![0]), Ok(0));
    assert_eq!(cyclic_sum(&table, &vec![1]), Ok(0));
}

#[test]
fn cyclic_sum_counts_both_ways_round() {
    let table = table_of(
        3,
        &[(0, 1, 1), (1, 0, 2), (1, 2, 10), (2, 1, 20), (2, 0, 100), (0, 2, 200)],
    );
    assert_eq!(cyclic_sum(&table, &vec![0, 1, 2]), Ok(333));
    assert_eq!(cyclic_sum(&table, &vec![2, 1, 0]), Ok(333));
    assert_eq!(cyclic_sum(&table, &vec![0, 1]), Ok(6));
    let partial = table_of(3, &[(0, 1, 1), (1, 0, 2), (1, 2, 10)]);
    assert_eq!(
        cyclic_sum(&partial, &vec![0, 1, 2]),
        Err(EngineError::MissingWeight { from: 2, to: 1 })
    );
    assert_eq!(
        cyclic_sum(&partial, &vec![2, 0]),
        Err(EngineError::MissingWeight { from: 2, to: 0 })
    );
}

#[test]
fn single_winner_is_the_first_best() {
    let table = table_of(3, &[(0, 1, 5), (1, 0, 5), (0, 2, 5), (2, 0, 5), (1, 2, 9), (2, 1, 9)]);
    let candidates = permutations(vec![0, 1, 2]);
    let rule = PathSum { table: &table };
    assert_eq!(
        optimize(&candidates, &rule, Direction::Min),
        Ok(Winner { score: 10, index: 1 })
    );
    assert_eq!(
        optimize(&candidates, &rule, Direction::Max),
        Ok(Winner { score: 14, index: 0 })
    );
}

#[test]
fn tie_set_holds_all_and_only_the_best() {
    let table = table_of(3, &[(0, 1, 5), (1, 0, 5), (0, 2, 5), (2, 0, 5), (1, 2, 9), (2, 1, 9)]);
    let candidates = permutations(vec![0, 1, 2]);
    let rule = PathSum { table: &table };
    // path sums in order: 14, 10, 14, 14, 10, 14
    assert_eq!(
        optimize_ties(&candidates, &rule, Direction::Min),
        Ok(TieSet { score: 10, winners: vec![1, 4] })
    );
    assert_eq!(
        optimize_ties(&candidates, &rule, Direction::Max),
        Ok(TieSet { score: 14, winners: vec![0, 2, 3, 5] })
    );
    let cycle = CyclicSum { table: &table };
    assert_eq!(
        optimize_ties(&candidates, &cycle, Direction::Max),
        Ok(TieSet { score: 38, winners: vec![0, 1, 2, 3, 4, 5] })
    );
}

#[test]
fn no_candidate_is_an_error() {
    let table = table_of(1, &[]);
    let rule = PathSum { table: &table };
    let none: Vec<Vec<usize>> = Vec::new();
    assert_eq!(optimize(&none, &rule, Direction::Min), Err(EngineError::EmptyUniverse));
    assert_eq!(optimize_ties(&none, &rule, Direction::Max), Err(EngineError::EmptyUniverse));
}

#[test]
fn a_missing_weight_stops_the_search() {
    let table = table_of(3, &[(0, 1, 5), (1, 2, 9)]);
    let candidates = permutations(vec![0, 1, 2]);
    let rule = PathSum { table: &table };
    // the first ordering, 0 1 2, is complete; the second, 1 0 2, is not
    assert_eq!(
        optimize(&candidates, &rule, Direction::Min),
        Err(EngineError::MissingWeight { from: 1, to: 0 })
    );
    assert_eq!(
        optimize_ties(&candidates, &rule, Direction::Min),
        Err(EngineError::MissingWeight { from: 1, to: 0 })
    );
}

#[test]
fn a_second_run_returns_the_same() {
    let table = table_of(3, &[(0, 1, 5), (1, 0, 5), (0, 2, 5), (2, 0, 5), (1, 2, 9), (2, 1, 9)]);
    let rule = PathSum { table: &table };
    let first = optimize_ties(&permutations(vec![0, 1, 2]), &rule, Direction::Min);
    let second = optimize_ties(&permutations(vec![0, 1, 2]), &rule, Direction::Min);
    assert_eq!(first, second);
    let first = optimize(&permutations(vec![0, 1, 2]), &rule, Direction::Max);
    let second = optimize(&permutations(vec![0, 1, 2]), &rule, Direction::Max);
    assert_eq!(first, second);
}
