use recommender::aggregate::recommend_items_for_user;
use recommender::errors::RecError;
use recommender::fixed::SCALE;
use recommender::matrix::Matrix;
use recommender::similarity::{
    compute_item_item_similarity, create_user_item_matrix, find_k_nearest_neighbors,
    highest_rated_films, most_frequently_rated_films,
};

fn scaled(x: f64) -> u64 {
    (x * SCALE as f64).round() as u64
}

/// A 3-user x 4-item rating matrix, rows are users.
fn sample_matrix() -> Matrix {
    let rows: Vec<Vec<f64>> = vec![
        vec![4.0, 5.0, 4.0, 1.0],
        vec![3.0, 5.0, 0.0, 2.0],
        vec![0.0, 0.0, 3.0, 4.0],
    ];
    let mut data: Vec<u64> = Vec::new();
    for r in &rows {
        for &v in r {
            data.push(scaled(v));
        }
    }
    Matrix { rows: 3, cols: 4, data }
}

#[test]
fn test_similarity_computation() {
    let matrix = sample_matrix();
    let similarity_matrix = compute_item_item_similarity(&matrix);

    // Diagonal elements are 1 (self-similarity) for every rated item.
    for i in 0..similarity_matrix.rows {
        let s = similarity_matrix.get(i, i) as f64 / SCALE as f64;
        assert!((s - 1.0).abs() < 1e-6);
    }
}

#[test]
fn test_user_matrix() {
    let entries: Vec<(usize, usize, u64)> = vec![
        (0, 0, scaled(4.0)),
        (0, 1, scaled(5.0)),
        (0, 2, scaled(4.0)),
        (0, 3, scaled(1.0)),
        (1, 0, scaled(3.0)),
        (1, 1, scaled(5.0)),
        (1, 3, scaled(2.0)),
        (2, 2, scaled(3.0)),
        (2, 3, scaled(4.0)),
    ];
    let matrix = create_user_item_matrix(3, 4, &entries);

    println!("Top 10 Most Frequently Rated Films:");
    for (film_id, count) in most_frequently_rated_films(&matrix, 10) {
        println!("Film ID: {}, Count: {}", film_id, count);
    }

    println!("Top 10 Highest Rated Films:");
    for (film_id, rating) in highest_rated_films(&matrix, 10) {
        println!("Film ID: {}, Rating: {:.2}", film_id, rating as f64 / SCALE as f64);
    }
}

#[test]
fn similarity_matrix_is_symmetric() {
    let matrix = sample_matrix();
    let sim = compute_item_item_similarity(&matrix);
    for i in 0..sim.rows {
        for j in 0..sim.cols {
            assert_eq!(sim.get(i, j), sim.get(j, i));
            assert!(sim.get(i, j) <= SCALE);
        }
    }
}

#[test]
fn neighbors_exclude_self_and_sort_descending() {
    let matrix = sample_matrix();
    let sim = compute_item_item_similarity(&matrix);
    let neighbors = find_k_nearest_neighbors(&sim, 2);
    assert_eq!(neighbors.len(), 4);
    for (i, list) in neighbors.iter().enumerate() {
        assert_eq!(list.len(), 2);
        for &(j, s) in list {
            assert_ne!(j, i);
            assert_eq!(s, sim.get(i, j));
        }
        assert!(list[0].1 >= list[1].1);
        assert_ne!(list[0].0, list[1].0);
    }
}

#[test]
fn neighbors_return_all_when_k_is_large() {
    let matrix = sample_matrix();
    let sim = compute_item_item_similarity(&matrix);
    let neighbors = find_k_nearest_neighbors(&sim, 10);
    for list in &neighbors {
        assert_eq!(list.len(), 3);
    }
}

#[test]
fn recommend_for_user_accumulates_exactly() {
    // Item 0 rated 5.0; its only neighbour is item 1 at similarity 0.5,
    // so item 1 accumulates 5.0 * 0.5 = 2.5.
    let ratings: Vec<u64> = vec![scaled(5.0), 0];
    let neighbors: Vec<Vec<(usize, u64)>> = vec![
        vec![(1, scaled(0.5))],
        vec![(0, scaled(0.8))],
    ];
    let out = recommend_items_for_user(&ratings, &neighbors).unwrap();
    assert_eq!(out, vec![(1, scaled(2.5))]);
}

#[test]
fn recommend_for_user_sums_shared_neighbours() {
    // Items 0 and 1 both rated; both name item 2 as neighbour.
    let ratings: Vec<u64> = vec![scaled(2.0), scaled(3.0), 0];
    let neighbors: Vec<Vec<(usize, u64)>> = vec![
        vec![(2, scaled(1.0))],
        vec![(2, scaled(0.5))],
        vec![],
    ];
    let out = recommend_items_for_user(&ratings, &neighbors).unwrap();
    assert_eq!(out, vec![(2, scaled(3.5))]);
}

#[test]
fn recommend_for_user_without_positive_ratings_is_empty() {
    let ratings: Vec<u64> = vec![0, 0, 0];
    let neighbors: Vec<Vec<(usize, u64)>> = vec![
        vec![(1, scaled(0.9))],
        vec![(2, scaled(0.9))],
        vec![(0, scaled(0.9))],
    ];
    let out = recommend_items_for_user(&ratings, &neighbors).unwrap();
    assert!(out.is_empty());
}

#[test]
fn recommend_for_user_rejects_dimension_mismatch() {
    let ratings: Vec<u64> = vec![scaled(1.0), scaled(2.0)];
    let neighbors: Vec<Vec<(usize, u64)>> = vec![vec![]];
    let err = recommend_items_for_user(&ratings, &neighbors).unwrap_err();
    assert_eq!(err, RecError::DimensionMismatch);
}

#[test]
fn create_user_item_matrix_skips_out_of_bounds_and_overwrites() {
    let entries: Vec<(usize, usize, u64)> = vec![
        (0, 0, scaled(1.0)),
        (0, 0, scaled(2.0)),
        (5, 0, scaled(3.0)),
        (0, 9, scaled(4.0)),
    ];
    let m = create_user_item_matrix(2, 2, &entries);
    assert_eq!(m.get(0, 0), scaled(2.0));
    assert_eq!(m.get(0, 1), 0);
    assert_eq!(m.get(1, 0), 0);
    assert_eq!(m.get(1, 1), 0);
}

#[test]
fn most_frequently_rated_films_counts_and_orders() {
    let matrix = sample_matrix();
    let top = most_frequently_rated_films(&matrix, 4);
    // Counts per item: [2, 2, 2, 3]; ties order by item index.
    assert_eq!(top, vec![(3, 3), (0, 2), (1, 2), (2, 2)]);
}

#[test]
fn highest_rated_films_averages_and_orders() {
    let matrix = sample_matrix();
    let top = highest_rated_films(&matrix, 2);
    // Averages: item0 3.5, item1 5.0, item2 3.5, item3 7/3.
    assert_eq!(top, vec![(1, scaled(5.0)), (0, scaled(3.5))]);
}

#[test]
fn neighbors_of_single_item_matrix_are_empty() {
    let mut m = Matrix::new(2, 1);
    m.set(0, 0, 3 * SCALE);
    let sim = compute_item_item_similarity(&m);
    let neighbors = find_k_nearest_neighbors(&sim, 5);
    assert_eq!(neighbors.len(), 1);
    assert!(neighbors[0].is_empty());
}
