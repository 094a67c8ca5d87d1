use llm_rag::{build_rag_matrix, dot_product, nearest, Context, RagMatrix};

fn matrix_of(rows: Vec<Vec<u32>>, width: usize) -> RagMatrix {
    let entries: Vec<Result<Context, String>> = rows
        .into_iter()
        .map(|embedding| Ok(Context { text: String::new(), tokens: Vec::new(), embedding }))
        .collect();
    build_rag_matrix(&entries, width).unwrap()
}

fn cosine(a: &[u32], b: &[u32]) -> f64 {
    let dot: f64 = a.iter().zip(b).map(|(x, y)| *x as f64 * *y as f64).sum();
    let na: f64 = a.iter().map(|x| *x as f64 * *x as f64).sum::<f64>().sqrt();
    let nb: f64 = b.iter().map(|x| *x as f64 * *x as f64).sum::<f64>().sqrt();
    if na == 0.0 || nb == 0.0 {
        0.0
    } else {
        dot / (na * nb)
    }
}

#[test]
fn dot_product_of_small_vectors() {
    assert_eq!(dot_product(&vec![1, 2, 3], &vec![4, 5, 6]), 32);
    assert_eq!(dot_product(&Vec::new(), &Vec::new()), 0);
}

#[test]
fn dot_product_of_the_largest_entries() {
    let m = u32::MAX;
    let square = (m as u128) * (m as u128);
    assert_eq!(dot_product(&vec![m, m, m], &vec![m, m, m]), 3 * square);
}

#[test]
fn nearest_picks_the_row_of_the_same_direction() {
    let matrix = matrix_of(vec![vec![1, 0, 0], vec![2, 2, 0], vec![0, 0, 9]], 3);
    assert_eq!(nearest(&vec![5, 5, 0], &matrix).unwrap(), 1);
}

#[test]
fn nearest_finds_the_query_own_row() {
    let matrix = matrix_of(vec![vec![1, 0], vec![5, 7], vec![0, 1]], 2);
    assert_eq!(nearest(&vec![5, 7], &matrix).unwrap(), 1);
}

#[test]
fn nearest_takes_the_first_of_equally_similar_rows() {
    let matrix = matrix_of(vec![vec![1, 0], vec![1, 1], vec![2, 2], vec![7, 7]], 2);
    assert_eq!(nearest(&vec![3, 3], &matrix).unwrap(), 1);
}

#[test]
fn nearest_prefers_an_earlier_parallel_row_to_the_own_row() {
    let matrix = matrix_of(vec![vec![2, 2], vec![1, 1]], 2);
    assert_eq!(nearest(&vec![1, 1], &matrix).unwrap(), 0);
}

#[test]
fn nearest_on_empty_matrix_is_an_error() {
    let matrix = matrix_of(Vec::new(), 4);
    assert!(nearest(&vec![1, 2, 3, 4], &matrix).is_err());
}

#[test]
fn nearest_with_zero_query_is_the_first_row() {
    let matrix = matrix_of(vec![vec![4, 1], vec![1, 1]], 2);
    assert_eq!(nearest(&vec![0, 0], &matrix).unwrap(), 0);
}

#[test]
fn nearest_ranks_a_zero_row_below_any_overlap() {
    let matrix = matrix_of(vec![vec![0, 0], vec![0, 0], vec![9, 1]], 2);
    assert_eq!(nearest(&vec![1, 1], &matrix).unwrap(), 2);
}

#[test]
fn nearest_keeps_the_first_row_where_nothing_overlaps() {
    let matrix = matrix_of(vec![vec![0, 3], vec![0, 0], vec![0, 8]], 2);
    assert_eq!(nearest(&vec![5, 0], &matrix).unwrap(), 0);
}

#[test]
fn nearest_is_exact_on_the_largest_entries() {
    let m = u32::MAX;
    let matrix = matrix_of(
        vec![vec![m, m, m, m - 1], vec![m - 1, m, m, m], vec![m, m, m, m], vec![m, m, m, m]],
        4,
    );
    assert_eq!(nearest(&vec![m, m, m, m], &matrix).unwrap(), 2);
    assert_eq!(nearest(&vec![1, 1, 1, 1], &matrix).unwrap(), 2);
}

#[test]
fn nearest_tells_apart_rows_that_differ_in_one_unit() {
    let m = u32::MAX;
    let matrix = matrix_of(vec![vec![m, m - 1], vec![m - 1, m], vec![m - 1, m - 1]], 2);
    assert_eq!(nearest(&vec![1, 1], &matrix).unwrap(), 2);
    assert_eq!(nearest(&vec![m - 1, m], &matrix).unwrap(), 1);
}

#[test]
fn nearest_agrees_with_cosine_in_floating_point() {
    let rows: Vec<Vec<u32>> = vec![
        vec![101, 7, 2040, 0, 0, 0],
        vec![12, 15, 14, 13, 7, 0],
        vec![50, 2, 3, 4, 5, 6],
        vec![0, 0, 0, 0, 0, 0],
        vec![9, 9, 9, 9, 9, 9],
    ];
    let matrix = matrix_of(rows.clone(), 6);
    let queries: Vec<Vec<u32>> =
        vec![vec![8, 9, 13, 10, 14, 7], vec![1, 0, 20, 0, 0, 0], vec![40, 1, 1, 1, 1, 1]];
    for query in queries {
        let mut best = 0;
        for (i, row) in rows.iter().enumerate() {
            if cosine(&query, row) > cosine(&query, &rows[best]) {
                best = i;
            }
        }
        assert_eq!(nearest(&query, &matrix).unwrap(), best);
    }
}

#[test]
fn scaling_a_row_changes_no_ranking() {
    let plain = matrix_of(vec![vec![3, 1, 0], vec![1, 3, 0], vec![1, 1, 1]], 3);
    let scaled = matrix_of(vec![vec![300, 100, 0], vec![7, 21, 0], vec![1, 1, 1]], 3);
    for query in [vec![2, 1, 0], vec![1, 2, 0], vec![5, 5, 5], vec![0, 0, 1]] {
        assert_eq!(nearest(&query, &plain).unwrap(), nearest(&query, &scaled).unwrap());
        let larger: Vec<u32> = query.iter().map(|x| x * 1000).collect();
        assert_eq!(nearest(&query, &plain).unwrap(), nearest(&larger, &plain).unwrap());
    }
}
