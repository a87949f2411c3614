use librualg::sparse_table::{SparseTableMax, SparseTableMin};
use rand::Rng;

#[test]
fn test_sparse_table_min() {
    let arr = vec![5, 2, 3, 4, 5, 6, 1, 18, 9, 10];
    let table = SparseTableMin::build(&arr);
    assert_eq!(table.query(0, 9), 1);
    assert_eq!(table.query(5, 7), 1);
    assert_eq!(table.query(7, 7), 18);

    for _ in 0..100 {
        let mut rng = rand::thread_rng();
        let n = rng.gen_range(1, 1000);
        let mut v: Vec<i64> = vec![0; n];
        for i in 0..n {
            v[i] = (rand::random::<u16>() % 1000) as i64;
        }
        let table = SparseTableMin::build(&v);
        for _ in 0..100 {
            let mut l = rand::random::<usize>() % n;
            let mut r = rand::random::<usize>() % n;
            if l > r {
                std::mem::swap(&mut l, &mut r);
            }
            let ans = v[l..r + 1].iter().min().unwrap();
            assert_eq!(table.query(l, r), *ans);
        }
    }
}

#[test]
fn test_sparse_table_max() {
    let arr = vec![5, 2, 3, 4, 5, 6, 1, 18, 9, 10];
    let table = SparseTableMax::build(&arr);
    assert_eq!(table.query(0, 9), 18);
    assert_eq!(table.query(1, 4), 5);
    assert_eq!(table.query(7, 7), 18);

    for _ in 0..100 {
        let mut rng = rand::thread_rng();
        let n = rng.gen_range(1, 1000);
        let mut v: Vec<i64> = vec![0; n];
        for i in 0..n {
            v[i] = (rand::random::<u16>() % 1000) as i64;
        }
        let table = SparseTableMax::build(&v);
        for _ in 0..100 {
            let mut l = rand::random::<usize>() % n;
            let mut r = rand::random::<usize>() % n;
            if l > r {
                std::mem::swap(&mut l, &mut r);
            }
            let ans = v[l..r + 1].iter().max().unwrap();
            assert_eq!(table.query(l, r), *ans);
        }
    }
}
