use librualg::sheduling::{johnson_algorithm, Job};

#[test]
fn sheduling_test() {
    let jobs = vec![
        Job::new(1, 4, 5),
        Job::new(2, 4, 1),
        Job::new(3, 30, 4),
        Job::new(4, 6, 30),
        Job::new(5, 2, 3),
    ];

    let (jobs, total_time) = johnson_algorithm(&jobs);
    assert_eq!(
        vec![5, 1, 4, 3, 2],
        jobs.iter().map(|value| value.get_id()).collect::<Vec<u32>>()
    );
    assert_eq!(47, total_time);
}

#[test]
fn test_johnson_adjacent_rule() {
    let times = [(1u32, 4u32, 3u32), (2, 1, 2), (3, 5, 6), (4, 2, 1), (5, 9, 5)];
    let jobs: Vec<librualg::sheduling::Job> = times.iter().map(|&(id, f, sc)| librualg::sheduling::Job::new(id, f, sc)).collect();
    let (order, _) = librualg::sheduling::johnson_algorithm(&jobs);
    for t in 1..order.len() {
        let a = times.iter().find(|x| x.0 == order[t - 1].get_id()).unwrap();
        let b = times.iter().find(|x| x.0 == order[t].get_id()).unwrap();
        let mm = *[a.1, a.2, b.1, b.2].iter().min().unwrap();
        assert!(mm == a.1 || mm == b.2);
    }
}
