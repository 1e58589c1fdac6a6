use nix_doc::threadpool::{worker_step, Message, Step, ThreadPool};

#[test]
fn every_job_is_handed_out_before_the_workers_stop() {
    let mut pool: ThreadPool<u32> = ThreadPool::with_threads(3);
    assert_eq!(pool.size(), 3);
    assert!(pool.take().is_none());
    for job in 0..5 {
        pool.push(job);
    }
    pool.done();
    let mut ran = Vec::new();
    let mut exits = 0;
    while let Some(message) = pool.take() {
        match worker_step(message) {
            Step::Work(job) => {
                assert_eq!(exits, 0);
                ran.push(job);
            }
            Step::Exit => exits += 1,
        }
    }
    assert_eq!(ran, vec![0, 1, 2, 3, 4]);
    assert_eq!(exits, 3);
    assert!(pool.is_finished());
}

#[test]
fn a_pool_is_not_finished_before_its_workers_stopped() {
    let mut pool: ThreadPool<&str> = ThreadPool::with_threads(2);
    assert!(!pool.is_finished());
    pool.done();
    assert!(!pool.is_finished());
    assert!(matches!(pool.take(), Some(Message::Stop)));
    assert!(!pool.is_finished());
    assert!(matches!(pool.take(), Some(Message::Stop)));
    assert!(pool.is_finished());
    assert!(pool.take().is_none());
}

#[test]
fn a_pool_has_a_worker_for_each_core() {
    let pool: ThreadPool<()> = ThreadPool::new();
    assert!(pool.size() >= 1);
}
