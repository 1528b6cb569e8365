use threadkit::pool::{react, Dispatcher, Message, PoolError, Step};

#[test]
fn no_workers_is_refused() {
    assert!(matches!(Dispatcher::new(0), Err(PoolError::InvalidConfiguration)));
}

#[test]
fn a_job_is_wrapped_for_the_workers() {
    let pool = Dispatcher::new(4).unwrap();
    assert_eq!(pool.size(), 4);
    assert!(!pool.is_shut_down());
    assert!(matches!(pool.execute(17u32), Ok(Message::NewJob(17))));
}

#[test]
fn a_worker_runs_jobs_and_stops_on_the_order_to() {
    assert!(matches!(react(Message::NewJob(5u8)), Step::Run(5)));
    assert!(matches!(react(Message::<u8>::JobDone), Step::Exit));
}

#[test]
fn shutdown_sends_one_order_to_stop_for_each_worker_once() {
    let mut pool = Dispatcher::new(3).unwrap();
    let orders = pool.shutdown::<u32>();
    assert_eq!(orders.len(), 3);
    assert!(orders.iter().all(|m| matches!(m, Message::JobDone)));
    assert!(pool.is_shut_down());
    assert_eq!(pool.shutdown::<u32>().len(), 0);
    assert!(matches!(pool.execute(1u32), Err(PoolError::ShutDown)));
    assert_eq!(pool.size(), 3);
}

#[test]
fn every_job_is_run_once_even_with_more_jobs_than_workers() {
    let workers = 4;
    let jobs = 8u32;
    let mut pool = Dispatcher::new(workers).unwrap();
    let mut channel = std::collections::VecDeque::new();
    for job in 0..jobs {
        channel.push_back(pool.execute(job).unwrap());
    }
    for order in pool.shutdown::<u32>() {
        channel.push_back(order);
    }
    assert!(pool.execute(99).is_err());
    let mut live = vec![true; workers];
    let mut runs = vec![0u32; jobs as usize];
    let mut turn = 0;
    while let Some(message) = channel.pop_front() {
        while !live[turn % workers] {
            turn += 1;
        }
        match react(message) {
            Step::Run(job) => runs[job as usize] += 1,
            Step::Exit => live[turn % workers] = false,
        }
        turn += 1;
    }
    assert!(runs.iter().all(|&n| n == 1));
    assert!(live.iter().all(|&alive| !alive));
}
