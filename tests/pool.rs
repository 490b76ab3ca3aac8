use ipcrawl::{chunk_records, Job, Phase, WorkQueue};

fn seeded(addresses: &[&str]) -> WorkQueue {
    let mut q = WorkQueue::new();
    for a in addresses {
        assert!(q.push(a.to_string()));
    }
    q.close();
    q
}

/// Runs `workers` simulated workers in turn, each taking one job per round
/// and finishing it in the next round, until all report `Done`.
fn drain(q: &mut WorkQueue, workers: usize) -> usize {
    let mut held: Vec<Option<usize>> = vec![None; workers];
    let mut done = vec![false; workers];
    let mut processed = 0;
    while done.iter().any(|d| !*d) {
        for w in 0..workers {
            if done[w] {
                continue;
            }
            if let Some(t) = held[w].take() {
                assert!(!q.is_drained());
                assert!(q.finish(t));
                processed += 1;
                continue;
            }
            match q.next_job() {
                Job::Fetch { ticket, .. } => held[w] = Some(ticket),
                Job::Skipped { .. } => processed += 1,
                Job::Wait => panic!("a closed queue never asks to wait"),
                Job::Done => done[w] = true,
            }
        }
    }
    processed
}

#[test]
fn counter_reaches_zero_for_any_pool_size() {
    let addrs = ["http://a.example/1", "http://a.example/2", "http://a.example/3",
                 "http://a.example/4", "http://a.example/5"];
    for workers in 1..=7 {
        let mut q = seeded(&addrs);
        assert_eq!(q.phase(), Phase::Draining);
        assert_eq!(q.remaining(), 5);
        assert_eq!(drain(&mut q, workers), 5);
        assert_eq!(q.remaining(), 0);
        assert!(q.is_drained());
        assert_eq!(q.phase(), Phase::Drained);
        assert_eq!(q.submitted(), 5);
    }
}

#[test]
fn wait_is_not_over_while_one_address_is_in_flight() {
    let mut q = seeded(&["http://a.example/", "http://b.example/"]);
    let t1 = match q.next_job() { Job::Fetch { ticket, .. } => ticket, j => panic!("{:?}", j) };
    let t2 = match q.next_job() { Job::Fetch { ticket, .. } => ticket, j => panic!("{:?}", j) };
    assert!(matches!(q.next_job(), Job::Done));
    assert!(q.finish(t2));
    assert!(!q.is_drained());
    assert_eq!(q.remaining(), 1);
    assert!(!q.finish(t2));
    assert!(q.finish(t1));
    assert!(q.is_drained());
}

#[test]
fn failed_fetch_still_counts_and_others_drain() {
    let mut q = seeded(&["http://a.example/", "http://unreachable.invalid/", "http://c.example/"]);
    let mut fetched = Vec::new();
    loop {
        match q.next_job() {
            Job::Fetch { ticket, address } => {
                // the second address fails at once; the worker reports it all the same
                fetched.push(address);
                assert!(q.finish(ticket));
            }
            Job::Done => break,
            j => panic!("{:?}", j),
        }
    }
    assert_eq!(fetched.len(), 3);
    assert!(q.is_drained());
}

#[test]
fn malformed_address_is_skipped_and_counted() {
    let mut q = seeded(&["", "http://ok.example/"]);
    match q.next_job() {
        Job::Skipped { address } => assert_eq!(address, ""),
        j => panic!("{:?}", j),
    }
    assert_eq!(q.remaining(), 1);
    match q.next_job() {
        Job::Fetch { ticket, address } => {
            assert_eq!(address, "http://ok.example/");
            assert!(q.finish(ticket));
        }
        j => panic!("{:?}", j),
    }
    assert!(q.is_drained());
}

#[test]
fn open_queue_asks_to_wait_and_refuses_nothing_until_closed() {
    let mut q = WorkQueue::new();
    assert_eq!(q.phase(), Phase::Filling);
    assert!(matches!(q.next_job(), Job::Wait));
    assert!(!q.is_drained());
    q.close();
    assert!(!q.push("http://late.example/".to_string()));
    assert!(matches!(q.next_job(), Job::Done));
    assert!(q.is_drained());
}

#[test]
fn three_addresses_end_to_end() {
    let mut q = seeded(&["http://a.example/", "http://b.example/", "http://c.example/"]);
    let mut out: Vec<u8> = Vec::new();
    let mut diag: Vec<String> = Vec::new();
    loop {
        match q.next_job() {
            Job::Fetch { ticket, address } => {
                let body: Result<Vec<&[u8]>, &str> = match address.as_str() {
                    "http://a.example/" => Ok(vec![b"1.1.1.1"]),
                    "http://b.example/" => Err("connection refused"),
                    _ => Ok(vec![b"2.2.2.2\n3.", b"3.3.3"]),
                };
                match body {
                    Ok(chunks) => {
                        for c in chunks {
                            for r in chunk_records(c) {
                                out.extend(r);
                            }
                        }
                    }
                    Err(e) => diag.push(format!("GET {}: {}", address, e)),
                }
                assert!(q.finish(ticket));
            }
            Job::Done => break,
            j => panic!("{:?}", j),
        }
    }
    assert!(q.is_drained());
    assert_eq!(String::from_utf8(out).unwrap(), "1.1.1.1\n2.2.2.2\n");
    assert_eq!(diag, vec!["GET http://b.example/: connection refused".to_string()]);
    assert_eq!(q.submitted(), 3);
}
