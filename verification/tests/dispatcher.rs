use jwt_cracker::dispatcher::Dispatcher;
use jwt_cracker::error::ConfigError;
use jwt_cracker::mac::check_signature;
use jwt_cracker::machine::Phase;
use jwt_cracker::token::Token;

const SIGNATURE: [u8; 32] = [
    70, 175, 8, 198, 167, 151, 237, 224, 58, 26, 6, 49, 149, 193, 221, 60, 85, 81, 52, 81, 89,
    115, 154, 196, 35, 115, 16, 77, 150, 91, 43, 114,
];

fn token() -> Token {
    Token {
        header: "eyJhbGciOiJIUzI1NiIsInR5cCI6IkpXVCJ9".to_string(),
        payload: "eyJzdWIiOiIxMjM0NTY3ODkwIn0".to_string(),
        signature: SIGNATURE.to_vec(),
    }
}

fn words(list: &[&str]) -> Vec<String> {
    list.iter().map(|w| w.to_string()).collect()
}

fn verdict(secret: &str) -> bool {
    let t = token();
    check_signature(secret, t.signing_input().as_bytes(), &t.signature)
}

#[test]
fn a_pool_of_no_worker_is_refused() {
    assert_eq!(
        Dispatcher::new(&token(), words(&["secret"]), 0).err(),
        Some(ConfigError::ZeroWorkers)
    );
    assert_eq!(Dispatcher::new(&token(), vec![], 0).err(), Some(ConfigError::ZeroWorkers));
}

#[test]
fn a_new_dispatcher_is_idle_and_hands_out_nothing() {
    let mut d = Dispatcher::new(&token(), words(&["a", "b"]), 2).unwrap();
    assert_eq!(d.phase(), Phase::Idle);
    assert_eq!(d.worker_count(), 2);
    assert_eq!(d.dispatched(), 0);
    assert!(!d.is_drained());
    assert!(d.pull(0).is_none());
    assert_eq!(d.phase(), Phase::Idle);
    assert_eq!(d.dispatched(), 0);
    d.start();
    assert_eq!(d.phase(), Phase::Running);
    // the pull before the start cost the worker nothing
    assert_eq!(d.pull(0).map(|j| j.secret), Some("a".to_string()));
}

#[test]
fn starting_twice_changes_nothing() {
    let mut d = Dispatcher::new(&token(), words(&["a", "b"]), 1).unwrap();
    d.start();
    let job = d.pull(0).unwrap();
    assert_eq!((job.index, job.secret.as_str()), (0, "a"));
    d.start();
    assert_eq!(d.dispatched(), 1);
    // the worker still holds its candidate
    assert!(d.pull(0).is_none());
    d.report(0, verdict(&job.secret));
    assert_eq!(d.pull(0).map(|j| j.index), Some(1));
}

#[test]
fn candidates_go_out_in_stream_order_each_once() {
    let mut d = Dispatcher::new(&token(), words(&["a", "b", "c", "d"]), 3).unwrap();
    d.start();
    let first = d.pull(2).unwrap();
    let second = d.pull(0).unwrap();
    let third = d.pull(1).unwrap();
    assert_eq!((first.index, first.secret.as_str()), (0, "a"));
    assert_eq!((second.index, second.secret.as_str()), (1, "b"));
    assert_eq!((third.index, third.secret.as_str()), (2, "c"));
    assert_eq!(d.dispatched(), 3);
    d.report(0, false);
    let fourth = d.pull(0).unwrap();
    assert_eq!((fourth.index, fourth.secret.as_str()), (3, "d"));
    assert_eq!(d.dispatched(), 4);
}

#[test]
fn a_busy_worker_cannot_pull_and_an_idle_one_cannot_report() {
    let mut d = Dispatcher::new(&token(), words(&["a", "secret"]), 2).unwrap();
    d.start();
    // a report by a worker that holds nothing is dropped, positive or not
    d.report(0, true);
    assert_eq!(d.phase(), Phase::Running);
    assert!(d.found().is_none());
    let job = d.pull(0).unwrap();
    assert_eq!(job.index, 0);
    assert!(d.pull(0).is_none());
    assert_eq!(d.dispatched(), 1);
    // a worker outside the pool gets nothing and changes nothing
    assert!(d.pull(2).is_none());
    assert!(d.pull(usize::MAX).is_none());
    d.report(2, true);
    assert_eq!(d.phase(), Phase::Running);
    assert_eq!(d.dispatched(), 1);
}

#[test]
fn the_first_positive_verdict_is_recorded_and_stops_the_stream() {
    let mut d = Dispatcher::new(&token(), words(&["wrongpass", "secret", "alsowrong"]), 2).unwrap();
    d.start();
    let a = d.pull(0).unwrap();
    let b = d.pull(1).unwrap();
    assert!(!verdict(&a.secret));
    assert!(verdict(&b.secret));
    d.report(1, true);
    assert_eq!(d.phase(), Phase::Found);
    let found = d.found().unwrap();
    assert_eq!((found.index, found.secret.as_str()), (1, "secret"));
    // the other worker finishes; its verdict changes nothing
    d.report(0, false);
    assert_eq!(d.phase(), Phase::Found);
    // nothing more is handed out, and the workers leave
    assert!(d.pull(0).is_none());
    assert!(d.pull(1).is_none());
    assert_eq!(d.dispatched(), 2);
    assert!(d.is_drained());
    assert_eq!(d.phase(), Phase::Found);
    assert_eq!(d.found().map(|j| j.secret), Some("secret".to_string()));
}

#[test]
fn a_later_positive_verdict_is_dropped() {
    // the secret stands twice in the stream and both workers find it
    let mut d = Dispatcher::new(&token(), words(&["secret", "secret", "x"]), 2).unwrap();
    d.start();
    let a = d.pull(0).unwrap();
    let b = d.pull(1).unwrap();
    assert_eq!((a.index, b.index), (0, 1));
    d.report(1, verdict(&b.secret));
    d.report(0, verdict(&a.secret));
    assert_eq!(d.phase(), Phase::Found);
    assert_eq!(d.found().map(|j| j.index), Some(1));
}

#[test]
fn a_stream_without_the_secret_is_exhausted_when_the_last_worker_leaves() {
    let mut d = Dispatcher::new(&token(), words(&["a", "b", "c"]), 2).unwrap();
    d.start();
    let mut seen: Vec<usize> = Vec::new();
    let a = d.pull(0).unwrap();
    let b = d.pull(1).unwrap();
    seen.push(a.index);
    seen.push(b.index);
    d.report(0, verdict(&a.secret));
    let c = d.pull(0).unwrap();
    seen.push(c.index);
    d.report(1, verdict(&b.secret));
    // the stream is dry: worker 1 leaves while worker 0 still works
    assert!(d.pull(1).is_none());
    assert_eq!(d.phase(), Phase::Running);
    assert!(!d.is_drained());
    d.report(0, verdict(&c.secret));
    assert_eq!(d.phase(), Phase::Running);
    assert!(d.pull(0).is_none());
    assert_eq!(d.phase(), Phase::Exhausted);
    assert!(d.is_drained());
    assert!(d.found().is_none());
    assert_eq!(seen, vec![0, 1, 2]);
    assert_eq!(d.dispatched(), 3);
    // a worker that has left gets nothing more
    assert!(d.pull(0).is_none());
    assert_eq!(d.phase(), Phase::Exhausted);
}

#[test]
fn an_empty_stream_is_exhausted_once_every_worker_has_pulled() {
    let mut d = Dispatcher::new(&token(), vec![], 3).unwrap();
    d.start();
    assert_eq!(d.phase(), Phase::Running);
    assert!(d.pull(0).is_none());
    assert!(d.pull(1).is_none());
    assert_eq!(d.phase(), Phase::Running);
    assert!(d.pull(2).is_none());
    assert_eq!(d.phase(), Phase::Exhausted);
    assert_eq!(d.dispatched(), 0);
}

#[test]
fn any_pool_finds_the_one_secret_whoever_moves_first() {
    for count in [1usize, 2, 10] {
        for stride in [1usize, 3, 7] {
            let list = words(&["a", "b", "wrongpass", "secret", "c", "d", "alsowrong"]);
            let mut d = Dispatcher::new(&token(), list, count).unwrap();
            d.start();
            let mut held: Vec<Option<String>> = vec![None; count];
            let mut turn = 0usize;
            let mut moves = 0usize;
            while !d.is_drained() {
                let w = turn % count;
                turn += stride;
                match held[w].take() {
                    Some(secret) => d.report(w, verdict(&secret)),
                    None => held[w] = d.pull(w).map(|j| j.secret),
                }
                moves += 1;
                assert!(moves < 10_000);
            }
            assert_eq!(d.phase(), Phase::Found);
            assert_eq!(d.found().map(|j| (j.index, j.secret)), Some((3, "secret".to_string())));
        }
    }
}

#[test]
fn any_pool_exhausts_a_stream_without_the_secret() {
    for count in [1usize, 2, 10] {
        let list = words(&["a", "b", "c"]);
        let mut d = Dispatcher::new(&token(), list, count).unwrap();
        d.start();
        let mut held: Vec<Option<String>> = vec![None; count];
        let mut handed_out: Vec<usize> = Vec::new();
        let mut turn = 0usize;
        while !d.is_drained() {
            let w = turn % count;
            turn += 1;
            match held[w].take() {
                Some(secret) => d.report(w, verdict(&secret)),
                None => {
                    if let Some(job) = d.pull(w) {
                        handed_out.push(job.index);
                        held[w] = Some(job.secret);
                    }
                }
            }
            assert!(turn < 10_000);
        }
        assert_eq!(d.phase(), Phase::Exhausted);
        assert!(d.found().is_none());
        assert_eq!(handed_out, vec![0, 1, 2]);
        assert_eq!(d.dispatched(), 3);
    }
}
