use thumbnailer::worker::work_step;
use thumbnailer::{Message, ThumbSize, Work, WorkQueue};

fn job(n: usize) -> Work {
    Work {
        path: format!("/photos/{}.png", n).into_bytes(),
        size: ThumbSize::Normal,
        destination: b"/tmp/cache".to_vec(),
        use_full_path_for_md5: true,
    }
}

#[test]
fn test_queue_fifo() {
    let mut queue = WorkQueue::new();
    assert_eq!(queue.len(), 0);
    queue.push(Message::Action(job(1)));
    queue.push(Message::Action(job(2)));
    assert_eq!(queue.len(), 2);
    match queue.pop() {
        Some(Message::Action(w)) => assert_eq!(w.path, b"/photos/1.png".to_vec()),
        _ => panic!("expected the first job"),
    }
    match queue.pop() {
        Some(Message::Action(w)) => assert_eq!(w.path, b"/photos/2.png".to_vec()),
        _ => panic!("expected the second job"),
    }
    assert!(queue.pop().is_none());
}

#[test]
fn test_pool_drains_all_jobs() {
    let jobs: usize = 1000;
    let workers: usize = 4;
    let mut queue = WorkQueue::new();
    for n in 0..jobs {
        queue.push(Message::Action(job(n)));
    }
    queue.poison(workers);
    assert_eq!(queue.len(), jobs + workers);
    let drained = queue.drain();
    assert_eq!(queue.len(), 0);
    assert_eq!(drained.len(), jobs + workers);
    for (n, message) in drained.iter().take(jobs).enumerate() {
        match message {
            Message::Action(w) => {
                assert_eq!(w.path, format!("/photos/{}.png", n).into_bytes())
            },
            Message::Exit() => panic!("sentinel before all jobs were drained"),
        }
    }
    for message in drained.iter().skip(jobs) {
        assert!(matches!(message, Message::Exit()));
    }
}

#[test]
fn test_work_step() {
    match work_step(Message::Action(job(7))) {
        Some(w) => assert_eq!(w.path, b"/photos/7.png".to_vec()),
        None => panic!("a job must be handed out"),
    }
    assert!(work_step(Message::Exit()).is_none());
}
