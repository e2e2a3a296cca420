use sdfs::message_types::GetReq;
use sdfs::message_types::PutReq;
use sdfs::scheduler::dequeue_request;
use sdfs::scheduler::enqueue_request;
use sdfs::scheduler::AccessType;
use sdfs::scheduler::FilePermits;

fn read() -> AccessType {
    AccessType::Read(GetReq { file_name: "bar".to_string() })
}

fn write() -> AccessType {
    AccessType::Write(PutReq { file_name: "bar".to_string() })
}

fn is_write(a: &AccessType) -> bool {
    matches!(a, AccessType::Write(_))
}

#[test]
fn write_overtakes_a_run_of_ten_reads() {
    // ten reads wait, then one write arrives: it lands before the fourth
    // read, so at most three reads still run ahead of it
    let mut q: Vec<AccessType> = Vec::new();
    for _ in 0..10 {
        enqueue_request(&mut q, read());
    }
    let idx = enqueue_request(&mut q, write());
    assert_eq!(idx, 3);
    assert!(is_write(&q[3]));
    assert_eq!(q.len(), 11);
}

#[test]
fn read_overtakes_a_run_of_four_writes() {
    let mut q: Vec<AccessType> = Vec::new();
    for _ in 0..4 {
        enqueue_request(&mut q, write());
    }
    let idx = enqueue_request(&mut q, read());
    assert_eq!(idx, 3);
    assert!(!is_write(&q[3]));
}

#[test]
fn short_queue_appends_in_arrival_order() {
    let mut q: Vec<AccessType> = Vec::new();
    enqueue_request(&mut q, write());
    enqueue_request(&mut q, write());
    enqueue_request(&mut q, write());
    let idx = enqueue_request(&mut q, read());
    assert_eq!(idx, 3);
}

#[test]
fn mixed_queue_without_a_full_run_appends() {
    let mut q: Vec<AccessType> = Vec::new();
    enqueue_request(&mut q, write());
    enqueue_request(&mut q, write());
    enqueue_request(&mut q, read());
    enqueue_request(&mut q, write());
    enqueue_request(&mut q, write());
    let idx = enqueue_request(&mut q, read());
    assert_eq!(idx, 5);
}

#[test]
fn requests_dispatch_in_queue_order() {
    let mut q: Vec<AccessType> = Vec::new();
    enqueue_request(&mut q, read());
    enqueue_request(&mut q, write());
    assert!(!is_write(&dequeue_request(&mut q).unwrap()));
    assert!(is_write(&dequeue_request(&mut q).unwrap()));
    assert!(dequeue_request(&mut q).is_none());
}

#[test]
fn at_most_two_reads_run_at_once() {
    let mut p = FilePermits::new();
    assert!(p.try_start_read());
    assert!(p.try_start_read());
    assert!(!p.try_start_read());
    p.finish_read();
    assert!(p.try_start_read());
}

#[test]
fn a_write_excludes_everything_else() {
    let mut p = FilePermits::new();
    assert!(p.try_start_read());
    assert!(!p.try_start_write());
    p.finish_read();
    assert!(p.try_start_write());
    assert!(!p.try_start_read());
    assert!(!p.try_start_write());
    p.finish_write();
    assert!(p.try_start_read());
}
