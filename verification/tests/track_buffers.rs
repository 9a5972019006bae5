use proteus_lib::track_buffers::{Reception, TrackBuffers};

fn mixed(r: Reception) -> (Vec<(u16, Vec<u32>)>, Vec<u32>) {
    match r {
        Reception::Mixed { tracks, tail } => (tracks, tail),
        Reception::Exit => panic!("unexpected exit"),
        Reception::Wait => panic!("unexpected wait"),
    }
}

#[test]
fn new_keeps_one_ring_per_track_key() {
    let buffers = TrackBuffers::new(&vec![3, 1, 3, 65537], 4, 8);
    assert_eq!(buffers.levels(), vec![(3, 0), (1, 0)]);
    assert_eq!(buffers.tail_len(), 0);
    assert!(buffers.finished.is_empty());
}

#[test]
fn full_ring_drops_its_oldest_samples() {
    let mut buffers = TrackBuffers::new(&vec![1], 3, 4);
    assert!(buffers.push_samples(1, &vec![10, 11, 12, 13, 14]));
    assert!(!buffers.push_samples(2, &vec![99]));
    assert_eq!(buffers.levels(), vec![(1, 3)]);
    let mut started = true;
    let (tracks, tail) = mixed(buffers.receive(&mut started, 0));
    assert_eq!(tracks, vec![(1, vec![12, 13, 14])]);
    assert!(tail.is_empty());
}

#[test]
fn receive_takes_the_shortest_length_from_every_ring() {
    let mut buffers = TrackBuffers::new(&vec![1, 2], 8, 8);
    buffers.push_samples(1, &vec![1, 2, 3, 4]);
    buffers.push_samples(2, &vec![5, 6]);
    buffers.push_tail(&vec![7, 8, 9]);
    let mut started = true;
    let (tracks, tail) = mixed(buffers.receive(&mut started, 0));
    assert_eq!(tracks, vec![(1, vec![1, 2]), (2, vec![5, 6])]);
    assert_eq!(tail, vec![7, 8]);
    assert_eq!(buffers.levels(), vec![(1, 2), (2, 0)]);
    assert_eq!(buffers.tail_len(), 1);
}

#[test]
fn receive_waits_on_an_empty_unfinished_ring() {
    let mut buffers = TrackBuffers::new(&vec![1, 2], 8, 8);
    buffers.push_samples(1, &vec![1, 2]);
    let mut started = true;
    assert!(matches!(buffers.receive(&mut started, 0), Reception::Wait));
    assert_eq!(buffers.levels(), vec![(1, 2), (2, 0)]);
}

#[test]
fn receive_drops_finished_empty_rings_then_exits() {
    let mut buffers = TrackBuffers::new(&vec![1, 2], 8, 8);
    buffers.push_samples(1, &vec![1, 2]);
    buffers.mark_finished(2);
    let mut started = true;
    let (tracks, _) = mixed(buffers.receive(&mut started, 0));
    assert_eq!(tracks, vec![(1, vec![1, 2])]);
    assert_eq!(buffers.levels(), vec![(1, 0)]);
    buffers.mark_finished(1);
    assert!(matches!(buffers.receive(&mut started, 0), Reception::Exit));
    assert!(buffers.levels().is_empty());
}

#[test]
fn receive_waits_for_the_start_threshold() {
    let mut buffers = TrackBuffers::new(&vec![1, 2], 8, 8);
    buffers.push_samples(1, &vec![1, 2, 3]);
    buffers.push_samples(2, &vec![4]);
    let mut started = false;
    assert!(matches!(buffers.receive(&mut started, 3), Reception::Wait));
    assert!(!started);
    buffers.mark_finished(2);
    let (tracks, _) = mixed(buffers.receive(&mut started, 3));
    assert!(started);
    assert_eq!(tracks, vec![(1, vec![1]), (2, vec![4])]);
}
