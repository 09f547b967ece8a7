use maze_generator::ports::worker_ports;

#[test]
fn single_worker_probes_every_port_but_the_last() {
    let ports = worker_ports(0, 1);
    assert_eq!(ports.len(), 65534);
    assert_eq!(ports[0], 1);
    assert_eq!(*ports.last().unwrap(), 65534);
}

#[test]
fn workers_stride_by_the_thread_count() {
    let ports = worker_ports(2, 3);
    assert_eq!(&ports[..3], &[3, 6, 9]);
    assert_eq!(*ports.last().unwrap(), 65532);
    assert!(ports.windows(2).all(|w| w[1] - w[0] == 3));
}
