use rcluster::cluster::{execute_request_bytes, parse_execute_request, ProcessType};
use rcluster::utils::{split_args, DjB2};
use rcluster::Cluster;

const LOCAL_ADDR: &str = "127.0.0.1";
const NUM_SLAVES: usize = 4;

#[test]
fn test_cluster() {
    // Add multiple slaves at localhost under multiple ports (mimicking
    // slaves at different ports in different machines), each answering the
    // ping that precedes its admission.
    let mut master = Cluster::new();
    let mut addrs = vec![];
    let mut port = 40000u16;
    while addrs.len() < NUM_SLAVES {
        addrs.push(format!("{}:{}", LOCAL_ADDR, port));
        port += 1;
    }

    for a in &addrs {
        master.add_node(a, 1).unwrap();
    }
    assert_eq!(master.addrs.len(), NUM_SLAVES);

    // adding a known address again changes nothing
    master.add_node(&addrs[0], 1).unwrap();
    assert_eq!(master.addrs.len(), NUM_SLAVES);

    // a new node that does not answer the ping is rejected
    let dead = format!("{}:{}", LOCAL_ADDR, 50000);
    assert!(master.add_node(&dead, 0).is_err());
    assert_eq!(master.addrs.len(), NUM_SLAVES);

    // all nodes answering means a clean ping sweep; one failure spoils it
    assert!(master.ping_all(&vec![1, 1, 1, 1]).is_ok());
    assert!(master.ping_all(&vec![1, 0, 1, 1]).is_err());
}

#[test]
fn test_djb2_values() {
    let mut h = DjB2::new();
    assert_eq!(h.finish(), 5381);
    h.write(b"a");
    assert_eq!(h.finish(), 5381 * 33 + 97);
    h.write(b"b");
    assert_eq!(h.finish(), (5381 * 33 + 97) * 33 + 98);
}

#[test]
fn test_split_args() {
    // a space starts a new part, which begins with the space itself
    let parts = split_args(b"ls -la".to_vec());
    assert_eq!(parts, vec![b"ls".to_vec(), b" -la".to_vec()]);

    // a single nonempty part gets an empty part appended
    let parts = split_args(b"ls".to_vec());
    assert_eq!(parts, vec![b"ls".to_vec(), b"".to_vec()]);

    // empty input stays a single empty part
    let parts = split_args(Vec::new());
    assert_eq!(parts, vec![b"".to_vec()]);

    // quote characters are kept as they are
    let parts = split_args(b"a\"b\"".to_vec());
    assert_eq!(parts, vec![b"a\"b\"".to_vec(), b"".to_vec()]);
}

#[test]
fn test_process_type_tags() {
    let kinds = [
        ProcessType::Ping,
        ProcessType::Execute,
        ProcessType::Fetch,
        ProcessType::Write,
    ];
    for k in kinds {
        let bytes = k.tag_bytes();
        assert_eq!(bytes.len(), 8);
        assert_eq!(ProcessType::from_tag_bytes(&bytes).unwrap(), k);
    }
    // the shutdown tag is deliberately not recognized
    assert!(ProcessType::from_tag_bytes(&ProcessType::Shutdown.tag_bytes()).is_err());
    // neither is an arbitrary value
    assert!(ProcessType::from_tag_bytes(&[0u8; 8]).is_err());
}

#[test]
fn test_execute_request_round_trip() {
    let command = b"echo hello world".to_vec();
    let request = execute_request_bytes(&command);
    // the request opens with the execute tag, then the serialized command:
    // its 64-bit little-endian length and its bytes
    assert_eq!(&request[..8], &ProcessType::Execute.tag_bytes()[..]);
    assert_eq!(&request[8..16], &(command.len() as u64).to_le_bytes()[..]);
    assert_eq!(&request[16..], &command[..]);

    let args = parse_execute_request(&request).unwrap();
    assert_eq!(args, split_args(command.clone()));

    // a request that announces another kind is refused
    let mut wrong = ProcessType::Ping.tag_bytes();
    wrong.extend_from_slice(&request[8..]);
    assert!(parse_execute_request(&wrong).is_err());

    // a request cut short is refused
    assert!(parse_execute_request(&request[..request.len() - 1]).is_err());

    // requests fan out to every node
    let mut cluster = Cluster::new();
    cluster.add_node(&String::from("127.0.0.1:40000"), 1).unwrap();
    cluster.add_node(&String::from("127.0.0.1:40001"), 1).unwrap();
    let requests = cluster.execute_all(&command);
    assert_eq!(requests.len(), 2);
    for r in &requests {
        assert_eq!(r, &request);
    }
}
