use rand::RngCore;
use rcluster::buffered::ChunkReader;
use rcluster::connection::{flag_from_byte, flag_to_byte, Connection, ConnectionFlag};
use rcluster::master::Master;
use rcluster::path_sync::{FileType, PathSync, WalkEntry};
use rcluster::slave::{handle_incoming, SlaveAction};
use rcluster::ClusterError;

fn random_bytes(n: usize) -> Vec<u8> {
    let mut buf = vec![0u8; n];
    rand::thread_rng().fill_bytes(&mut buf);
    buf
}

fn file_entry(rel_path: &[u8], contents: &[u8]) -> WalkEntry {
    WalkEntry {
        is_symlink: false,
        entry_type: FileType::File,
        size: contents.len() as u64,
        rel_path: rel_path.to_vec(),
        contents: contents.to_vec(),
    }
}

fn dir_entry(rel_path: &[u8]) -> WalkEntry {
    WalkEntry {
        is_symlink: false,
        entry_type: FileType::Directory,
        size: 0,
        rel_path: rel_path.to_vec(),
        contents: Vec::new(),
    }
}

fn symlink_entry(rel_path: &[u8]) -> WalkEntry {
    WalkEntry {
        is_symlink: true,
        entry_type: FileType::File,
        size: 0,
        rel_path: rel_path.to_vec(),
        contents: Vec::new(),
    }
}

fn connection_with(reader_data: Vec<u8>, magic: Vec<u8>) -> Connection {
    Connection { reader: ChunkReader::new(reader_data, 8192), writer: Vec::new(), magic }
}

#[test]
fn test_single_file_to_stream() {
    let magic = random_bytes(16);
    let contents = b"lorem ipsum dolor sit amet\n".to_vec();
    let sync = PathSync(connection_with(Vec::new(), magic.clone()));
    let entries = vec![file_entry(b"foobar", &contents)];

    let conn = sync.source_to_stream(b"/tmp/foo", &entries);
    let buf = conn.writer;

    let mut out = vec![];
    // begins with destination path
    out.extend_from_slice(&b"/tmp/foo\n"[..]);
    let size = contents.len() as u64;
    out.extend_from_slice(&size.to_be_bytes()[..]); // file size in big endian
    out.push(1); // flag for file
    out.extend_from_slice(&b"foobar"[..]); // file path (in this case, just the name)
    out.push(10);
    out.extend_from_slice(&contents[..]); // file contents
    out.extend_from_slice(&magic[..]); // magic ends the stream

    assert_eq!(buf, out);
}

#[test]
fn test_recursive_path_to_stream() {
    let magic = random_bytes(16);
    let inner = b"some file contents".to_vec();
    let entries = vec![
        dir_entry(b"test_path"),
        file_entry(b"test_path/foobar", &inner),
    ];
    let sync = PathSync(connection_with(Vec::new(), magic.clone()));
    let conn = sync.source_to_stream(b"/tmp/foo", &entries);
    let buf = conn.writer;

    let mut out = vec![];
    out.extend_from_slice(&b"/tmp/foo\n"[..]); // destination path
    for entry in &entries {
        let mut size_buf = [0u8; 8];
        let flag: u8 = match entry.entry_type {
            FileType::File => {
                size_buf = (entry.contents.len() as u64).to_be_bytes();
                1
            },
            FileType::Directory => 0,
        };
        // size of entry node
        out.extend_from_slice(&size_buf[..]);
        out.push(flag);
        // finally, the path itself
        out.extend_from_slice(&entry.rel_path[..]);
        // ... terminated by newline.
        out.push(10);
        if flag == 1 {
            // write contents if it's a file.
            out.extend_from_slice(&entry.contents[..]);
            out.extend_from_slice(&magic[..]);
        }
    }

    assert_eq!(buf, out);
}

/// Every valid flag survives the byte round trip; every byte outside the
/// enumeration fails to decode.
#[test]
fn test_flag_round_trip() {
    let flags = [
        ConnectionFlag::MasterPing,
        ConnectionFlag::SlaveOk,
        ConnectionFlag::MasterWantsFile,
        ConnectionFlag::MasterSendsFile,
        ConnectionFlag::MasterWantsExecution,
    ];
    for f in flags {
        assert_eq!(flag_from_byte(flag_to_byte(f)), Some(f));
    }
    for b in 5..=255u8 {
        assert_eq!(flag_from_byte(b), None);
    }
    let conn = connection_with(vec![7u8], random_bytes(16));
    match conn.read_flag() {
        Err(e) => assert_eq!(e, ClusterError::UnknownFlag),
        Ok(_) => panic!("an out-of-range flag byte must fail"),
    }
}

/// The magic read by the responder equals the magic written by the
/// initiator.
#[test]
fn test_magic_exchange() {
    let init = Connection::create_for_stream(ChunkReader::new(Vec::new(), 8192), Vec::new(), false)
        .unwrap();
    assert_eq!(init.magic.len(), 16);
    assert_eq!(init.writer, init.magic); // the magic goes first on the wire
    let resp = Connection::create_for_stream(ChunkReader::new(init.writer.clone(), 8192), Vec::new(), true)
        .unwrap();
    assert_eq!(resp.magic, init.magic);
}

/// Ping scenario: the master writes its magic and a ping flag; the slave
/// answers with a magic echo and the ok flag; the master's ping succeeds.
#[test]
fn test_ping_scenario() {
    let init = Connection::create_for_stream(ChunkReader::new(Vec::new(), 8192), Vec::new(), false)
        .unwrap();
    let m0 = init.magic.clone();
    let m1 = random_bytes(16);
    let mut response = m1.clone();
    response.push(1); // SlaveOk
    let conn = Connection {
        reader: ChunkReader::new(response, 8192),
        writer: init.writer,
        magic: init.magic,
    };

    let mut master = Master::new();
    let id = master.add_slave(String::from("127.0.0.1:2753"), conn);
    assert!(master.ping(id).is_ok());

    let c = master.slaves[id].as_ref().unwrap();
    let mut expect = m0.clone();
    expect.push(0); // magic M0 followed by the ping flag
    assert_eq!(c.writer, expect);
    assert_eq!(c.magic, m1); // the master stored the slave's echo
}

#[test]
fn test_ping_invalid_connection_id() {
    let mut master = Master::new();
    assert_eq!(master.ping(0), Err(ClusterError::InvalidConnectionId));
    assert_eq!(master.addrs().len(), 0);
}

/// Push scenario end to end: what the master sends, the slave reconstructs
/// exactly — symlinks never appear on the wire — and the slave answers with
/// its magic echo and the ok flag. Receiving the same stream twice
/// reconstructs the same walk both times.
#[test]
fn test_push_round_trip() {
    let magic = random_bytes(16);
    let entries = vec![
        dir_entry(b"tree"),
        file_entry(b"tree/a", b"alpha contents"),
        symlink_entry(b"tree/link"),
        file_entry(b"tree/empty", b""),
    ];
    let sent = PathSync(connection_with(Vec::new(), magic.clone()))
        .source_to_stream(b"/tmp/foo", &entries)
        .writer;

    let mut wire = magic.clone();
    wire.push(3); // MasterSendsFile
    wire.extend_from_slice(&sent);

    let (conn, action) = handle_incoming(ChunkReader::new(wire.clone(), 16), Vec::new()).unwrap();
    let (dest, decoded) = match action {
        SlaveAction::ReceiveTree(dest, decoded) => (dest, decoded),
        _ => panic!("expected a received tree"),
    };
    assert_eq!(dest, b"/tmp/foo".to_vec());
    // the symlink was skipped on the wire
    let expected: Vec<&WalkEntry> = entries.iter().filter(|e| !e.is_symlink).collect();
    assert_eq!(decoded.len(), expected.len());
    for (got, want) in decoded.iter().zip(expected.iter()) {
        assert!(!got.is_symlink);
        assert_eq!(got.entry_type, want.entry_type);
        assert_eq!(got.size, want.size);
        assert_eq!(got.rel_path, want.rel_path);
        assert_eq!(got.contents, want.contents);
    }
    // the slave answered with its magic echo and the ok flag
    let mut expect = magic.clone();
    expect.push(1);
    assert_eq!(conn.writer, expect);

    // decoding the same stream again yields the same walk
    let (_, action2) = handle_incoming(ChunkReader::new(wire, 16), Vec::new()).unwrap();
    match action2 {
        SlaveAction::ReceiveTree(dest2, decoded2) => {
            assert_eq!(dest2, b"/tmp/foo".to_vec());
            assert_eq!(decoded2.len(), decoded.len());
            for (a, b) in decoded2.iter().zip(decoded.iter()) {
                assert_eq!(a.entry_type, b.entry_type);
                assert_eq!(a.size, b.size);
                assert_eq!(a.rel_path, b.rel_path);
                assert_eq!(a.contents, b.contents);
            }
        },
        _ => panic!("expected a received tree"),
    }
}

/// The master's send-file operation writes the flag and the full wire form,
/// then accepts the slave's echo and response.
#[test]
fn test_send_file() {
    let magic = random_bytes(16);
    let entries = vec![file_entry(b"foobar", b"payload bytes")];
    let expected_body = PathSync(connection_with(Vec::new(), magic.clone()))
        .source_to_stream(b"/tmp/foo", &entries)
        .writer;

    let m1 = random_bytes(16);
    let mut response = m1.clone();
    response.push(1); // SlaveOk
    let conn = connection_with(response, magic.clone());
    let mut master = Master::new();
    let id = master.add_slave(String::from("10.0.0.7:2753"), conn);
    assert!(master.send_file(id, &entries, b"/tmp/foo").is_ok());

    let c = master.slaves[id].as_ref().unwrap();
    let mut expect = vec![3u8]; // MasterSendsFile
    expect.extend_from_slice(&expected_body);
    assert_eq!(c.writer, expect);
    assert_eq!(c.magic, m1);
}

/// Reserved flags are parsed without crashing and answered with silence.
#[test]
fn test_handle_incoming_reserved_flag() {
    let magic = random_bytes(16);
    let mut wire = magic.clone();
    wire.push(2); // MasterWantsFile, reserved
    let (conn, action) = handle_incoming(ChunkReader::new(wire, 8192), Vec::new()).unwrap();
    match action {
        SlaveAction::Ignored(f) => assert_eq!(f, ConnectionFlag::MasterWantsFile),
        _ => panic!("expected the reserved flag to be ignored"),
    }
    assert_eq!(conn.writer, magic); // only the echo was written
}

/// Malformed sessions fail with the matching error.
#[test]
fn test_handle_incoming_errors() {
    // too short for the magic
    match handle_incoming(ChunkReader::new(vec![1, 2, 3], 8192), Vec::new()) {
        Err(e) => assert_eq!(e, ClusterError::Io),
        Ok(_) => panic!("a short session must fail"),
    }
    // unknown request flag
    let magic = random_bytes(16);
    let mut wire = magic.clone();
    wire.push(9);
    match handle_incoming(ChunkReader::new(wire, 8192), Vec::new()) {
        Err(e) => assert_eq!(e, ClusterError::UnknownFlag),
        Ok(_) => panic!("an unknown flag must fail"),
    }
    // a push whose entry header is cut short
    let mut wire = magic.clone();
    wire.push(3);
    wire.extend_from_slice(b"/tmp/foo\n");
    wire.extend_from_slice(&[0, 0, 0]); // truncated size field
    match handle_incoming(ChunkReader::new(wire, 8192), Vec::new()) {
        Err(e) => assert_eq!(e, ClusterError::Io),
        Ok(_) => panic!("a truncated entry must fail"),
    }
    // a push whose file-type byte is out of range
    let mut wire = magic.clone();
    wire.push(3);
    wire.extend_from_slice(b"/tmp/foo\n");
    wire.extend_from_slice(&[0, 0, 0, 0, 0, 0, 0, 0]); // size
    wire.push(2); // invalid file type
    wire.extend_from_slice(b"x\n");
    match handle_incoming(ChunkReader::new(wire, 8192), Vec::new()) {
        Err(e) => assert_eq!(e, ClusterError::UnknownFlag),
        Ok(_) => panic!("an out-of-range file type must fail"),
    }
    // a file whose contents never reach the terminator
    let magic = random_bytes(16);
    let mut wire = magic.clone();
    wire.push(3);
    wire.extend_from_slice(b"/tmp/foo\n");
    wire.extend_from_slice(&(5u64).to_be_bytes());
    wire.push(1);
    wire.extend_from_slice(b"f\n");
    wire.extend_from_slice(b"unterminated");
    match handle_incoming(ChunkReader::new(wire, 8192), Vec::new()) {
        Err(e) => assert_eq!(e, ClusterError::Io),
        Ok(_) => panic!("a file without its terminator must fail"),
    }
}

/// A session whose response was cut short drops the slot, which the next
/// operation detects.
#[test]
fn test_ping_failure_empties_slot() {
    let magic = random_bytes(16);
    let short_response = vec![1u8, 2, 3]; // not even a full magic echo
    let conn = connection_with(short_response, magic);
    let mut master = Master::new();
    let id = master.add_slave(String::from("127.0.0.1:2753"), conn);
    match master.ping(id) {
        Err(e) => assert_eq!(e, ClusterError::Io),
        Ok(_) => panic!("a cut-short response must fail"),
    }
    assert!(master.slaves[id].is_none());
    // the emptied slot now fails like a missing one
    assert_eq!(master.ping(id), Err(ClusterError::InvalidConnectionId));
}

/// A response whose flag byte is outside the enumeration fails the session.
#[test]
fn test_ping_unknown_response_flag() {
    let magic = random_bytes(16);
    let mut response = random_bytes(16);
    response.push(200); // not a flag
    let conn = connection_with(response, magic);
    let mut master = Master::new();
    let id = master.add_slave(String::from("127.0.0.1:2753"), conn);
    assert_eq!(master.ping(id), Err(ClusterError::UnknownFlag));
}

/// The slave's side of the ping: it reads the magic and the ping flag, and
/// answers with its magic echo followed by the ok flag.
#[test]
fn test_slave_answers_ping() {
    let magic = random_bytes(16);
    let mut wire = magic.clone();
    wire.push(0); // MasterPing
    let (conn, action) = handle_incoming(ChunkReader::new(wire, 8192), Vec::new()).unwrap();
    assert!(matches!(action, SlaveAction::Pong));
    let mut expect = magic.clone();
    expect.push(1); // SlaveOk
    assert_eq!(conn.writer, expect);
    assert_eq!(conn.magic, magic);
}
