use soft::error::Error;
use soft::server::{db_dir, SoftServer};

#[test]
fn new_takes_the_users_and_the_limit() {
    let server = SoftServer::new("alice secret\n", Some(3), true).unwrap();
    assert_eq!(server.max_threads(), 3);
    assert!(server.allow_anonymous());
    assert!(server.connection_handlers().is_empty());
    assert!(server.get_users().is_valid("alice", "secret"));
    let server = SoftServer::new("", None, false).unwrap();
    assert_eq!(server.max_threads(), 8);
    assert!(!server.allow_anonymous());
    assert_eq!(server.get_users().len(), 0);
}

#[test]
fn the_limit_is_one_at_least() {
    let server = SoftServer::new("", Some(0), true).unwrap();
    assert_eq!(server.max_threads(), 1);
    let server = SoftServer::new("", Some(1), true).unwrap();
    assert_eq!(server.max_threads(), 1);
    let server = SoftServer::new("", Some(usize::MAX), true).unwrap();
    assert_eq!(server.max_threads(), usize::MAX);
}

#[test]
fn new_refuses_a_broken_database() {
    assert_eq!(
        SoftServer::new("alice\n", None, true).unwrap_err(),
        Error::InvalidUserDB
    );
}

#[test]
fn second_session_waits_for_the_first() {
    let mut server = SoftServer::new("", Some(1), true).unwrap();
    let first = server.new_connection().unwrap();
    assert_eq!(server.connection_handlers(), &vec![first]);
    // The server is full: the second session is not admitted.
    assert_eq!(server.new_connection(), None);
    assert_eq!(server.new_connection(), None);
    assert_eq!(server.connection_handlers(), &vec![first]);
    // Nothing has ended yet.
    server.check_connections(&Vec::new());
    assert_eq!(server.new_connection(), None);
    // The first session has ended and is taken off.
    server.check_connections(&vec![first]);
    assert!(server.connection_handlers().is_empty());
    let second = server.new_connection().unwrap();
    assert_eq!(server.connection_handlers(), &vec![second]);
    assert_eq!(server.new_connection(), None);
}

#[test]
fn sessions_never_pass_the_limit() {
    let mut server = SoftServer::new("", Some(3), true).unwrap();
    let mut admitted = Vec::new();
    for _ in 0..10 {
        if let Some(id) = server.new_connection() {
            admitted.push(id);
        }
        assert!(server.connection_handlers().len() <= 3);
    }
    assert_eq!(admitted, vec![0, 1, 2]);
    server.check_connections(&vec![1]);
    assert_eq!(server.connection_handlers(), &vec![0, 2]);
    // The smallest number that is free is given out again.
    assert_eq!(server.new_connection(), Some(1));
    assert_eq!(server.connection_handlers(), &vec![0, 2, 1]);
    assert_eq!(server.new_connection(), None);
    server.check_connections(&vec![0, 2, 7]);
    assert_eq!(server.connection_handlers(), &vec![1]);
    assert_eq!(server.new_connection(), Some(0));
    assert_eq!(server.new_connection(), Some(2));
    assert_eq!(server.new_connection(), None);
}

#[test]
fn users_of_the_server() {
    let mut server = SoftServer::new("", None, true).unwrap();
    server.add_user("soft", "soft");
    server.add_user("soft", "again");
    assert!(server.get_users().is_valid("soft", "soft"));
    assert!(!server.get_users().is_valid("soft", "again"));
    assert_eq!(server.get_users().dump(), "soft soft\n");
    assert_eq!(server.max_threads(), 8);
}

#[test]
fn database_directory() {
    assert_eq!(db_dir("soft-daemon"), "db/soft-daemon");
    assert_eq!(db_dir(""), "db/");
}

#[test]
fn the_server_reads_and_frames_as_its_sessions_do() {
    let server = SoftServer::new("", None, true).unwrap();
    assert_eq!(
        server.read_command(b"GET /a\nrest"),
        Some((Ok(soft::types::Command::Get("/a".into())), 7))
    );
    assert_eq!(server.read_command(b"GET /a"), None);
    assert_eq!(
        server.read_command(b"get /a\n"),
        Some((Err(Error::InvalidCommand("get /a".into())), 7))
    );
    let frame = server.send_file(b"abc");
    assert_eq!(frame, vec![0, 0, 0, 0, 0, 0, 0, 3, b'a', b'b', b'c']);
    assert_eq!(server.recv_file(&frame), Some((b"abc".to_vec(), 11)));
    assert_eq!(server.recv_file(&frame[..10]), None);
}
