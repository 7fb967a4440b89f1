use soft::client::{expects, Expect, Reply, SoftClient};
use soft::common::{send_file, send_list_file, write_line};
use soft::error::Error;
use soft::types::{Command, Status};

fn all_statuses() -> Vec<Status> {
    vec![
        Status::Connected,
        Status::Disconnected,
        Status::WrongLogin,
        Status::NotConnected,
        Status::Okay,
        Status::NotFile,
        Status::NotDir,
        Status::PathUnknown,
        Status::UnknownError,
    ]
}

#[test]
fn requests_are_lines() {
    let mut client = SoftClient::new();
    assert_eq!(client.login("user", "pass"), b"LOGIN user pass\n".to_vec());
    assert_eq!(client.get("/path"), b"GET /path\n".to_vec());
    assert_eq!(client.put("/path"), b"PUT /path\n".to_vec());
    assert_eq!(client.list("/path"), b"LIST /path\n".to_vec());
    assert_eq!(client.cwd(), b"CWD\n".to_vec());
    assert_eq!(client.cd("path"), b"CD path\n".to_vec());
    assert_eq!(client.mkdir("path"), b"MKDIR path\n".to_vec());
    assert_eq!(client.rm("path"), b"RM path\n".to_vec());
    assert_eq!(client.rmdir("path", true), b"RMDIR path true\n".to_vec());
    assert_eq!(client.rmdir("path", false), b"RMDIR path false\n".to_vec());
    assert_eq!(client.presence(), b"PRESENCE\n".to_vec());
    assert!(!client.exited());
    assert_eq!(client.exit(), b"EXIT\n".to_vec());
    assert!(client.exited());
    assert_eq!(
        client.write_command(&Command::Cd("a/b".into())),
        b"CD a/b\n".to_vec()
    );
    assert_eq!(
        client.list_recursive("/docs").1,
        b"LIST /docs\n".to_vec()
    );
}

#[test]
fn requests_are_written_in_utf8() {
    let client = SoftClient::new();
    assert_eq!(
        client.get("/caf\u{e9}"),
        vec![b'G', b'E', b'T', b' ', b'/', b'c', b'a', b'f', 0xc3, 0xa9, b'\n']
    );
}

#[test]
fn check_status_knows_two_errors() {
    let client = SoftClient::new();
    for status in all_statuses() {
        let expected = match status {
            Status::WrongLogin => Err(Error::InvalidLogin),
            Status::NotConnected => Err(Error::NotConnected),
            _ => Ok(()),
        };
        assert_eq!(client.check_status(status), expected);
    }
}

#[test]
fn positive_and_negative() {
    for status in all_statuses() {
        let positive = matches!(
            status,
            Status::Connected | Status::Disconnected | Status::Okay
        );
        assert_eq!(status.is_positive(), positive);
        assert_eq!(status.is_negative(), !positive);
    }
}

#[test]
fn read_status_takes_the_first_byte() {
    let client = SoftClient::new();
    assert_eq!(client.read_status(&[]), None);
    assert_eq!(client.read_status(&[1]), Some(Status::Connected));
    assert_eq!(client.read_status(&[5, 3]), Some(Status::Okay));
    assert_eq!(client.read_status(&[0]), Some(Status::UnknownError));
    assert_eq!(client.read_status(&[9]), Some(Status::UnknownError));
    assert_eq!(client.read_status(&[200]), Some(Status::UnknownError));
}

#[test]
fn what_answers_each_command() {
    assert_eq!(expects(&Command::Get("p".into())), Expect::File);
    assert_eq!(expects(&Command::List("p".into())), Expect::List);
    assert_eq!(expects(&Command::Cwd), Expect::Line);
    for command in [
        Command::Login("u".into(), "p".into()),
        Command::Put("p".into()),
        Command::Cd("p".into()),
        Command::Mkdir("p".into()),
        Command::Rm("p".into()),
        Command::Rmdir("p".into(), false),
        Command::Presence,
        Command::Exit,
    ] {
        assert_eq!(expects(&command), Expect::Status);
    }
}

#[test]
fn reply_with_a_status_alone() {
    let client = SoftClient::new();
    assert_eq!(client.read_reply(Expect::Status, &[]), None);
    for byte in 0..=255u8 {
        let expected = match byte {
            3 => Err(Error::InvalidLogin),
            4 => Err(Error::NotConnected),
            _ => Ok(Reply::Done),
        };
        assert_eq!(
            client.read_reply(Expect::Status, &[byte, 77]),
            Some((expected, 1))
        );
    }
}

#[test]
fn reply_with_a_file() {
    let client = SoftClient::new();
    let mut answer = vec![5];
    answer.extend_from_slice(&send_file(b"content"));
    for n in 0..answer.len() {
        assert_eq!(client.read_reply(Expect::File, &answer[..n]), None);
    }
    assert_eq!(
        client.read_reply(Expect::File, &answer),
        Some((Ok(Reply::File(b"content".to_vec())), 16))
    );
    answer.push(5);
    assert_eq!(
        client.read_reply(Expect::File, &answer),
        Some((Ok(Reply::File(b"content".to_vec())), 16))
    );
    assert_eq!(client.recv_file(&answer[1..]), Some((b"content".to_vec(), 15)));
}

#[test]
fn reply_with_a_list() {
    let client = SoftClient::new();
    let list = vec!["/a".to_string(), "/b/".to_string()];
    let mut answer = vec![5];
    answer.extend_from_slice(&send_list_file(&list));
    for n in 0..answer.len() {
        assert_eq!(client.read_reply(Expect::List, &answer[..n]), None);
    }
    assert_eq!(
        client.read_reply(Expect::List, &answer),
        Some((Ok(Reply::List(list.clone())), 16))
    );
    assert_eq!(client.recv_list_file(&answer[1..]), Some((list, 15)));
}

#[test]
fn reply_with_a_line() {
    let client = SoftClient::new();
    let mut answer = vec![5];
    answer.extend_from_slice(&write_line("/docs"));
    for n in 0..answer.len() {
        assert_eq!(client.read_reply(Expect::Line, &answer[..n]), None);
    }
    assert_eq!(
        client.read_reply(Expect::Line, &answer),
        Some((Ok(Reply::Line("/docs".into())), 7))
    );
    assert_eq!(client.read_line(&answer[1..]), Some(("/docs".to_string(), 6)));
}

#[test]
fn refused_reply_holds_nothing_more() {
    let client = SoftClient::new();
    for expect in [Expect::Status, Expect::File, Expect::List, Expect::Line] {
        assert_eq!(
            client.read_reply(expect, &[4]),
            Some((Err(Error::NotConnected), 1))
        );
        assert_eq!(
            client.read_reply(expect, &[3, 0, 0]),
            Some((Err(Error::InvalidLogin), 1))
        );
    }
    // Another status that reports no success is no error: the answer goes on.
    assert_eq!(client.read_reply(Expect::File, &[8]), None);
    assert_eq!(
        client.read_reply(Expect::Line, &[8, b'x', b'\n']),
        Some((Ok(Reply::Line("x".into())), 3))
    );
}
