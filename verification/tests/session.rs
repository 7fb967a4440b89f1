use soft::client::{expects, Expect, Reply, SoftClient, WalkStep};
use soft::common::{canonicalize, recv_file, send_file, send_list_file, write_line};
use soft::error::Error;
use soft::server::connection::{user_dir, Action, Entry, PathKind, SoftConnection};
use soft::server::users::Users;
use soft::types::{Command, Status};
use std::collections::BTreeMap;

/// A file system in memory. The keys are canonical paths; a directory
/// holds `None`.
struct Disk {
    nodes: BTreeMap<String, Option<Vec<u8>>>,
}

impl Disk {
    fn new() -> Disk {
        let mut nodes = BTreeMap::new();
        nodes.insert(String::new(), None);
        Disk { nodes }
    }

    fn key(path: &str) -> String {
        canonicalize(path, "/")
    }

    fn kind(&self, path: &str) -> PathKind {
        match self.nodes.get(&Disk::key(path)) {
            None => PathKind::Missing,
            Some(None) => PathKind::Directory,
            Some(Some(_)) => PathKind::File,
        }
    }

    fn parent(key: &str) -> String {
        match key.rfind('/') {
            Some(at) => key[..at].to_string(),
            None => String::new(),
        }
    }

    fn read(&self, path: &str) -> Result<Vec<u8>, String> {
        match self.nodes.get(&Disk::key(path)) {
            Some(Some(data)) => Ok(data.clone()),
            _ => Err(format!("cannot read {}", path)),
        }
    }

    fn write(&mut self, path: &str, data: Vec<u8>) -> Result<(), String> {
        let key = Disk::key(path);
        if self.kind(&Disk::parent(&key)) != PathKind::Directory
            || self.kind(&key) == PathKind::Directory
        {
            return Err(format!("cannot write {}", path));
        }
        self.nodes.insert(key, Some(data));
        Ok(())
    }

    fn children(&self, path: &str) -> Vec<Entry> {
        let front = format!("{}/", Disk::key(path));
        let mut all = Vec::new();
        for (key, node) in &self.nodes {
            if key.starts_with(&front) && !key[front.len()..].contains('/') {
                all.push(Entry {
                    name: key[front.len()..].to_string(),
                    is_dir: node.is_none(),
                });
            }
        }
        all
    }

    fn make_dirs(&mut self, path: &str) -> Result<(), String> {
        let key = Disk::key(path);
        let mut at = String::new();
        for name in key.split('/').filter(|name| !name.is_empty()) {
            at = format!("{}/{}", at, name);
            match self.kind(&at) {
                PathKind::File => return Err(format!("{} is a file", at)),
                PathKind::Directory => {}
                PathKind::Missing => {
                    self.nodes.insert(at.clone(), None);
                }
            }
        }
        Ok(())
    }

    fn remove_file(&mut self, path: &str) -> Result<(), String> {
        if self.kind(path) != PathKind::File {
            return Err(format!("{} is no file", path));
        }
        self.nodes.remove(&Disk::key(path));
        Ok(())
    }

    fn remove_dir(&mut self, path: &str, recursive: bool) -> Result<(), String> {
        if self.kind(path) != PathKind::Directory {
            return Err(format!("{} is no directory", path));
        }
        if !recursive && !self.children(path).is_empty() {
            return Err(format!("{} is not empty", path));
        }
        let key = Disk::key(path);
        let front = format!("{}/", key);
        self.nodes
            .retain(|other, _| *other != key && !other.starts_with(&front));
        Ok(())
    }
}

/// A server for one connection: it carries out what the session asks for.
struct Host {
    disk: Disk,
    users: Users,
    session: SoftConnection,
    input: Vec<u8>,
    output: Vec<u8>,
    storing: Option<String>,
    closed: bool,
}

impl Host {
    fn new(database: &str) -> Host {
        Host {
            disk: Disk::new(),
            users: Users::load(database).unwrap(),
            session: SoftConnection::new(true),
            input: Vec::new(),
            output: Vec::new(),
            storing: None,
            closed: false,
        }
    }

    fn status(&mut self, status: Status) {
        let bytes = self.session.write_status(status);
        self.output.extend_from_slice(&bytes);
    }

    /// Serves what has arrived, as far as it is complete.
    fn pump(&mut self) -> Result<(), String> {
        while !self.closed {
            if let Some(path) = self.storing.clone() {
                match self.session.recv_file(&self.input) {
                    None => return Ok(()),
                    Some((data, used)) => {
                        self.input.drain(..used);
                        self.storing = None;
                        self.disk.write(&path, data)?;
                    }
                }
                continue;
            }
            let command = match self.session.read_command(&self.input) {
                None => return Ok(()),
                Some((command, used)) => {
                    self.input.drain(..used);
                    command.map_err(|e| e.to_string())?
                }
            };
            let kind = match self.session.probe(&command) {
                Some(path) => self.disk.kind(&path),
                None => PathKind::Missing,
            };
            let action = self.session.handle(command, &self.users, kind);
            let status = action.status();
            let first = action.answers_first();
            if first {
                self.status(status);
            }
            match action {
                Action::Reply(_) => {}
                Action::Bind(user) => {
                    let root = format!("/data/{}", user_dir(&user));
                    self.disk.make_dirs(&root)?;
                    self.session.bind_root(root);
                }
                Action::SendFile(path) => {
                    let data = self.disk.read(&path)?;
                    let frame = self.session.send_file(&data);
                    self.output.extend_from_slice(&frame);
                }
                Action::StoreFile(path) => self.storing = Some(path),
                Action::SendList(list) => {
                    let frame = self.session.send_list_file(&list);
                    self.output.extend_from_slice(&frame);
                }
                Action::ListDir { path, server_path } => {
                    let entries = self.disk.children(&path);
                    let list = self.session.list_files(&server_path, &entries);
                    self.output.extend_from_slice(&send_list_file(&list));
                }
                Action::SendLine(line) => self.output.extend_from_slice(&write_line(&line)),
                Action::MakeDir(path) => self.disk.make_dirs(&path)?,
                Action::RemoveFile(path) => self.disk.remove_file(&path)?,
                Action::RemoveDir(path, recursive) => self.disk.remove_dir(&path, recursive)?,
                Action::Close => self.closed = true,
            }
            if !first {
                self.status(status);
            }
        }
        Ok(())
    }

    /// Sends a request of the client and hands back what the server wrote.
    fn send(&mut self, request: Vec<u8>) -> Vec<u8> {
        self.input.extend_from_slice(&request);
        self.pump().unwrap();
        std::mem::take(&mut self.output)
    }

    /// Sends a command and reads the answer as the client does.
    fn ask(&mut self, client: &SoftClient, command: Command) -> Result<Reply, Error> {
        let expect = expects(&command);
        let answer = self.send(client.write_command(&command));
        let (reply, used) = client.read_reply(expect, &answer).unwrap();
        assert_eq!(used, answer.len());
        reply
    }
}

fn logged_in() -> (Host, SoftClient) {
    let mut host = Host::new("alice secret\n");
    let client = SoftClient::new();
    assert_eq!(host.send(client.login("alice", "secret")), vec![1]);
    (host, client)
}

#[test]
fn login_is_answered_with_connected() {
    let mut host = Host::new("alice secret\n");
    let client = SoftClient::new();
    assert!(!host.session.is_connected());
    assert_eq!(host.session.root(), None);
    let request = client.login("alice", "secret");
    assert_eq!(request, b"LOGIN alice secret\n".to_vec());
    let answer = host.send(request);
    assert_eq!(answer, vec![1]);
    assert!(host.session.is_connected());
    assert_eq!(host.session.cwd(), "/");
    assert_eq!(
        host.session.root(),
        Some(&"/data/users/alice".to_string())
    );
    assert_eq!(host.disk.kind("/data/users/alice"), PathKind::Directory);
    assert_eq!(
        client.read_reply(Expect::Status, &answer),
        Some((Ok(Reply::Done), 1))
    );
}

#[test]
fn wrong_login_changes_nothing() {
    let mut host = Host::new("alice secret\n");
    let client = SoftClient::new();
    for (user, pass) in [("alice", "wrong"), ("bob", "secret"), ("alice", "secret2")] {
        let answer = host.send(client.login(user, pass));
        assert_eq!(answer, vec![3]);
        assert_eq!(
            client.read_reply(Expect::Status, &answer),
            Some((Err(Error::InvalidLogin), 1))
        );
        assert!(!host.session.is_connected());
    }
    assert_eq!(host.disk.nodes.len(), 1);
    // A wrong login in a session that is logged in leaves it logged in.
    let (mut host, client) = logged_in();
    assert_eq!(host.send(client.cd("docs")), vec![5]);
    assert_eq!(host.send(client.login("alice", "wrong")), vec![3]);
    assert!(host.session.is_connected());
    assert_eq!(host.session.cwd(), "/docs");
}

#[test]
fn commands_before_login_are_not_served() {
    let commands = [
        Command::Get("/a".into()),
        Command::Put("/a".into()),
        Command::List("/".into()),
        Command::Cwd,
        Command::Cd("/a".into()),
        Command::Mkdir("a".into()),
        Command::Rm("a".into()),
        Command::Rmdir("a".into(), true),
    ];
    for kind in [PathKind::Missing, PathKind::File, PathKind::Directory] {
        for command in commands.clone() {
            let users = Users::load("alice secret").unwrap();
            let mut session = SoftConnection::new(false);
            assert_eq!(session.probe(&command), None);
            let action = session.handle(command, &users, kind);
            assert_eq!(action, Action::Reply(Status::NotConnected));
            assert_eq!(action.status().to_byte(), 4);
            assert!(!session.is_connected());
            assert_eq!(session.cwd(), "");
        }
    }
    let mut host = Host::new("alice secret\n");
    let client = SoftClient::new();
    for command in commands {
        assert_eq!(
            host.ask(&client, command),
            Err(Error::NotConnected)
        );
        assert_eq!(host.disk.nodes.len(), 1);
        assert_eq!(host.storing, None);
    }
}

#[test]
fn presence_and_exit_need_no_login() {
    let mut host = Host::new("");
    let mut client = SoftClient::new();
    assert_eq!(host.send(client.presence()), vec![5]);
    assert!(!host.closed);
    assert!(!client.exited());
    let request = client.exit();
    assert!(client.exited());
    assert_eq!(request, b"EXIT\n".to_vec());
    assert_eq!(host.send(request), vec![2]);
    assert!(host.closed);
}

#[test]
fn put_then_get_gives_the_same_bytes() {
    let (mut host, client) = logged_in();
    let data: Vec<u8> = (0..5000u32).map(|i| (i * 7 % 256) as u8).collect();
    let answer = host.send(client.put("big.bin"));
    assert_eq!(answer, vec![5]);
    assert_eq!(
        client.read_reply(Expect::Status, &answer),
        Some((Ok(Reply::Done), 1))
    );
    let frame = client.send_file(&data);
    assert_eq!(frame.len(), 5008);
    // The file arrives in two parts.
    assert_eq!(host.send(frame[..3000].to_vec()), Vec::<u8>::new());
    assert_eq!(host.disk.kind("/data/users/alice/big.bin"), PathKind::Missing);
    assert_eq!(host.send(frame[3000..].to_vec()), Vec::<u8>::new());
    assert_eq!(host.disk.read("/data/users/alice/big.bin").unwrap(), data);
    let answer = host.send(client.get("big.bin"));
    assert_eq!(answer.len(), 1 + 8 + 5000);
    assert_eq!(answer[0], 5);
    assert_eq!(client.read_reply(Expect::File, &answer[..1]), None);
    assert_eq!(client.read_reply(Expect::File, &answer[..5008]), None);
    assert_eq!(
        client.read_reply(Expect::File, &answer),
        Some((Ok(Reply::File(data.clone())), 5009))
    );
    assert_eq!(recv_file(&answer[1..]), Some((data.clone(), 5008)));
    assert_eq!(send_file(&data), answer[1..].to_vec());
}

#[test]
fn put_replaces_a_file() {
    let (mut host, client) = logged_in();
    for text in ["first", "second and longer", ""] {
        assert_eq!(host.send(client.put("/note")), vec![5]);
        host.send(client.send_file(text.as_bytes()));
        assert_eq!(
            host.ask(&client, Command::Get("note".into())),
            Ok(Reply::File(text.as_bytes().to_vec()))
        );
    }
}

#[test]
fn list_names_the_children_below_the_root() {
    let (mut host, client) = logged_in();
    host.disk
        .write("/data/users/alice/a.txt", b"a".to_vec())
        .unwrap();
    host.disk.make_dirs("/data/users/alice/b").unwrap();
    host.disk
        .write("/data/users/alice/b/c.txt", b"c".to_vec())
        .unwrap();
    host.disk.make_dirs("/data/users/alice/b/d/e").unwrap();
    assert_eq!(
        host.ask(&client, Command::List("/".into())),
        Ok(Reply::List(vec!["/a.txt".into(), "/b/".into()]))
    );
    assert_eq!(
        host.ask(&client, Command::List("b".into())),
        Ok(Reply::List(vec!["/b/c.txt".into(), "/b/d/".into()]))
    );
    assert_eq!(
        host.ask(&client, Command::List("/b/".into())),
        Ok(Reply::List(vec!["/b/c.txt".into(), "/b/d/".into()]))
    );
    assert_eq!(
        host.ask(&client, Command::List(".//////./////".into())),
        Ok(Reply::List(vec!["/a.txt".into(), "/b/".into()]))
    );
    // A file is listed as itself, and so is a path that leads nowhere.
    assert_eq!(
        host.ask(&client, Command::List("a.txt".into())),
        Ok(Reply::List(vec!["/a.txt".into()]))
    );
    assert_eq!(
        host.ask(&client, Command::List("nothing/here".into())),
        Ok(Reply::List(vec!["/nothing/here".into()]))
    );
    // An empty directory.
    assert_eq!(
        host.ask(&client, Command::List("/b/d/e".into())),
        Ok(Reply::List(Vec::new()))
    );
}

#[test]
fn recursive_list_is_sorted() {
    let (mut host, client) = logged_in();
    host.disk.make_dirs("/data/users/alice/b/d").unwrap();
    host.disk.make_dirs("/data/users/alice/z").unwrap();
    for name in ["a.txt", "b/c.txt", "b/d/x", "b/d/a", "b.txt", "z/0"] {
        host.disk
            .write(&format!("/data/users/alice/{}", name), Vec::new())
            .unwrap();
    }
    let (mut walk, mut request) = client.list_recursive("/");
    let mut asked = Vec::new();
    let found = loop {
        asked.push(String::from_utf8(request.clone()).unwrap());
        let answer = host.send(request);
        let list = match client.read_reply(Expect::List, &answer) {
            Some((Ok(Reply::List(list)), _)) => list,
            other => panic!("no listing: {:?}", other),
        };
        match walk.feed(list) {
            WalkStep::More(next, bytes) => {
                walk = next;
                request = bytes;
            }
            WalkStep::Done(found) => break found,
        }
    };
    assert_eq!(
        asked,
        vec!["LIST /\n", "LIST /b/\n", "LIST /b/d/\n", "LIST /z/\n"]
    );
    assert_eq!(
        found,
        vec![
            "/a.txt", "/b.txt", "/b/", "/b/c.txt", "/b/d/", "/b/d/a", "/b/d/x", "/z/", "/z/0"
        ]
    );
}

#[test]
fn recursive_list_of_a_directory_without_directories() {
    let client = SoftClient::new();
    let (walk, request) = client.list_recursive("docs");
    assert_eq!(request, b"LIST docs\n".to_vec());
    assert_eq!(walk.found(), 0);
    match walk.feed(vec!["/docs/b".into(), "/docs/a".into(), "/docs/b".into()]) {
        WalkStep::Done(found) => assert_eq!(found, vec!["/docs/a", "/docs/b", "/docs/b"]),
        WalkStep::More(_, _) => panic!("nothing is left to list"),
    }
    let (walk, _) = client.list_recursive("docs");
    match walk.feed(Vec::new()) {
        WalkStep::Done(found) => assert!(found.is_empty()),
        WalkStep::More(_, _) => panic!("nothing is left to list"),
    }
}

#[test]
fn cd_and_cwd() {
    let (mut host, client) = logged_in();
    assert_eq!(
        host.ask(&client, Command::Cwd),
        Ok(Reply::Line("/".into()))
    );
    assert_eq!(host.send(client.cwd()), b"\x05/\n".to_vec());
    assert_eq!(host.ask(&client, Command::Cd("docs".into())), Ok(Reply::Done));
    assert_eq!(
        host.ask(&client, Command::Cwd),
        Ok(Reply::Line("/docs".into()))
    );
    assert_eq!(host.ask(&client, Command::Cd("sub/./x/..".into())), Ok(Reply::Done));
    assert_eq!(host.session.cwd(), "/docs/sub");
    assert_eq!(host.ask(&client, Command::Cd("..".into())), Ok(Reply::Done));
    assert_eq!(host.session.cwd(), "/docs");
    assert_eq!(host.ask(&client, Command::Cd("/other".into())), Ok(Reply::Done));
    assert_eq!(host.session.cwd(), "/other");
    // Out of the root: back to its top.
    assert_eq!(
        host.ask(&client, Command::Cd("../../../etc".into())),
        Ok(Reply::Done)
    );
    assert_eq!(host.session.cwd(), "/");
    // The directory is not looked for.
    assert_eq!(host.disk.kind("/data/users/alice/docs"), PathKind::Missing);
}

#[test]
fn paths_go_through_the_working_directory() {
    let (mut host, client) = logged_in();
    assert_eq!(host.send(client.mkdir("docs/old")), vec![5]);
    assert_eq!(host.disk.kind("/data/users/alice/docs/old"), PathKind::Directory);
    assert_eq!(host.send(client.cd("docs")), vec![5]);
    assert_eq!(host.send(client.put("note")), vec![5]);
    host.send(client.send_file(b"hello"));
    assert_eq!(
        host.disk.read("/data/users/alice/docs/note").unwrap(),
        b"hello".to_vec()
    );
    assert_eq!(
        host.ask(&client, Command::Get("/docs/note".into())),
        Ok(Reply::File(b"hello".to_vec()))
    );
    assert_eq!(
        host.ask(&client, Command::List(".".into())),
        Ok(Reply::List(vec!["/docs/note".into(), "/docs/old/".into()]))
    );
    assert_eq!(host.send(client.rm("note")), vec![5]);
    assert_eq!(host.disk.kind("/data/users/alice/docs/note"), PathKind::Missing);
}

#[test]
fn rm_takes_files_only() {
    let (mut host, client) = logged_in();
    host.disk.make_dirs("/data/users/alice/dir").unwrap();
    host.disk
        .write("/data/users/alice/file", b"x".to_vec())
        .unwrap();
    assert_eq!(host.send(client.rm("nothing")), vec![8]);
    assert_eq!(host.send(client.rm("dir")), vec![6]);
    assert_eq!(host.disk.kind("/data/users/alice/dir"), PathKind::Directory);
    assert_eq!(host.send(client.rm("file")), vec![5]);
    assert_eq!(host.disk.kind("/data/users/alice/file"), PathKind::Missing);
    assert_eq!(host.send(client.rm("file")), vec![8]);
}

#[test]
fn rmdir_takes_directories_only() {
    let (mut host, client) = logged_in();
    host.disk.make_dirs("/data/users/alice/full/inner").unwrap();
    host.disk.make_dirs("/data/users/alice/empty").unwrap();
    host.disk
        .write("/data/users/alice/file", b"x".to_vec())
        .unwrap();
    assert_eq!(host.send(client.rmdir("nothing", false)), vec![8]);
    assert_eq!(host.send(client.rmdir("file", true)), vec![7]);
    assert_eq!(host.disk.kind("/data/users/alice/file"), PathKind::File);
    assert_eq!(host.send(client.rmdir("empty", false)), vec![5]);
    assert_eq!(host.disk.kind("/data/users/alice/empty"), PathKind::Missing);
    assert_eq!(host.send(client.rmdir("full", true)), vec![5]);
    assert_eq!(host.disk.kind("/data/users/alice/full"), PathKind::Missing);
    assert_eq!(host.disk.kind("/data/users/alice/full/inner"), PathKind::Missing);
}

#[test]
fn rmdir_of_a_full_directory_needs_the_flag() {
    let (mut host, client) = logged_in();
    host.disk.make_dirs("/data/users/alice/full/inner").unwrap();
    // The session asks for the directory to go, without what it holds.
    let command = Command::Rmdir("full".into(), false);
    assert_eq!(
        host.session.probe(&command),
        Some("/data/users/alice//full".to_string())
    );
    let action = host
        .session
        .handle(command, &host.users, PathKind::Directory);
    assert_eq!(
        action,
        Action::RemoveDir("/data/users/alice//full".into(), false)
    );
    // The file system refuses, no status is written, and the directory stays.
    host.input.extend_from_slice(&client.rmdir("full", false));
    assert!(host.pump().is_err());
    assert!(host.output.is_empty());
    assert_eq!(host.disk.kind("/data/users/alice/full"), PathKind::Directory);
    assert_eq!(host.disk.kind("/data/users/alice/full/inner"), PathKind::Directory);
}

#[test]
fn no_path_leads_out_of_the_root() {
    let (mut host, client) = logged_in();
    host.disk.make_dirs("/etc").unwrap();
    host.disk.write("/etc/passwd", b"root".to_vec()).unwrap();
    host.disk
        .write("/data/users/secret", b"other".to_vec())
        .unwrap();
    for path in ["../../../etc/passwd", "/../../../etc/passwd", "../secret", "/.."] {
        let session = &host.session;
        assert_eq!(session.to_server_path(path), "/");
        for command in [
            Command::Get(path.into()),
            Command::Put(path.into()),
            Command::Mkdir(path.into()),
            Command::Rm(path.into()),
            Command::Rmdir(path.into(), true),
        ] {
            let mut session = SoftConnection::new(true);
            session.bind_root("/data/users/alice".into());
            let action = session.handle(command.clone(), &host.users, PathKind::File);
            let place = match action {
                Action::SendFile(p)
                | Action::StoreFile(p)
                | Action::MakeDir(p)
                | Action::RemoveFile(p) => p,
                Action::Reply(Status::NotDir) => continue,
                other => panic!("{:?}", other),
            };
            assert_eq!(place, "/data/users/alice//");
            assert_eq!(Disk::key(&place), "/data/users/alice");
        }
    }
    assert_eq!(host.send(client.rm("../../../etc/passwd")), vec![6]);
    assert_eq!(host.disk.read("/etc/passwd").unwrap(), b"root".to_vec());
    assert_eq!(host.send(client.rmdir("../../../etc", true)), vec![5]);
    // The root itself went, and nothing else.
    assert_eq!(host.disk.kind("/etc/passwd"), PathKind::File);
    assert_eq!(host.disk.kind("/data/users/secret"), PathKind::File);
    assert_eq!(host.disk.kind("/data/users/alice"), PathKind::Missing);
}

#[test]
fn a_line_that_is_no_command_ends_the_session() {
    let mut host = Host::new("alice secret\n");
    for line in [
        "\n",
        "login alice secret\n",
        "LOGIN alice\n",
        "FOO\n",
        "RMDIR a yes\n",
        "CWD /\n",
    ] {
        host.input = line.as_bytes().to_vec();
        let text = &line[..line.len() - 1];
        assert_eq!(
            host.session.read_command(&host.input),
            Some((Err(Error::InvalidCommand(text.to_string())), line.len()))
        );
        assert_eq!(host.pump(), Err(format!("invalid command: {}", text)));
        assert!(host.output.is_empty());
    }
}

#[test]
fn commands_are_served_one_after_the_other() {
    let mut host = Host::new("alice secret\n");
    let answer = host
        .send(b"PRESENCE\nLOGIN alice secret\nCWD\nMKDIR a\nCD a\nCWD\nEXIT\nCWD\n".to_vec());
    assert_eq!(answer, b"\x05\x01\x05/\n\x05\x05\x05/a\n\x02".to_vec());
    assert!(host.closed);
    // What came behind the goodbye is not read.
    assert_eq!(host.input, b"CWD\n".to_vec());
    // Half a line is no command yet.
    let mut host = Host::new("");
    assert_eq!(host.send(b"PRESE".to_vec()), Vec::<u8>::new());
    assert_eq!(host.send(b"NCE\nPRES".to_vec()), vec![5]);
}

#[test]
fn status_of_each_action() {
    assert_eq!(Action::Reply(Status::NotFile).status(), Status::NotFile);
    assert_eq!(Action::Bind("u".into()).status(), Status::Connected);
    assert_eq!(Action::Close.status(), Status::Disconnected);
    for action in [
        Action::Reply(Status::NotFile),
        Action::Bind("u".into()),
        Action::Close,
    ] {
        assert!(action.answers_first());
    }
    for action in [
        Action::SendFile("p".into()),
        Action::StoreFile("p".into()),
        Action::SendList(Vec::new()),
        Action::ListDir {
            path: "p".into(),
            server_path: "s".into(),
        },
        Action::SendLine("l".into()),
    ] {
        assert_eq!(action.status(), Status::Okay);
        assert!(action.answers_first());
    }
    for action in [
        Action::MakeDir("p".into()),
        Action::RemoveFile("p".into()),
        Action::RemoveDir("p".into(), false),
    ] {
        assert_eq!(action.status(), Status::Okay);
        assert!(!action.answers_first());
    }
}

#[test]
fn a_file_that_is_missing_is_answered_before_it_is_missed() {
    let (mut host, client) = logged_in();
    host.input.extend_from_slice(&client.get("nothing"));
    assert!(host.pump().is_err());
    assert_eq!(host.output, vec![5]);
    // A directory that cannot be made is not answered.
    let (mut host, client) = logged_in();
    host.disk
        .write("/data/users/alice/file", Vec::new())
        .unwrap();
    host.input.extend_from_slice(&client.mkdir("file/below"));
    assert!(host.pump().is_err());
    assert!(host.output.is_empty());
}

#[test]
fn user_directory() {
    assert_eq!(user_dir("alice"), "users/alice");
    assert_eq!(user_dir(""), "users/");
    let session = SoftConnection::new(true);
    assert!(session.allow_anonymous());
    assert!(!SoftConnection::new(false).allow_anonymous());
}

const FILE_NAME: &str = "Cargo.toml";
const FILE_DATA: &str = "[package]\nname = \"soft\"\nversion = \"0.1.0\"\n\n[dependencies]\n";

#[test]
fn stream_file_stream() {
    let mut host = Host::new("");
    let client = SoftClient::new();
    host.input = client.write_command(&Command::Exit);
    assert_eq!(
        host.session.read_command(&host.input),
        Some((Ok(Command::Exit), 5))
    );
}

#[test]
fn stream_tcp_stream() {
    let mut host = Host::new("");
    let client = SoftClient::new();
    assert_eq!(host.ask(&client, Command::Presence), Ok(Reply::Done));
    host.send(client.write_command(&Command::Exit));
    assert!(host.closed);
}

#[test]
fn stream_file_transfert() {
    let mut host = Host::new("");
    host.users.add_user("test", "test");
    let client = SoftClient::new();
    assert_eq!(host.ask(&client, Command::Presence), Ok(Reply::Done));
    assert_eq!(
        host.ask(&client, Command::Login("test".into(), "test".into())),
        Ok(Reply::Done)
    );
    assert_eq!(host.ask(&client, Command::Put("Cargo.toml".into())), Ok(Reply::Done));
    host.send(client.send_file(FILE_DATA.as_bytes()));
    let data = match host.ask(&client, Command::Get(FILE_NAME.into())) {
        Ok(Reply::File(data)) => data,
        other => panic!("no file: {:?}", other),
    };
    assert_eq!(data, FILE_DATA.as_bytes());
    assert_eq!(host.ask(&client, Command::Presence), Ok(Reply::Done));
    assert_eq!(host.ask(&client, Command::Exit), Ok(Reply::Done));
    assert!(host.closed);
}

#[test]
fn list_files() {
    let mut host = Host::new("");
    host.users.add_user("test", "test");
    let client = SoftClient::new();
    assert_eq!(
        host.ask(&client, Command::Login("test".into(), "test".into())),
        Ok(Reply::Done)
    );
    let list = host.ask(&client, Command::List(".//////./////".into()));
    assert_eq!(list, Ok(Reply::List(Vec::new())));
    assert_eq!(host.ask(&client, Command::Exit), Ok(Reply::Done));
}

#[test]
fn drop_exit() {
    let mut host = Host::new("");
    let mut client = SoftClient::new();
    // A client that is let go without a goodbye says it then.
    assert!(!client.exited());
    let request = client.exit();
    assert_eq!(host.send(request), vec![2]);
    assert!(host.closed);
    assert!(client.exited());
}

#[test]
fn file_transfert_file_stream() {
    let mut host = Host::new("");
    let client = SoftClient::new();
    host.input = client.write_command(&Command::Get(FILE_NAME.into()));
    let (command, used) = host.session.read_command(&host.input).unwrap();
    assert_eq!(command, Ok(Command::Get(FILE_NAME.into())));
    assert_eq!(used, host.input.len());
    let frame = host.session.send_file(FILE_DATA.as_bytes());
    let (data, used) = client.recv_file(&frame).unwrap();
    assert_eq!(used, frame.len());
    assert_eq!(data, FILE_DATA.as_bytes());
}

#[test]
#[should_panic]
fn file_transfert_fail() {
    let host = Host::new("");
    let client = SoftClient::new();
    // The client sends a file where the server waits for a command.
    let frame = client.send_file(FILE_DATA.as_bytes());
    let (command, _) = host.session.read_command(&frame).unwrap();
    command.unwrap();
}
