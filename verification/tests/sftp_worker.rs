use ms_toolkit::sftp::{
    dir_listing, worker_start, worker_step, RawDirEntry, SftpCmd, SftpEvent, WorkerAction, WorkerEvent, WorkerOp,
    WorkerState,
};

fn raw(name: &str, is_dir: bool, size: Option<u64>) -> RawDirEntry {
    RawDirEntry { name: name.to_string(), is_dir, size }
}

#[test]
fn listing_puts_directories_first_then_names() {
    let entries = dir_listing(
        "/var/log/",
        vec![
            raw("system.log", false, Some(10)),
            raw(".", true, None),
            raw("archive", true, None),
            raw("..", true, None),
            raw("Zeta.txt", false, None),
            raw("alpha.slk", false, Some(3)),
            raw("backup", true, Some(4096)),
        ],
    );
    let names: Vec<&str> = entries.iter().map(|e| e.name.as_str()).collect();
    assert_eq!(names, vec!["archive", "backup", "Zeta.txt", "alpha.slk", "system.log"]);
    assert_eq!(entries[0].full_path, "/var/log/archive");
    assert_eq!(entries[2].size, 0);
    assert_eq!(entries[4].size, 10);
    assert!(entries[1].is_dir && !entries[2].is_dir);
}

#[test]
fn listing_of_root_and_unicode_names() {
    let entries = dir_listing("/", vec![raw("é", false, None), raw("z", false, None), raw("a", false, None)]);
    let names: Vec<&str> = entries.iter().map(|e| e.name.as_str()).collect();
    let mut expected = vec!["é", "z", "a"];
    expected.sort();
    assert_eq!(names, expected);
    assert_eq!(entries[0].full_path, "/a");
}

fn expect_error(actions: &[WorkerAction], msg: &str) {
    match &actions[0] {
        WorkerAction::Send(SftpEvent::Error(m)) => assert_eq!(m, msg),
        _ => panic!("expected an error report"),
    }
}

#[test]
fn connection_failure_is_reported() {
    let s = worker_start("example.org".to_string(), 2222);
    assert!(matches!(s.op, WorkerOp::Connect));
    let s = worker_step(s.state, WorkerEvent::ConnectDone(Err("refused".to_string())));
    assert!(matches!(s.state, WorkerState::Done));
    assert!(matches!(s.op, WorkerOp::Stop));
    expect_error(&s.actions, "Connect to example.org:2222: refused");
    assert!(matches!(s.actions[1], WorkerAction::Repaint));
}

#[test]
fn wrong_credentials_end_the_session() {
    let s = worker_step(WorkerState::Authenticating, WorkerEvent::AuthDone(Ok(false)));
    expect_error(&s.actions, "Authentication failed (wrong credentials)");
    let s = worker_step(WorkerState::Authenticating, WorkerEvent::AuthDone(Err("timeout".to_string())));
    expect_error(&s.actions, "Auth: timeout");
    let s = worker_step(WorkerState::OpeningChannel, WorkerEvent::ChannelDone(Err("x".to_string())));
    expect_error(&s.actions, "Open session channel: x");
    let s = worker_step(WorkerState::RequestingSubsystem, WorkerEvent::SubsystemDone(Err("y".to_string())));
    expect_error(&s.actions, "Request sftp subsystem: y");
    let s = worker_step(WorkerState::StartingSftp, WorkerEvent::SessionDone(Err("z".to_string())));
    expect_error(&s.actions, "SFTP session: z");
}

#[test]
fn session_reaches_idle_with_home_directory() {
    let mut s = worker_start("h".to_string(), 22);
    s = worker_step(s.state, WorkerEvent::ConnectDone(Ok(())));
    assert!(matches!(s.op, WorkerOp::Authenticate));
    s = worker_step(s.state, WorkerEvent::AuthDone(Ok(true)));
    assert!(matches!(s.op, WorkerOp::OpenChannel));
    s = worker_step(s.state, WorkerEvent::ChannelDone(Ok(())));
    assert!(matches!(s.op, WorkerOp::RequestSubsystem));
    s = worker_step(s.state, WorkerEvent::SubsystemDone(Ok(())));
    assert!(matches!(s.op, WorkerOp::StartSftp));
    s = worker_step(s.state, WorkerEvent::SessionDone(Ok(())));
    assert!(matches!(s.op, WorkerOp::ResolveHome));
    s = worker_step(s.state, WorkerEvent::HomeDone(None));
    assert!(matches!(s.op, WorkerOp::NextCommand));
    match &s.actions[0] {
        WorkerAction::Send(SftpEvent::Connected { home_dir }) => assert_eq!(home_dir, "/"),
        _ => panic!("expected Connected"),
    }
    let s2 = worker_step(WorkerState::ResolvingHome, WorkerEvent::HomeDone(Some("/home/op".to_string())));
    match &s2.actions[0] {
        WorkerAction::Send(SftpEvent::Connected { home_dir }) => assert_eq!(home_dir, "/home/op"),
        _ => panic!("expected Connected"),
    }
}

#[test]
fn listing_request_round_trip() {
    let s = worker_step(WorkerState::Idle, WorkerEvent::CommandReceived(Some(SftpCmd::ListDir("/data".to_string()))));
    assert!(matches!(s.actions[0], WorkerAction::Send(SftpEvent::Busy(true))));
    assert!(matches!(s.actions[1], WorkerAction::Repaint));
    match &s.op {
        WorkerOp::ReadDir(p) => assert_eq!(p, "/data"),
        _ => panic!("expected ReadDir"),
    }
    let done = worker_step(s.state, WorkerEvent::ListDone(Ok(vec![raw("b", false, Some(1)), raw("a", true, None)])));
    match &done.actions[0] {
        WorkerAction::Send(SftpEvent::DirListing { path, entries }) => {
            assert_eq!(path, "/data");
            assert_eq!(entries[0].full_path, "/data/a");
            assert_eq!(entries[1].name, "b");
        }
        _ => panic!("expected a listing"),
    }
    assert!(matches!(done.actions[1], WorkerAction::Send(SftpEvent::Busy(false))));
    assert!(matches!(done.actions[2], WorkerAction::Repaint));
    assert!(matches!(done.op, WorkerOp::NextCommand));

    let s = worker_step(WorkerState::Listing { path: "/nope".to_string() }, WorkerEvent::ListDone(Err("no such file".to_string())));
    expect_error(&s.actions, "List /nope: no such file");
    assert!(matches!(s.state, WorkerState::Idle));
}

#[test]
fn download_round_trip_and_errors() {
    let cmd = SftpCmd::Download { path: "/d/x.log".to_string(), name: "x.log".to_string() };
    let s = worker_step(WorkerState::Idle, WorkerEvent::CommandReceived(Some(cmd)));
    match &s.op {
        WorkerOp::OpenFile(p) => assert_eq!(p, "/d/x.log"),
        _ => panic!("expected OpenFile"),
    }
    let s = worker_step(s.state, WorkerEvent::OpenDone(Ok(())));
    assert!(matches!(s.op, WorkerOp::ReadFile));
    let s = worker_step(s.state, WorkerEvent::ReadDone(Ok(vec![1, 2, 3])));
    match &s.actions[0] {
        WorkerAction::Send(SftpEvent::FileData { name, data }) => {
            assert_eq!(name, "x.log");
            assert_eq!(data, &vec![1u8, 2, 3]);
        }
        _ => panic!("expected file data"),
    }
    let s = worker_step(
        WorkerState::Opening { path: "/d/x.log".to_string(), name: "x.log".to_string() },
        WorkerEvent::OpenDone(Err("denied".to_string())),
    );
    expect_error(&s.actions, "Download x.log: Open /d/x.log: denied");
    let s = worker_step(
        WorkerState::Reading { path: "/d/x.log".to_string(), name: "x.log".to_string() },
        WorkerEvent::ReadDone(Err("eof".to_string())),
    );
    expect_error(&s.actions, "Download x.log: Read x.log: eof");
}

#[test]
fn disconnect_and_closed_channel_stop_quietly() {
    let s = worker_step(WorkerState::Idle, WorkerEvent::CommandReceived(Some(SftpCmd::Disconnect)));
    assert!(matches!(s.state, WorkerState::Done) && s.actions.is_empty() && matches!(s.op, WorkerOp::Stop));
    let s = worker_step(WorkerState::Idle, WorkerEvent::CommandReceived(None));
    assert!(matches!(s.state, WorkerState::Done) && s.actions.is_empty());
}

#[test]
fn unexpected_outcome_changes_nothing() {
    let s = worker_step(WorkerState::Idle, WorkerEvent::ReadDone(Ok(vec![])));
    assert!(matches!(s.state, WorkerState::Idle) && s.actions.is_empty() && matches!(s.op, WorkerOp::NextCommand));
}
