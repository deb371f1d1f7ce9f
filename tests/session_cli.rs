use dood::{
    chat_command, ensure_logged_in, ensure_server_configured, get_db_path, session_key, truncate,
    ChatCommand, CliError, RatchetState, SessionDirectory,
};

fn state(tag: u8) -> RatchetState {
    RatchetState::new_responder(vec![tag; 32], vec![2; 32], vec![3; 32])
}

#[test]
fn session_key_joins_owner_and_peer() {
    assert_eq!(session_key("alice", "bob"), "alice:bob");
    assert_eq!(session_key("", "bob"), ":bob");
}

#[test]
fn establishing_twice_keeps_the_first_session() {
    let mut dir = SessionDirectory::new();
    assert!(dir.load("alice", "bob").is_none());
    assert!(dir.establish("alice", "bob", state(1)));
    assert!(!dir.establish("alice", "bob", state(2)));
    assert_eq!(dir.load("alice", "bob").unwrap().root_key, vec![1; 32]);
    // another owner has its own session with the same peer
    assert!(dir.establish("carol", "bob", state(3)));
    assert_eq!(dir.load("carol", "bob").unwrap().root_key, vec![3; 32]);
    assert_eq!(dir.load("alice", "bob").unwrap().root_key, vec![1; 32]);
}

#[test]
fn store_overwrites() {
    let mut dir = SessionDirectory::new();
    dir.store("alice", "bob", state(1));
    dir.store("alice", "bob", state(4));
    assert_eq!(dir.load("alice", "bob").unwrap().root_key, vec![4; 32]);
    assert!(dir.load("bob", "alice").is_none());
}

#[test]
fn take_moves_a_session_out() {
    let mut dir = SessionDirectory::new();
    dir.store("alice", "bob", state(5));
    assert!(dir.take("alice", "carol").is_none());
    let mut s = dir.take("alice", "bob").unwrap();
    assert!(dir.load("alice", "bob").is_none());
    s.nr = 0;
    dir.store("alice", "bob", s);
    assert_eq!(dir.load("alice", "bob").unwrap().root_key, vec![5; 32]);
}

#[test]
fn db_path_inside_config_dir() {
    assert_eq!(get_db_path("/home/a/.dood"), "/home/a/.dood/dood.db");
    assert_eq!(get_db_path("/home/a/.dood/"), "/home/a/.dood/dood.db");
    assert_eq!(get_db_path(""), "dood.db");
}

#[test]
fn truncate_keeps_short_text() {
    assert_eq!(truncate("hello", 5), "hello");
    assert_eq!(truncate("hello world", 8), "hello...");
    assert_eq!(truncate("", 3), "");
    assert_eq!(truncate("héllo wörld", 7), "héll...");
}

#[test]
fn chat_commands() {
    assert_eq!(chat_command(""), ChatCommand::Empty);
    assert_eq!(chat_command("/quit"), ChatCommand::Quit);
    assert_eq!(chat_command("/exit"), ChatCommand::Quit);
    assert_eq!(chat_command("/fetch"), ChatCommand::Fetch);
    assert_eq!(chat_command("/quitx"), ChatCommand::Send);
    assert_eq!(chat_command("hi"), ChatCommand::Send);
}

#[test]
fn command_guards() {
    assert_eq!(ensure_logged_in(true), Ok(()));
    assert_eq!(ensure_logged_in(false), Err(CliError::NotLoggedIn));
    assert_eq!(ensure_server_configured(true), Ok(()));
    assert_eq!(ensure_server_configured(false), Err(CliError::ServerNotConfigured));
}
