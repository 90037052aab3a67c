use twitch_chatbot::cli::{ArgsError, MainArgs};
use twitch_chatbot::commands::{
    client_commands_from_chunk, client_join_request, handle_json_command, json_command_from_members,
    JsonCommand,
};
use twitch_chatbot::lines::LineBuffer;
use twitch_chatbot::session::channels_to_join;
use twitch_chatbot::channels::JoinCmd;

#[test]
fn join_and_leave_commands() {
    match handle_json_command(b"{\"json_meta_type\":\"join\",\"channel_name\":\"somechan\"}\n") {
        JsonCommand::Join(c) => assert_eq!(c, "somechan"),
        other => panic!("unexpected {:?}", other),
    }
    match handle_json_command(b"{\"json_meta_type\":\"leave\",\"channel_name\":\"x\"}") {
        JsonCommand::Leave(c) => assert_eq!(c, "x"),
        other => panic!("unexpected {:?}", other),
    }
}

#[test]
fn chat_command() {
    match handle_json_command(b"{\"json_meta_type\":\"chat\",\"channel_name\":\"room\",\"msg\":\"hello there\"}\n") {
        JsonCommand::Chat(bytes) => assert_eq!(bytes, b"PRIVMSG #room :hello there\r\n".to_vec()),
        other => panic!("unexpected {:?}", other),
    }
}

#[test]
fn ignored_commands() {
    let ignored: Vec<&[u8]> = vec![
        b"not json\n",
        b"{\"json_meta_type\":\"join\"}\n",
        b"{\"json_meta_type\":\"join\",\"channel_name\":5}\n",
        b"{\"json_meta_type\":\"chat\",\"channel_name\":\"room\"}\n",
        b"{\"json_meta_type\":\"dance\",\"channel_name\":\"room\"}\n",
        b"[1,2]\n",
    ];
    for line in ignored {
        assert!(matches!(handle_json_command(line), JsonCommand::Ignore));
    }
}

#[test]
fn members_decide_command() {
    let c = json_command_from_members(Some("chat".to_string()), Some("r".to_string()), Some("m".to_string()));
    assert!(matches!(c, JsonCommand::Chat(ref b) if b == b"PRIVMSG #r :m\r\n"));
    let c = json_command_from_members(Some("join".to_string()), None, None);
    assert!(matches!(c, JsonCommand::Ignore));
    let c = json_command_from_members(None, Some("r".to_string()), None);
    assert!(matches!(c, JsonCommand::Ignore));
}

#[test]
fn commands_from_stream() {
    let mut buffer = LineBuffer::new();
    let cmds = client_commands_from_chunk(&mut buffer, b"{\"json_meta_type\":\"join\",\"channel_".to_vec());
    assert!(cmds.is_empty());
    let cmds = client_commands_from_chunk(&mut buffer, b"name\":\"a\"}\n{\"json_meta_type\":\"leave\",\"channel_name\":\"b\"}\n".to_vec());
    assert_eq!(cmds.len(), 2);
    assert!(matches!(cmds[0], JsonCommand::Join(ref c) if c == "a"));
    assert!(matches!(cmds[1], JsonCommand::Leave(ref c) if c == "b"));
}

#[test]
fn client_request_text() {
    assert_eq!(
        client_join_request(&"mychan".to_string()),
        "{\"json_meta_type\":\"join\",\"channel_name\":\"mychan\"}\n"
    );
    let cmd = client_join_request(&"x".to_string());
    assert!(matches!(handle_json_command(cmd.as_bytes()), JsonCommand::Join(ref c) if c == "x"));
}

#[test]
fn command_line_modes() {
    let e = MainArgs::from_options(String::new(), String::new(), Vec::new());
    assert!(matches!(e, Err(ArgsError::NoArguments)));
    let a = MainArgs::from_options("bot".to_string(), "/tmp/token".to_string(), Vec::new()).unwrap();
    assert!(a.is_server);
    let e = MainArgs::from_options("bot".to_string(), String::new(), Vec::new());
    assert!(matches!(e, Err(ArgsError::MissingServerArgs)));
    let a = MainArgs::from_options(String::new(), String::new(), vec!["chan".to_string()]).unwrap();
    assert!(!a.is_server);
    assert_eq!(a.join_channels, vec!["chan".to_string()]);
}

#[test]
fn joins_after_connecting() {
    let chans = vec!["a".to_string(), "B".to_string()];
    let first = channels_to_join(true, &chans);
    assert_eq!(first.len(), 2);
    assert!(matches!(first[1], JoinCmd::Join(ref c) if c == "B"));
    let again = channels_to_join(false, &chans);
    assert_eq!(again.len(), 1);
    assert!(matches!(again[0], JoinCmd::JoinAll));
}
