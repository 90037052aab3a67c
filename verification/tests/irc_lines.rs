use twitch_chatbot::irc::{irc_line_parses, parse_irc_to_json, translate_irc_chunk};
use twitch_chatbot::lines::LineBuffer;
use twitch_chatbot::session::{classify_irc_input, login_message, pong_message, IrcInput};
use twitch_chatbot::text::u8_to_str;

#[test]
fn test_split_irc_line() {
    let mut buffer = LineBuffer::new();
    let part1 = b"@badge-info=subscriber/3;metadata=test; :user!user@user.tmi.twitch.tv PRIV";
    let part2 = b"MSG #channel :words go here\r\n";
    let json1 = "{\"badge_info\":\"subscriber/3\",\"metadata\":\"test\",\"irc_account\":\"user\",\"irc_msg_type\":\"PRIVMSG\",\"irc_channel\":\"channel\",\"irc_msg\":\"words go here\"}\n";

    let (first, ok) = translate_irc_chunk(&mut buffer, part1.to_vec());
    assert!(ok);
    assert!(first.is_empty());
    let (second, ok) = translate_irc_chunk(&mut buffer, part2.to_vec());
    assert!(ok);
    assert_eq!(second.len(), 1);
    assert_eq!(u8_to_str(&second[0][0..second[0].len()]), json1);
}

#[test]
fn test_split_irc_line_multi_message() {
    let mut buffer = LineBuffer::new();
    let part1 = b"@badge-info=subscriber/3;metadata=test; :user!user@user.tmi.twitch.tv PRIVMSG #channel :words go her";
    let part2 = b"e\r\n@badge-info=subscriber/1;metadata=test2; :user2!user2@user2.tmi.twitch.tv PRIVMSG #chan :example message\r\n";
    let json1 = "{\"badge_info\":\"subscriber/3\",\"metadata\":\"test\",\"irc_account\":\"user\",\"irc_msg_type\":\"PRIVMSG\",\"irc_channel\":\"channel\",\"irc_msg\":\"words go here\"}\n";
    let json2 = "{\"badge_info\":\"subscriber/1\",\"metadata\":\"test2\",\"irc_account\":\"user2\",\"irc_msg_type\":\"PRIVMSG\",\"irc_channel\":\"chan\",\"irc_msg\":\"example message\"}\n";

    let (first, ok) = translate_irc_chunk(&mut buffer, part1.to_vec());
    assert!(ok);
    assert!(first.is_empty());
    let (records, ok) = translate_irc_chunk(&mut buffer, part2.to_vec());
    assert!(ok);
    assert_eq!(records.len(), 2);
    assert_eq!(u8_to_str(&records[0][0..records[0].len()]), json1);
    assert_eq!(u8_to_str(&records[1][0..records[1].len()]), json2);
}

#[test]
fn line_buffer_keeps_partial_line() {
    let mut buffer = LineBuffer::new();
    let lines = buffer.push_chunk(b"abc".to_vec());
    assert!(lines.is_empty());
    let lines = buffer.push_chunk(b"d\nef\ng".to_vec());
    assert_eq!(lines, vec![b"abcd\n".to_vec(), b"ef\n".to_vec()]);
    let lines = buffer.push_chunk(b"\n".to_vec());
    assert_eq!(lines, vec![b"g\n".to_vec()]);
    let lines = buffer.push_chunk(Vec::new());
    assert!(lines.is_empty());
}

#[test]
fn line_buffer_single_complete_line() {
    let mut buffer = LineBuffer::new();
    let lines = buffer.push_chunk(b"one line\n".to_vec());
    assert_eq!(lines, vec![b"one line\n".to_vec()]);
    let lines = buffer.push_chunk(b"\n\n".to_vec());
    assert_eq!(lines, vec![b"\n".to_vec(), b"\n".to_vec()]);
}

#[test]
fn line_buffer_chunking_does_not_matter() {
    let stream = b"a\nbc\n\nd\nef".to_vec();
    let mut whole = LineBuffer::new();
    let all_at_once = whole.push_chunk(stream.clone());
    for cut in 0..=stream.len() {
        let mut parts = LineBuffer::new();
        let mut lines = parts.push_chunk(stream[..cut].to_vec());
        lines.extend(parts.push_chunk(stream[cut..].to_vec()));
        assert_eq!(lines, all_at_once);
        let rest = parts.push_chunk(b"\n".to_vec());
        assert_eq!(rest, vec![b"ef\n".to_vec()]);
    }
}

#[test]
fn parse_emote() {
    let line = b"@color=#FF0000; :bob!bob@bob.tmi.twitch.tv PRIVMSG #room :\x01ACTION waves\x01\r\n";
    assert!(irc_line_parses(line));
    let json = parse_irc_to_json(&mut line.to_vec());
    assert_eq!(
        String::from_utf8(json).unwrap(),
        "{\"color\":\"#FF0000\",\"irc_account\":\"bob\",\"irc_msg_type\":\"PRIVMSG\",\"irc_channel\":\"room\",\"irc_emote\":\"waves\"}\n"
    );
}

#[test]
fn parse_without_tags_or_sender() {
    let line = b":tmi.twitch.tv 001 nick :Welcome, GLHF!\r\n";
    assert!(irc_line_parses(line));
    let json = parse_irc_to_json(&mut line.to_vec());
    assert_eq!(String::from_utf8(json).unwrap(), "{\"irc_account\":\"Welcome, GLHF\"}\n");

    let empty: &[u8] = b"";
    assert!(irc_line_parses(empty));
    assert_eq!(parse_irc_to_json(&mut empty.to_vec()), b"{}\n".to_vec());
}

#[test]
fn parse_escapes_and_duplicate_keys() {
    // The backslash hides the space after it; a tag named like a later entry keeps its place and takes the later value.
    let line = b"@a-b=x\\ y;irc-channel=zz; :u!u@u PRIVMSG #c :hi\r\n";
    assert!(irc_line_parses(line));
    let json = parse_irc_to_json(&mut line.to_vec());
    assert_eq!(
        String::from_utf8(json).unwrap(),
        "{\"a_b\":\"x\\\\ y\",\"irc_channel\":\"c\",\"irc_account\":\"u\",\"irc_msg_type\":\"PRIVMSG\",\"irc_msg\":\"hi\"}\n"
    );
}

#[test]
fn parse_lossy_text() {
    let line = b"@k=\xff; :u!u@u PRIVMSG #c :x\r\n";
    let json = parse_irc_to_json(&mut line.to_vec());
    assert_eq!(
        String::from_utf8(json).unwrap(),
        "{\"k\":\"\u{fffd}\",\"irc_account\":\"u\",\"irc_msg_type\":\"PRIVMSG\",\"irc_channel\":\"c\",\"irc_msg\":\"x\"}\n"
    );
}

#[test]
fn lines_that_cannot_be_parsed() {
    // A second `;` after a pair without a new `=`.
    assert!(!irc_line_parses(b"@a=b;c; :u!u@u PRIVMSG #c :hi\r\n"));
    // Two spaces in a row before the channel.
    assert!(!irc_line_parses(b"@a=b; :u!u@u PRIVMSG  #c :hi\r\n"));
    // A message shorter than its line ending.
    assert!(!irc_line_parses(b"@a=b; :u!u@u PRIVMSG #c :x"));
    let mut buffer = LineBuffer::new();
    let (records, ok) =
        translate_irc_chunk(&mut buffer, b"@a=b; :u!u PRIVMSG #c :ok\r\n@a=b;c;\n@z=1;\n".to_vec());
    assert!(!ok);
    assert_eq!(records.len(), 1);
}

#[test]
fn classify_server_input() {
    assert_eq!(classify_irc_input(b"PING :tmi.twitch.tv\r\n"), IrcInput::Ping);
    assert_eq!(classify_irc_input(b"DISCONNECT"), IrcInput::Disconnect);
    assert_eq!(classify_irc_input(b"@badge=1; :a!a PRIVMSG #c :m\r\n"), IrcInput::Forward);
    assert_eq!(pong_message(), b"PONG :tmi.twitch.tv\r\n".to_vec());
}

#[test]
fn login_lowercases_nick() {
    let msg = login_message(&"oauth:abc".to_string(), &"MyBot".to_string());
    assert_eq!(
        msg,
        "PASS oauth:abc\r\nNICK mybot\r\nCAP REQ :twitch.tv/tags\r\nCAP REQ :twitch.tv/commands\r\n"
    );
}

#[test]
fn utf8_text() {
    assert_eq!(u8_to_str(b"hello"), "hello");
    assert_eq!(u8_to_str(b"a\xffb"), "a\u{fffd}b");
}

#[test]
fn account_read_after_key_rewrite() {
    // Without a `:` before the `!`, the sender runs from the line's start and
    // carries the tag keys as rewritten.
    let mut line = b"@a-b=1; x!y PRIVMSG #c :m\r\n".to_vec();
    let json = parse_irc_to_json(&mut line);
    assert_eq!(
        String::from_utf8(json).unwrap(),
        "{\"a_b\":\"1\",\"irc_account\":\"@a_b=1; x\",\"irc_msg_type\":\"PRIVMSG\",\"irc_channel\":\"c\",\"irc_msg\":\"m\"}\n"
    );
    assert_eq!(line, b"@a_b=1; x!y PRIVMSG #c :m\r\n".to_vec());
}

#[test]
fn keys_rewritten_in_place_only() {
    // Dashes in values and after the tags stay; dashes in keys become underscores.
    let mut line = b"@badge-info=a-b;x-y=1; :u-v!u@u PRIVMSG #c-d :e-f\r\n".to_vec();
    let json = parse_irc_to_json(&mut line);
    assert_eq!(line, b"@badge_info=a-b;x_y=1; :u-v!u@u PRIVMSG #c-d :e-f\r\n".to_vec());
    assert_eq!(
        String::from_utf8(json).unwrap(),
        "{\"badge_info\":\"a-b\",\"x_y\":\"1\",\"irc_account\":\"u-v\",\"irc_msg_type\":\"PRIVMSG\",\"irc_channel\":\"c-d\",\"irc_msg\":\"e-f\"}\n"
    );
}

#[test]
fn records_independent_of_chunking() {
    let stream = b"@a=1; :u!u PRIVMSG #c :one\r\n@b-c=2; :v!v PRIVMSG #d :two\r\n".to_vec();
    let mut whole = LineBuffer::new();
    let (expected, ok) = translate_irc_chunk(&mut whole, stream.clone());
    assert!(ok);
    assert_eq!(expected.len(), 2);
    for cut in 0..=stream.len() {
        let mut parts = LineBuffer::new();
        let (mut records, ok1) = translate_irc_chunk(&mut parts, stream[..cut].to_vec());
        let (more, ok2) = translate_irc_chunk(&mut parts, stream[cut..].to_vec());
        assert!(ok1 && ok2);
        records.extend(more);
        assert_eq!(records, expected);
    }
}

#[test]
fn records_frame_back_into_lines() {
    // A tag value holding a carriage return and a control byte still makes a one-line record.
    let stream = b"@k=a\rb\x02c; :u!u PRIVMSG #c :one\r\n@z=1; :v!v PRIVMSG #d :two\r\n".to_vec();
    let mut buffer = LineBuffer::new();
    let (records, ok) = translate_irc_chunk(&mut buffer, stream);
    assert!(ok);
    assert_eq!(records.len(), 2);
    for r in &records {
        assert_eq!(r.iter().filter(|b| **b == b'\n').count(), 1);
        assert_eq!(*r.last().unwrap(), b'\n');
        assert!(String::from_utf8(r.clone()).is_ok());
    }
    let mut client = LineBuffer::new();
    let framed = client.push_chunk(records.concat());
    assert_eq!(framed, records);
}
