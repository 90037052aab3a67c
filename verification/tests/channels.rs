use std::collections::HashSet;
use twitch_chatbot::channels::{join_leave_message, ChannelList, JoinCmd};

fn text(bytes: &[Vec<u8>]) -> Vec<String> {
    bytes.iter().map(|b| String::from_utf8(b.clone()).unwrap()).collect()
}

#[test]
fn test_join_all() {
    let mut list = ChannelList::new();
    let mut v = Vec::new();
    for name in ["Example", "user", "CHAN123"] {
        let out = list.handle(JoinCmd::Join(name.to_string()));
        v.extend(text(&out.irc));
    }
    assert_eq!(v[0], "JOIN #example\r\n");
    assert_eq!(v[1], "JOIN #user\r\n");
    assert_eq!(v[2], "JOIN #chan123\r\n");
    assert_eq!(v.len(), 3);

    let out = list.handle(JoinCmd::JoinAll);
    let set1: HashSet<String> = v.into_iter().collect();
    let set2: HashSet<String> = text(&out.irc).into_iter().collect();
    assert_eq!(set1, set2);
    assert_eq!(out.irc.len(), 3);
    assert_eq!(out.stdout, "join #example\njoin #user\njoin #chan123\n");
}

#[test]
fn join_prints_and_sends_once() {
    let mut list = ChannelList::new();
    let out = list.handle(JoinCmd::Join("Room".to_string()));
    assert_eq!(out.stdout, "join #room\n");
    assert_eq!(text(&out.irc), vec!["JOIN #room\r\n".to_string()]);
    let again = list.handle(JoinCmd::Join("ROOM".to_string()));
    assert_eq!(again.stdout, "");
    assert!(again.irc.is_empty());
}

#[test]
fn leave_after_join() {
    let mut list = ChannelList::new();
    list.handle(JoinCmd::Join("a".to_string()));
    list.handle(JoinCmd::Join("b".to_string()));
    let out = list.handle(JoinCmd::Leave("A".to_string()));
    assert_eq!(out.stdout, "leave #a\n");
    assert_eq!(text(&out.irc), vec!["PART #a\r\n".to_string()]);
    let out = list.handle(JoinCmd::Leave("a".to_string()));
    assert_eq!(out.stdout, "");
    assert!(out.irc.is_empty());
    let out = list.handle(JoinCmd::JoinAll);
    assert_eq!(text(&out.irc), vec!["JOIN #b\r\n".to_string()]);
}

#[test]
fn join_all_on_empty_list() {
    let mut list = ChannelList::new();
    let out = list.handle(JoinCmd::JoinAll);
    assert_eq!(out.stdout, "");
    assert!(out.irc.is_empty());
}

#[test]
fn non_ascii_names_keep_their_case() {
    let mut list = ChannelList::new();
    let out = list.handle(JoinCmd::Join("ÄBc".to_string()));
    assert_eq!(out.stdout, "join #Äbc\n");
    assert_eq!(join_leave_message("PART", &"Äbc".to_string()), "PART #Äbc\r\n".as_bytes().to_vec());
}

#[test]
fn join_all_replays_last_joins() {
    let mut list = ChannelList::new();
    let requests = vec![
        JoinCmd::Join("A".to_string()),
        JoinCmd::Join("b".to_string()),
        JoinCmd::Leave("a".to_string()),
        JoinCmd::Join("c".to_string()),
        JoinCmd::Join("a".to_string()),
        JoinCmd::Leave("C".to_string()),
        JoinCmd::Leave("zz".to_string()),
    ];
    for r in requests {
        list.handle(r);
    }
    let out = list.handle(JoinCmd::JoinAll);
    assert_eq!(text(&out.irc), vec!["JOIN #b\r\n".to_string(), "JOIN #a\r\n".to_string()]);
    assert_eq!(out.stdout, "join #b\njoin #a\n");
}
