//! The JSON commands that local clients send to the relay, and the one that
//! the command-line client writes.

use vstd::prelude::*;
use vstd::utf8::encode_utf8;
use crate::text::{utf8_lossy, u8_to_str, opt_text};
use crate::json_doc::{json_member_string, json_string_member};
use crate::lines::{LineBuffer, split_lines, byte_views, NEWLINE, concat_chunks, chunked_lines, lemma_lines_independent_of_chunking};

verus! {

/// What the relay does with one client command.
#[derive(Debug)]
pub enum JsonCommand {
    /// Ask the channel list to join a channel.
    Join(String),
    /// Ask the channel list to leave a channel.
    Leave(String),
    /// Send these bytes (a `PRIVMSG`) to the IRC server.
    Chat(Vec<u8>),
    /// Nothing: the command is not JSON, or not one of the above.
    Ignore,
}

/// The bytes of `PRIVMSG #channel :msg\r\n`.
pub open spec fn chat_command(channel: Seq<char>, msg: Seq<char>) -> Seq<u8> {
    encode_utf8("PRIVMSG #"@ + channel + " :"@ + msg + "\r\n"@)
}

/// `cmd` is what a command whose `json_meta_type`, `channel_name` and `msg`
/// members are the strings `kind`, `channel` and `msg` (`None`: missing, not
/// a string, or no JSON at all) asks for: `join` and `leave` with a channel
/// name, `chat` with a channel name and a message; anything else is ignored.
pub open spec fn command_is(
    cmd: JsonCommand,
    kind: Option<Seq<char>>,
    channel: Option<Seq<char>>,
    msg: Option<Seq<char>>,
) -> bool {
    if kind == Some("join"@) && channel is Some {
        cmd matches JsonCommand::Join(c) && c@ == channel.unwrap()
    } else if kind == Some("leave"@) && channel is Some {
        cmd matches JsonCommand::Leave(c) && c@ == channel.unwrap()
    } else if kind == Some("chat"@) && channel is Some && msg is Some {
        cmd matches JsonCommand::Chat(b) && b@ == chat_command(channel.unwrap(), msg.unwrap())
    } else {
        cmd is Ignore
    }
}

/// Whether `s` is the text `lit`.
fn same_text(s: &String, lit: &str) -> (same: bool)
    ensures
        same == (s@ == lit@),
{
    let other = lit.to_owned();
    *s == other
}

/// Decides a client command from its `json_meta_type`, `channel_name` and
/// `msg` members (see `command_is`).
pub fn json_command_from_members(kind: Option<String>, channel: Option<String>, msg: Option<String>) -> (cmd: JsonCommand)
    ensures
        command_is(cmd, opt_text(kind), opt_text(channel), opt_text(msg)),
{
    match (kind, channel) {
        (Some(k), Some(c)) => {
            if same_text(&k, "join") {
                JsonCommand::Join(c)
            } else if same_text(&k, "leave") {
                JsonCommand::Leave(c)
            } else if same_text(&k, "chat") {
                match msg {
                    Some(m) => {
                        let mut line = String::new();
                        line.append("PRIVMSG #");
                        line.append(c.as_str());
                        line.append(" :");
                        line.append(m.as_str());
                        line.append("\r\n");
                        JsonCommand::Chat(line.as_str().as_bytes_vec())
                    },
                    None => JsonCommand::Ignore,
                }
            } else {
                JsonCommand::Ignore
            }
        },
        _ => JsonCommand::Ignore,
    }
}

/// Reads one line that a client sent (a JSON object, its newline included)
/// and decides what it asks for. The bytes are read as UTF-8 (ill-formed
/// sequences replaced) and parsed by the `json` crate.
pub fn handle_json_command(v: &[u8]) -> (cmd: JsonCommand)
    ensures
        command_is(
            cmd,
            json_member_string(utf8_lossy(v@), "json_meta_type"@),
            json_member_string(utf8_lossy(v@), "channel_name"@),
            json_member_string(utf8_lossy(v@), "msg"@),
        ),
{
    let text = u8_to_str(v);
    let kind = json_string_member(text.as_str(), "json_meta_type");
    let channel = json_string_member(text.as_str(), "channel_name");
    let msg = json_string_member(text.as_str(), "msg");
    json_command_from_members(kind, channel, msg)
}

/// The text of `{"json_meta_type":"join","channel_name":"<channel>"}` and a
/// newline: the command that asks a running relay to join `channel`. The name
/// is written as it is, without JSON escaping.
pub fn client_join_request(channel: &String) -> (request: String)
    ensures
        request@ == "{\"json_meta_type\":\"join\",\"channel_name\":\""@ + channel@ + "\"}\n"@,
{
    let mut request = String::new();
    request.append("{\"json_meta_type\":\"join\",\"channel_name\":\"");
    request.append(channel.as_str());
    request.append("\"}\n");
    request
}

/// `cmd` is what the client line `line` asks for (see `handle_json_command`).
pub open spec fn line_command_is(cmd: JsonCommand, line: Seq<u8>) -> bool {
    command_is(
        cmd,
        json_member_string(utf8_lossy(line), "json_meta_type"@),
        json_member_string(utf8_lossy(line), "channel_name"@),
        json_member_string(utf8_lossy(line), "msg"@),
    )
}

/// Takes the next chunk of the stream from a client and decides, in order,
/// the command of each line it completes.
pub fn client_commands_from_chunk(buffer: &mut LineBuffer, chunk: Vec<u8>) -> (cmds: Vec<JsonCommand>)
    ensures
        final(buffer)@ == split_lines(old(buffer)@ + chunk@).1,
        cmds@.len() == split_lines(old(buffer)@ + chunk@).0.len(),
        forall|k: int| 0 <= k < cmds@.len() ==> line_command_is(#[trigger] cmds@[k], split_lines(old(buffer)@ + chunk@).0[k]),
{
    let ghost total = old(buffer)@ + chunk@;
    let lines = buffer.push_chunk(chunk);
    let ghost views = byte_views(lines@);
    let mut cmds: Vec<JsonCommand> = Vec::new();
    let mut k: usize = 0;
    while k < lines.len()
        invariant
            k <= lines@.len(),
            views == byte_views(lines@),
            total == old(buffer)@ + chunk@,
            views == split_lines(total).0,
            buffer@ == split_lines(total).1,
            cmds@.len() == k,
            forall|j: int| 0 <= j < k ==> line_command_is(#[trigger] cmds@[j], views[j]),
        decreases lines@.len() - k,
    {
        let line = lines[k].as_slice();
        assert(line@ == views[k as int]);
        cmds.push(handle_json_command(line));
        k = k + 1;
    }
    cmds
}

/// Two commands ask for the same thing: the same variant, with the same
/// channel name, or the same bytes to send.
pub open spec fn same_command(a: JsonCommand, b: JsonCommand) -> bool {
    match (a, b) {
        (JsonCommand::Join(x), JsonCommand::Join(y)) => x@ == y@,
        (JsonCommand::Leave(x), JsonCommand::Leave(y)) => x@ == y@,
        (JsonCommand::Chat(x), JsonCommand::Chat(y)) => x@ == y@,
        (JsonCommand::Ignore, JsonCommand::Ignore) => true,
        _ => false,
    }
}

/// A client line asks for one thing only: any two commands decided from it
/// are the same.
pub proof fn lemma_line_command_unique(a: JsonCommand, b: JsonCommand, line: Seq<u8>)
    requires
        line_command_is(a, line),
        line_command_is(b, line),
    ensures
        same_command(a, b),
{
}

/// `cmds` are the commands of `lines`, one for each, in order.
pub open spec fn commands_of_lines(cmds: Seq<JsonCommand>, lines: Seq<Seq<u8>>) -> bool {
    &&& cmds.len() == lines.len()
    &&& forall|k: int| 0 <= k < cmds.len() ==> line_command_is(#[trigger] cmds[k], lines[k])
}

/// How a client's bytes are cut into reads does not change the commands the
/// relay carries out: for two chunkings of the same bytes, the commands
/// decided line by line are the same, one for one.
pub proof fn lemma_commands_independent_of_chunking(
    pending: Seq<u8>,
    chunks: Seq<Seq<u8>>,
    other: Seq<Seq<u8>>,
    cmds: Seq<JsonCommand>,
    other_cmds: Seq<JsonCommand>,
)
    requires
        !pending.contains(NEWLINE),
        concat_chunks(chunks) == concat_chunks(other),
        commands_of_lines(cmds, chunked_lines(pending, chunks)),
        commands_of_lines(other_cmds, chunked_lines(pending, other)),
    ensures
        cmds.len() == other_cmds.len(),
        forall|k: int| 0 <= k < cmds.len() ==> same_command(#[trigger] cmds[k], other_cmds[k]),
{
    lemma_lines_independent_of_chunking(pending, chunks, other);
    let lines = chunked_lines(pending, chunks);
    assert forall|k: int| 0 <= k < cmds.len() implies same_command(#[trigger] cmds[k], other_cmds[k]) by {
        assert(line_command_is(cmds[k], lines[k]));
        assert(line_command_is(other_cmds[k], lines[k]));
        lemma_line_command_unique(cmds[k], other_cmds[k], lines[k]);
    }
}

/// The three command names are different texts.
proof fn lemma_command_names_differ()
    ensures
        "join"@ != "leave"@,
        "join"@ != "chat"@,
        "leave"@ != "chat"@,
{
    reveal_strlit("join");
    reveal_strlit("leave");
    reveal_strlit("chat");
    assert("join"@.len() != "leave"@.len());
    assert("join"@[0] != "chat"@[0]);
    assert("leave"@.len() != "chat"@.len());
}

/// A chat command is sent for every message: whenever the kind is `chat` and
/// the channel and message are strings, the command sends
/// `PRIVMSG #channel :msg\r\n` as UTF-8, whatever characters the channel and
/// the message hold.
pub proof fn lemma_chat_sends_privmsg(cmd: JsonCommand, channel: Seq<char>, msg: Seq<char>)
    requires
        command_is(cmd, Some("chat"@), Some(channel), Some(msg)),
    ensures
        cmd matches JsonCommand::Chat(bytes) && bytes@ == encode_utf8(
            "PRIVMSG #"@ + channel + " :"@ + msg + "\r\n"@,
        ),
{
    lemma_command_names_differ();
}

/// A join or leave command names the channel it was given, whatever the
/// message member holds: `join` with a string channel is `Join` of it, and
/// `leave` with a string channel is `Leave` of it.
pub proof fn lemma_join_leave_name_channel(cmd: JsonCommand, channel: Seq<char>, msg: Option<Seq<char>>)
    ensures
        command_is(cmd, Some("join"@), Some(channel), msg) ==> (cmd matches JsonCommand::Join(c)
            && c@ == channel),
        command_is(cmd, Some("leave"@), Some(channel), msg) ==> (cmd matches JsonCommand::Leave(c)
            && c@ == channel),
{
    lemma_command_names_differ();
}

/// Only the three kinds ask for anything: a command whose kind is missing,
/// or not `join`, `leave` or `chat`, or whose channel is missing, is ignored.
pub proof fn lemma_other_commands_ignored(
    cmd: JsonCommand,
    kind: Option<Seq<char>>,
    channel: Option<Seq<char>>,
    msg: Option<Seq<char>>,
)
    requires
        command_is(cmd, kind, channel, msg),
        channel is None || (kind != Some("join"@) && kind != Some("leave"@) && kind != Some("chat"@)),
    ensures
        cmd is Ignore,
{
}

} // verus!
