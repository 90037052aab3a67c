//! The decisions of the connection to the Twitch IRC server: what to send on
//! login, what to join after each (re)connection, and what to do with what
//! the server sends.

use vstd::prelude::*;
use vstd::utf8::encode_utf8;
use crate::text::{unicode_lowercase, to_unicode_lowercase};
use crate::channels::JoinCmd;

verus! {

/// The first byte of a `PING` from the server.
pub const PING_MARK: u8 = 80u8;
/// The first byte of a message that tells the client to disconnect.
pub const DISCONNECT_MARK: u8 = 68u8;

/// What to do with bytes read from the IRC server.
#[derive(Debug, PartialEq, Eq)]
pub enum IrcInput {
    /// Answer with `PONG :tmi.twitch.tv`.
    Ping,
    /// Drop the connection and reconnect.
    Disconnect,
    /// Hand the bytes on to the JSON translation.
    Forward,
}

/// What bytes `buf` from the server ask for, by their first byte.
pub open spec fn irc_input_kind(buf: Seq<u8>) -> IrcInput {
    if buf[0] == PING_MARK {
        IrcInput::Ping
    } else if buf[0] == DISCONNECT_MARK {
        IrcInput::Disconnect
    } else {
        IrcInput::Forward
    }
}

/// Classifies one non-empty read from the server (see `irc_input_kind`).
pub fn classify_irc_input(buf: &[u8]) -> (kind: IrcInput)
    requires
        buf@.len() > 0,
    ensures
        kind == irc_input_kind(buf@),
{
    let c = buf[0];
    if c == PING_MARK {
        IrcInput::Ping
    } else if c == DISCONNECT_MARK {
        IrcInput::Disconnect
    } else {
        IrcInput::Forward
    }
}

/// The answer to a `PING`: the bytes of `PONG :tmi.twitch.tv\r\n`.
pub fn pong_message() -> (msg: Vec<u8>)
    ensures
        msg@ == encode_utf8("PONG :tmi.twitch.tv\r\n"@),
{
    "PONG :tmi.twitch.tv\r\n".as_bytes_vec()
}

/// The login text: the OAuth token, the nick in lower case, and the requests
/// for the tags and commands capabilities.
pub open spec fn login_text(oauth: Seq<char>, name: Seq<char>) -> Seq<char> {
    "PASS "@ + oauth + "\r\nNICK "@ + unicode_lowercase(name)
        + "\r\nCAP REQ :twitch.tv/tags\r\nCAP REQ :twitch.tv/commands\r\n"@
}

/// The text sent to the IRC server right after connecting (see `login_text`).
pub fn login_message(oauth: &String, name: &String) -> (msg: String)
    ensures
        msg@ == login_text(oauth@, name@),
{
    let nick = to_unicode_lowercase(name.as_str());
    let mut msg = String::new();
    msg.append("PASS ");
    msg.append(oauth.as_str());
    msg.append("\r\nNICK ");
    msg.append(nick.as_str());
    msg.append("\r\nCAP REQ :twitch.tv/tags\r\nCAP REQ :twitch.tv/commands\r\n");
    msg
}

/// The requests to the channel list after a connection is made: on the first
/// connection, a join of each channel named on the command line, in order;
/// after a reconnection, a join of all the channels of the list.
pub fn channels_to_join(first_connection: bool, channels: &Vec<String>) -> (cmds: Vec<JoinCmd>)
    ensures
        first_connection ==> cmds@.len() == channels@.len() && forall|k: int|
            0 <= k < channels@.len() ==> (#[trigger] cmds@[k] matches JoinCmd::Join(c) && c@
                == channels@[k]@),
        !first_connection ==> cmds@.len() == 1 && cmds@[0] is JoinAll,
{
    let mut cmds: Vec<JoinCmd> = Vec::new();
    if first_connection {
        let mut k: usize = 0;
        while k < channels.len()
            invariant
                k <= channels@.len(),
                cmds@.len() == k,
                forall|j: int|
                    0 <= j < k ==> (#[trigger] cmds@[j] matches JoinCmd::Join(c) && c@
                        == channels@[j]@),
            decreases channels@.len() - k,
        {
            cmds.push(JoinCmd::Join(channels[k].clone()));
            k = k + 1;
        }
    } else {
        cmds.push(JoinCmd::JoinAll);
    }
    cmds
}

/// How a read from the server is answered, by its first byte alone: with a
/// `PONG` exactly when it starts with `P`, by dropping the connection exactly
/// when it starts with `D`, and by handing it on to the translation in every
/// other case, whatever the rest of the read holds.
pub proof fn lemma_irc_input_by_first_byte(buf: Seq<u8>, other: Seq<u8>)
    requires
        buf.len() > 0,
        other.len() > 0,
    ensures
        irc_input_kind(buf) is Ping <==> buf[0] == 80u8,
        irc_input_kind(buf) is Disconnect <==> buf[0] == 68u8,
        irc_input_kind(buf) is Forward <==> (buf[0] != 80u8 && buf[0] != 68u8),
        buf[0] == other[0] ==> irc_input_kind(buf) == irc_input_kind(other),
{
}

} // verus!
