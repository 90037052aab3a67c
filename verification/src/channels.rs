//! The set of channels that the relay keeps joined, and what it sends to the
//! IRC server and prints when asked to join or leave one.

use vstd::prelude::*;
use vstd::utf8::encode_utf8;
use crate::text::{ascii_lower, ascii_lowercase, to_ascii_lowercase};

verus! {

/// A request to the channel list.
#[derive(Debug)]
pub enum JoinCmd {
    /// Join again every channel of the list (after a reconnection).
    JoinAll,
    /// Join a channel, named without its `#`.
    Join(String),
    /// Leave a channel, named without its `#`.
    Leave(String),
}

/// The bytes of the IRC command `cmd #channel\r\n`.
pub open spec fn irc_channel_command(cmd: Seq<char>, channel: Seq<char>) -> Seq<u8> {
    encode_utf8(cmd + " #"@ + channel + "\r\n"@)
}

/// The line printed when a channel is joined.
pub open spec fn join_notice(channel: Seq<char>) -> Seq<char> {
    "join #"@ + channel + "\n"@
}

/// The line printed when a channel is left.
pub open spec fn leave_notice(channel: Seq<char>) -> Seq<char> {
    "leave #"@ + channel + "\n"@
}

/// The join lines of all of `channels`, one after another.
pub open spec fn join_notices(channels: Seq<Seq<char>>) -> Seq<char>
    decreases channels.len(),
{
    if channels.len() == 0 {
        Seq::empty()
    } else {
        join_notices(channels.drop_last()) + join_notice(channels.last())
    }
}

/// A `JOIN` command for each of `channels`, in order.
pub open spec fn join_commands(channels: Seq<Seq<char>>) -> Seq<Seq<u8>> {
    channels.map_values(|c: Seq<char>| irc_channel_command("JOIN"@, c))
}

/// A channel name as the list keeps it.
pub open spec fn is_lowercase(channel: Seq<char>) -> bool {
    ascii_lowercase(channel) == channel
}

/// Every name of the list is in ASCII lower case, and none occurs twice.
pub open spec fn channels_wf(channels: Seq<Seq<char>>) -> bool {
    &&& channels.no_duplicates()
    &&& forall|k: int| 0 <= k < channels.len() ==> is_lowercase(#[trigger] channels[k])
}

/// The bytes of `cmd #name\r\n`.
pub fn join_leave_message(cmd: &str, name: &String) -> (msg: Vec<u8>)
    ensures
        msg@ == irc_channel_command(cmd@, name@),
{
    let mut text = String::new();
    text.append(cmd);
    text.append(" #");
    text.append(name.as_str());
    text.append("\r\n");
    text.as_str().as_bytes_vec()
}

/// The command that joins channel `name`.
pub fn join_message(name: &String) -> (msg: Vec<u8>)
    ensures
        msg@ == irc_channel_command("JOIN"@, name@),
{
    join_leave_message("JOIN", name)
}

/// The command that leaves channel `name`.
pub fn leave_message(name: &String) -> (msg: Vec<u8>)
    ensures
        msg@ == irc_channel_command("PART"@, name@),
{
    join_leave_message("PART", name)
}

/// What the channel list does in answer to a request: the text to print
/// (empty: nothing), and the commands to send to the IRC server, in order.
pub struct ChannelActions {
    pub stdout: String,
    pub irc: Vec<Vec<u8>>,
}

/// What the channel list `list` becomes in answer to `cmd`, what it prints,
/// and the commands it sends.
pub open spec fn channel_step(list: Seq<Seq<char>>, cmd: JoinCmd) -> (Seq<Seq<char>>, Seq<char>, Seq<Seq<u8>>) {
    match cmd {
        JoinCmd::JoinAll => (list, join_notices(list), join_commands(list)),
        JoinCmd::Join(name) => {
            let channel = ascii_lowercase(name@);
            if list.contains(channel) {
                (list, Seq::empty(), Seq::empty())
            } else {
                (list.push(channel), join_notice(channel), seq![irc_channel_command("JOIN"@, channel)])
            }
        },
        JoinCmd::Leave(name) => {
            let channel = ascii_lowercase(name@);
            if list.contains(channel) {
                (
                    list.remove(list.index_of(channel)),
                    leave_notice(channel),
                    seq![irc_channel_command("PART"@, channel)],
                )
            } else {
                (list, Seq::empty(), Seq::empty())
            }
        },
    }
}

/// The contents of each command of `cmds`.
pub open spec fn command_views(cmds: Seq<Vec<u8>>) -> Seq<Seq<u8>> {
    cmds.map_values(|c: Vec<u8>| c@)
}

/// The channels the relay has joined, in the order they were joined, each
/// named in ASCII lower case.
pub struct ChannelList {
    joined: Vec<String>,
}

impl View for ChannelList {
    type V = Seq<Seq<char>>;

    closed spec fn view(&self) -> Seq<Seq<char>> {
        self.joined@.map_values(|c: String| c@)
    }
}

impl ChannelList {
    #[verifier::type_invariant]
    closed spec fn wf(self) -> bool {
        channels_wf(self@)
    }

    /// An empty list.
    pub fn new() -> (list: ChannelList)
        ensures
            list@ == Seq::<Seq<char>>::empty(),
    {
        let list = ChannelList { joined: Vec::new() };
        assert(list@ =~= Seq::<Seq<char>>::empty());
        list
    }

    /// Where `channel` stands in the list, if it does.
    fn position(&self, channel: &String) -> (pos: Option<usize>)
        ensures
            pos is None <==> !self@.contains(channel@),
            pos matches Some(k) ==> k < self@.len() && self@[k as int] == channel@,
    {
        let mut k: usize = 0;
        while k < self.joined.len()
            invariant
                k <= self.joined@.len(),
                self@.len() == self.joined@.len(),
                forall|j: int| 0 <= j < k ==> self@[j] != channel@,
            decreases self.joined@.len() - k,
        {
            assert(self@[k as int] == self.joined@[k as int]@);
            if self.joined[k] == *channel {
                return Some(k);
            }
            k = k + 1;
        }
        proof {
            if self@.contains(channel@) {
                let j = choose|j: int| 0 <= j < self@.len() && self@[j] == channel@;
                assert(self@[j] != channel@);
            }
        }
        None
    }

    /// Answers one request.
    ///
    /// `JoinAll` sends a `JOIN` for every channel of the list, in order, and
    /// prints a join line for each; the list is unchanged. `Join(name)` lower
    /// cases the name (ASCII); where the list does not hold it yet, it prints
    /// a join line, adds the name at the end, and sends a `JOIN`; else it does
    /// nothing. `Leave(name)` lower cases the name; where the list holds it, it
    /// prints a leave line, takes the name out, and sends a `PART`; else it
    /// does nothing.
    pub fn handle(&mut self, cmd: JoinCmd) -> (out: ChannelActions)
        ensures
            channels_wf(final(self)@),
            final(self)@ == channel_step(old(self)@, cmd).0,
            out.stdout@ == channel_step(old(self)@, cmd).1,
            command_views(out.irc@) == channel_step(old(self)@, cmd).2,
    {
        proof {
            use_type_invariant(&*self);
        }
        match cmd {
            JoinCmd::JoinAll => {
                let mut stdout = String::new();
                let mut irc: Vec<Vec<u8>> = Vec::new();
                let mut k: usize = 0;
                while k < self.joined.len()
                    invariant
                        k <= self.joined@.len(),
                        self@.len() == self.joined@.len(),
                        stdout@ == join_notices(self@.take(k as int)),
                        command_views(irc@) == join_commands(self@.take(k as int)),
                    decreases self.joined@.len() - k,
                {
                    let channel = &self.joined[k];
                    assert(self@[k as int] == channel@);
                    stdout.append("join #");
                    stdout.append(channel.as_str());
                    stdout.append("\n");
                    let ghost before = irc@;
                    irc.push(join_message(channel));
                    proof {
                        assert(self@.take(k + 1).drop_last() =~= self@.take(k as int));
                        assert(command_views(irc@) =~= command_views(before).push(
                            irc_channel_command("JOIN"@, channel@),
                        ));
                        assert(join_commands(self@.take(k + 1)) =~= join_commands(
                            self@.take(k as int),
                        ).push(irc_channel_command("JOIN"@, channel@)));
                    }
                    k = k + 1;
                }
                assert(self@.take(k as int) =~= self@);
                ChannelActions { stdout, irc }
            },
            JoinCmd::Join(name) => {
                let channel = to_ascii_lowercase(name.as_str());
                match self.position(&channel) {
                    Some(_) => {
                        let out = ChannelActions { stdout: String::new(), irc: Vec::new() };
                        assert(command_views(out.irc@) =~= Seq::<Seq<u8>>::empty());
                        out
                    },
                    None => {
                        let mut stdout = String::new();
                        stdout.append("join #");
                        stdout.append(channel.as_str());
                        stdout.append("\n");
                        let msg = join_message(&channel);
                        proof {
                            lemma_ascii_lowercase_idempotent(name@);
                            assert(self@.push(channel@).no_duplicates()) by {
                                assert forall|a: int, b: int|
                                    0 <= a < b < self@.push(channel@).len() implies self@.push(
                                    channel@,
                                )[a] != self@.push(channel@)[b] by {
                                    if b == self@.len() {
                                        assert(self@.contains(self@[a]));
                                    }
                                }
                            }
                        }
                        let ghost before = self@;
                        let mut joined: Vec<String> = Vec::new();
                        std::mem::swap(&mut joined, &mut self.joined);
                        assert(joined@.map_values(|c: String| c@) == before);
                        joined.push(channel);
                        assert(joined@.map_values(|c: String| c@) =~= before.push(ascii_lowercase(name@)));
                        self.joined = joined;
                        assert(self@ =~= before.push(ascii_lowercase(name@)));
                        let mut irc: Vec<Vec<u8>> = Vec::new();
                        irc.push(msg);
                        assert(command_views(irc@) =~= seq![irc_channel_command("JOIN"@, ascii_lowercase(name@))]);
                        ChannelActions { stdout, irc }
                    },
                }
            },
            JoinCmd::Leave(name) => {
                let channel = to_ascii_lowercase(name.as_str());
                match self.position(&channel) {
                    None => {
                        let out = ChannelActions { stdout: String::new(), irc: Vec::new() };
                        assert(command_views(out.irc@) =~= Seq::<Seq<u8>>::empty());
                        out
                    },
                    Some(k) => {
                        let mut stdout = String::new();
                        stdout.append("leave #");
                        stdout.append(channel.as_str());
                        stdout.append("\n");
                        let msg = leave_message(&channel);
                        let ghost before = self@;
                        proof {
                            let i = before.index_of(channel@);
                            assert(0 <= i < before.len() && before[i] == channel@);
                            if i != k {
                                assert(before[i] == before[k as int]);
                            }
                            lemma_remove_keeps(before, k as int);
                        }
                        let mut joined: Vec<String> = Vec::new();
                        std::mem::swap(&mut joined, &mut self.joined);
                        assert(joined@.map_values(|c: String| c@) == before);
                        joined.remove(k);
                        assert(joined@.map_values(|c: String| c@) =~= before.remove(k as int));
                        self.joined = joined;
                        assert(self@ =~= before.remove(k as int));
                        let mut irc: Vec<Vec<u8>> = Vec::new();
                        irc.push(msg);
                        assert(command_views(irc@) =~= seq![irc_channel_command("PART"@, ascii_lowercase(name@))]);
                        ChannelActions { stdout, irc }
                    },
                }
            },
        }
    }
}

/// Lower casing a name twice is lower casing it once.
pub proof fn lemma_ascii_lowercase_idempotent(name: Seq<char>)
    ensures
        is_lowercase(ascii_lowercase(name)),
{
    assert(ascii_lowercase(ascii_lowercase(name)) =~= ascii_lowercase(name)) by {
        assert forall|k: int| 0 <= k < name.len() implies ascii_lower(ascii_lower(name[k])) == ascii_lower(
            name[k],
        ) by {
            let c = name[k];
            if 'A' <= c && c <= 'Z' {
                assert(((c as u32) + 32) as char == ascii_lower(c));
            }
        }
    }
}

/// Taking an element out of a list without duplicates leaves no duplicates,
/// and every element left was in the list.
proof fn lemma_remove_keeps(list: Seq<Seq<char>>, k: int)
    requires
        channels_wf(list),
        0 <= k < list.len(),
    ensures
        channels_wf(list.remove(k)),
        !list.remove(k).contains(list[k]),
        forall|j: int| 0 <= j < list.remove(k).len() ==> list.contains(#[trigger] list.remove(k)[j]),
{
    let r = list.remove(k);
    assert forall|j: int| 0 <= j < r.len() implies list.contains(#[trigger] r[j]) && r[j] != list[k]
        && is_lowercase(r[j]) by {
        if j < k {
            assert(r[j] == list[j]);
        } else {
            assert(r[j] == list[j + 1]);
        }
    }
    assert forall|a: int, b: int| 0 <= a < b < r.len() implies r[a] != r[b] by {
        let ia = if a < k { a } else { a + 1 };
        let ib = if b < k { b } else { b + 1 };
        assert(r[a] == list[ia] && r[b] == list[ib]);
    }
}

/// Every request keeps the list's invariant: names in ASCII lower case, none
/// twice.
pub proof fn lemma_step_keeps_wf(list: Seq<Seq<char>>, cmd: JoinCmd)
    requires
        channels_wf(list),
    ensures
        channels_wf(channel_step(list, cmd).0),
{
    match cmd {
        JoinCmd::JoinAll => {},
        JoinCmd::Join(name) => {
            let c = ascii_lowercase(name@);
            if !list.contains(c) {
                lemma_ascii_lowercase_idempotent(name@);
                assert forall|a: int, b: int| 0 <= a < b < list.push(c).len() implies list.push(c)[a]
                    != list.push(c)[b] by {
                    if b == list.len() {
                        assert(list.contains(list[a]));
                    }
                }
                assert forall|k: int| 0 <= k < list.push(c).len() implies is_lowercase(
                    #[trigger] list.push(c)[k],
                ) by {
                    if k < list.len() {
                        assert(list.push(c)[k] == list[k]);
                    }
                }
            }
        },
        JoinCmd::Leave(name) => {
            let c = ascii_lowercase(name@);
            if list.contains(c) {
                let i = list.index_of(c);
                lemma_remove_keeps(list, i);
            }
        },
    }
}

/// After a join the channel, lower cased, is in the list; after a leave it is
/// not.
pub proof fn lemma_join_leave_membership(list: Seq<Seq<char>>, name: String)
    requires
        channels_wf(list),
    ensures
        channel_step(list, JoinCmd::Join(name)).0.contains(ascii_lowercase(name@)),
        !channel_step(list, JoinCmd::Leave(name)).0.contains(ascii_lowercase(name@)),
{
    let c = ascii_lowercase(name@);
    if !list.contains(c) {
        assert(list.push(c)[list.len() as int] == c);
    } else {
        let i = list.index_of(c);
        lemma_remove_keeps(list, i);
    }
}

/// Joining a channel that is already joined, by any spelling that lower cases
/// to the same name, changes nothing, prints nothing and sends nothing.
pub proof fn lemma_join_twice(list: Seq<Seq<char>>, name: String, again: String)
    requires
        channels_wf(list),
        ascii_lowercase(again@) == ascii_lowercase(name@),
    ensures
        ({
            let after = channel_step(list, JoinCmd::Join(name)).0;
            channel_step(after, JoinCmd::Join(again)) == (after, Seq::<char>::empty(), Seq::<Seq<u8>>::empty())
        }),
{
    lemma_join_leave_membership(list, name);
}

/// Joining a channel that was not joined and then leaving it, by any spelling
/// that lower cases to the same name, gives back the list as it was.
pub proof fn lemma_join_then_leave(list: Seq<Seq<char>>, name: String, again: String)
    requires
        channels_wf(list),
        !list.contains(ascii_lowercase(name@)),
        ascii_lowercase(again@) == ascii_lowercase(name@),
    ensures
        channel_step(channel_step(list, JoinCmd::Join(name)).0, JoinCmd::Leave(again)).0 == list,
{
    let c = ascii_lowercase(name@);
    let after = list.push(c);
    assert(after[list.len() as int] == c);
    assert(after.contains(c));
    let i = after.index_of(c);
    if i != list.len() {
        assert(list.contains(after[i]));
    }
    assert(after.remove(list.len() as int) =~= list);
}

/// A reconnection replays the list: one `JOIN` per joined channel, in order,
/// with the list unchanged.
pub proof fn lemma_join_all_replays(list: Seq<Seq<char>>)
    ensures
        channel_step(list, JoinCmd::JoinAll).0 == list,
        channel_step(list, JoinCmd::JoinAll).2.len() == list.len(),
        forall|k: int| 0 <= k < list.len() ==> #[trigger] channel_step(list, JoinCmd::JoinAll).2[k]
            == irc_channel_command("JOIN"@, list[k]),
{
}

/// The list after `cmds`, answered in order, starting from `list`.
pub open spec fn apply_requests(list: Seq<Seq<char>>, cmds: Seq<JoinCmd>) -> Seq<Seq<char>>
    decreases cmds.len(),
{
    if cmds.len() == 0 {
        list
    } else {
        channel_step(apply_requests(list, cmds.drop_last()), cmds.last()).0
    }
}

/// Among `cmds`, the last join or leave of a name that lower cases to
/// `channel` is a join.
pub open spec fn last_request_joins(cmds: Seq<JoinCmd>, channel: Seq<char>) -> bool
    decreases cmds.len(),
{
    if cmds.len() == 0 {
        false
    } else {
        match cmds.last() {
            JoinCmd::Join(name) => if ascii_lowercase(name@) == channel {
                true
            } else {
                last_request_joins(cmds.drop_last(), channel)
            },
            JoinCmd::Leave(name) => if ascii_lowercase(name@) == channel {
                false
            } else {
                last_request_joins(cmds.drop_last(), channel)
            },
            JoinCmd::JoinAll => last_request_joins(cmds.drop_last(), channel),
        }
    }
}

/// In a list without duplicates, what is left after taking out the element
/// at `k` is everything else.
proof fn lemma_remove_contains(list: Seq<Seq<char>>, k: int, c: Seq<char>)
    requires
        channels_wf(list),
        0 <= k < list.len(),
    ensures
        list.remove(k).contains(c) <==> (list.contains(c) && c != list[k]),
{
    lemma_remove_keeps(list, k);
    if list.contains(c) && c != list[k] {
        let j = choose|j: int| 0 <= j < list.len() && list[j] == c;
        let r = list.remove(k);
        if j < k {
            assert(r[j] == c);
        } else {
            assert(j != k);
            assert(r[j - 1] == c);
        }
    }
    if list.remove(k).contains(c) {
        let j = choose|j: int| 0 <= j < list.remove(k).len() && list.remove(k)[j] == c;
        assert(list.contains(list.remove(k)[j]));
    }
}

/// After any sequence of requests to an empty list, the list holds exactly
/// the channels whose last join or leave was a join, each once; so a join of
/// all the channels then sends exactly one `JOIN` for each of them, and
/// nothing else.
pub proof fn lemma_requests_leave_joined(cmds: Seq<JoinCmd>)
    ensures
        channels_wf(apply_requests(Seq::empty(), cmds)),
        forall|c: Seq<char>|
            #[trigger] apply_requests(Seq::empty(), cmds).contains(c) <==> last_request_joins(cmds, c),
        channel_step(apply_requests(Seq::empty(), cmds), JoinCmd::JoinAll) == (
            apply_requests(Seq::empty(), cmds),
            join_notices(apply_requests(Seq::empty(), cmds)),
            join_commands(apply_requests(Seq::empty(), cmds)),
        ),
    decreases cmds.len(),
{
    let empty = Seq::<Seq<char>>::empty();
    if cmds.len() > 0 {
        let prev = cmds.drop_last();
        lemma_requests_leave_joined(prev);
        let list = apply_requests(empty, prev);
        let cmd = cmds.last();
        lemma_step_keeps_wf(list, cmd);
        let after = channel_step(list, cmd).0;
        assert(after == apply_requests(empty, cmds));
        assert forall|c: Seq<char>| #[trigger] after.contains(c) <==> last_request_joins(cmds, c) by {
            assert(list.contains(c) <==> last_request_joins(prev, c));
            match cmd {
                JoinCmd::Join(name) => {
                    let lc = ascii_lowercase(name@);
                    if !list.contains(lc) {
                        assert(list.push(lc)[list.len() as int] == lc);
                        if list.push(lc).contains(c) && c != lc {
                            let j = choose|j: int| 0 <= j < list.push(lc).len() && list.push(lc)[j] == c;
                            assert(list[j] == c);
                        }
                        if list.contains(c) {
                            let j = choose|j: int| 0 <= j < list.len() && list[j] == c;
                            assert(list.push(lc)[j] == c);
                        }
                    }
                },
                JoinCmd::Leave(name) => {
                    let lc = ascii_lowercase(name@);
                    if list.contains(lc) {
                        let i = list.index_of(lc);
                        lemma_remove_contains(list, i, c);
                    }
                },
                JoinCmd::JoinAll => {},
            }
        }
    }
}

/// Leaving a joined channel parts that very channel: it prints
/// `leave #name`, sends exactly one command, `PART #name`, with the name in
/// ASCII lower case, and takes that name, and only it, out of the list.
pub proof fn lemma_leave_parts_that_channel(list: Seq<Seq<char>>, name: String)
    requires
        channels_wf(list),
        list.contains(ascii_lowercase(name@)),
    ensures
        ({
            let c = ascii_lowercase(name@);
            let after = channel_step(list, JoinCmd::Leave(name));
            &&& after.2 == seq![encode_utf8("PART"@ + " #"@ + c + "\r\n"@)]
            &&& after.1 == "leave #"@ + c + "\n"@
            &&& !after.0.contains(c)
            &&& forall|d: Seq<char>| d != c ==> (after.0.contains(d) <==> list.contains(d))
        }),
{
    let c = ascii_lowercase(name@);
    let i = list.index_of(c);
    assert forall|d: Seq<char>| d != c implies (channel_step(list, JoinCmd::Leave(name)).0.contains(d)
        <==> list.contains(d)) by {
        lemma_remove_contains(list, i, d);
    }
    lemma_join_leave_membership(list, name);
}

/// Joining a channel not yet joined joins that very channel: it prints
/// `join #name`, sends exactly one command, `JOIN #name`, with the name in
/// ASCII lower case, and adds that name, and only it, at the end of the list.
pub proof fn lemma_join_joins_that_channel(list: Seq<Seq<char>>, name: String)
    requires
        channels_wf(list),
        !list.contains(ascii_lowercase(name@)),
    ensures
        ({
            let c = ascii_lowercase(name@);
            let after = channel_step(list, JoinCmd::Join(name));
            &&& after.2 == seq![encode_utf8("JOIN"@ + " #"@ + c + "\r\n"@)]
            &&& after.1 == "join #"@ + c + "\n"@
            &&& after.0 == list.push(c)
        }),
{
}

} // verus!
