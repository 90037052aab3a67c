//! What the IRC translation does to the lines Twitch sends: laws stated over
//! lines built from their parts.

use vstd::prelude::*;
use crate::text::utf8_lossy;
use crate::lines::NEWLINE;
use crate::irc::{
    BACKSLASH, SPACE, EQUALS, SEMICOLON, COLON, BANG, ACTION_MARK, underscored, scan_tags, tags_ok,
    lossy_pairs, scan_account, space_positions, rewrite_keys, keys_underscored, underscore_range,
    irc_line_ok, irc_json_entries, message_spaces, tags_end, message_ok, message_entries, account_entry,
};

verus! {

/// A byte that ends nothing in the tag section: not a backslash, a space, an
/// `=` or a `;`.
pub open spec fn plain_tag_byte(b: u8) -> bool {
    b != BACKSLASH && b != SPACE && b != EQUALS && b != SEMICOLON
}

/// Every byte of `s` is a plain tag byte.
pub open spec fn plain_tag_text(s: Seq<u8>) -> bool {
    forall|j: int| 0 <= j < s.len() ==> plain_tag_byte(#[trigger] s[j])
}

/// Keys and values made of plain tag bytes (a value may be empty).
pub open spec fn plain_pairs(pairs: Seq<(Seq<u8>, Seq<u8>)>) -> bool {
    forall|k: int| 0 <= k < pairs.len() ==> plain_tag_text(#[trigger] pairs[k].0) && plain_tag_text(pairs[k].1)
}

/// The tag section `k1=v1;k2=v2;...` of `pairs`.
pub open spec fn tag_text(pairs: Seq<(Seq<u8>, Seq<u8>)>) -> Seq<u8>
    decreases pairs.len(),
{
    if pairs.len() == 0 {
        Seq::empty()
    } else {
        pairs[0].0 + seq![EQUALS] + pairs[0].1 + seq![SEMICOLON] + tag_text(pairs.drop_first())
    }
}

/// The pairs with `-` turned into `_` in each key.
pub open spec fn underscore_keys(pairs: Seq<(Seq<u8>, Seq<u8>)>) -> Seq<(Seq<u8>, Seq<u8>)> {
    pairs.map_values(|p: (Seq<u8>, Seq<u8>)| (underscored(p.0), p.1))
}

/// The tag scan passes over plain bytes without change.
proof fn lemma_tags_skip(line: Seq<u8>, i: int, m: int, start: int, equals: int)
    requires
        0 <= i <= m <= line.len(),
        forall|j: int| i <= j < m ==> plain_tag_byte(#[trigger] line[j]),
    ensures
        scan_tags(line, i, start, equals) == scan_tags(line, m, start, equals),
        tags_ok(line, i, start, equals) == tags_ok(line, m, start, equals),
    decreases m - i,
{
    if i < m {
        assert(plain_tag_byte(line[i]));
        lemma_tags_skip(line, i + 1, m, start, equals);
    }
}

/// From position `i`, where the tag section `tag_text(pairs)` stands and is
/// followed by a space, the tag scan takes exactly the pairs, keys
/// underscored, and stops at the space.
proof fn lemma_scan_tag_text(line: Seq<u8>, i: int, pairs: Seq<(Seq<u8>, Seq<u8>)>, equals: int)
    requires
        plain_pairs(pairs),
        1 <= i,
        0 <= equals < i,
        i + tag_text(pairs).len() < line.len(),
        line.subrange(i, i + tag_text(pairs).len()) == tag_text(pairs),
        line[i + tag_text(pairs).len()] == SPACE,
    ensures
        scan_tags(line, i, i, equals) == (i + tag_text(pairs).len(), underscore_keys(pairs)),
        tags_ok(line, i, i, equals),
    decreases pairs.len(),
{
    let t = tag_text(pairs);
    if pairs.len() == 0 {
        assert(underscore_keys(pairs) =~= Seq::<(Seq<u8>, Seq<u8>)>::empty());
    } else {
        let k = pairs[0].0;
        let v = pairs[0].1;
        let rest = pairs.drop_first();
        let tr = tag_text(rest);
        assert(plain_tag_text(k) && plain_tag_text(v));
        let p = i + k.len();
        let q = p + 1 + v.len();
        assert(t == k + seq![EQUALS] + v + seq![SEMICOLON] + tr);
        assert forall|j: int| 0 <= j < t.len() implies line[i + j] == #[trigger] t[j] by {
            assert(line.subrange(i, i + t.len())[j] == t[j]);
        }
        assert forall|j: int| i <= j < p implies plain_tag_byte(#[trigger] line[j]) by {
            assert(t[j - i] == k[j - i]);
            assert(line[i + (j - i)] == t[j - i]);
        }
        lemma_tags_skip(line, i, p, i, equals);
        assert(t[k.len() as int] == EQUALS);
        assert(line[p] == EQUALS);
        assert forall|j: int| p + 1 <= j < q implies plain_tag_byte(#[trigger] line[j]) by {
            assert(t[j - i] == v[j - p - 1]);
            assert(line[i + (j - i)] == t[j - i]);
        }
        lemma_tags_skip(line, p + 1, q, i, p);
        assert(t[q - i] == SEMICOLON);
        assert(line[q] == SEMICOLON);
        assert forall|k2: int| 0 <= k2 < rest.len() implies plain_tag_text(#[trigger] rest[k2].0)
            && plain_tag_text(rest[k2].1) by {
            assert(rest[k2] == pairs[k2 + 1]);
        }
        assert(line.subrange(q + 1, q + 1 + tr.len()) =~= tr) by {
            assert forall|j: int| 0 <= j < tr.len() implies line.subrange(q + 1, q + 1 + tr.len())[j] == tr[j] by {
                assert(t[q + 1 - i + j] == tr[j]);
                assert(line[i + (q + 1 - i + j)] == t[q + 1 - i + j]);
            }
        }
        assert(q + 1 + tr.len() == i + t.len());
        lemma_scan_tag_text(line, q + 1, rest, p);
        assert(line.subrange(i, p) =~= k) by {
            assert forall|j: int| 0 <= j < k.len() implies line.subrange(i, p)[j] == k[j] by {
                assert(t[j] == k[j]);
                assert(line[i + j] == t[j]);
            }
        }
        assert(line.subrange(p + 1, q) =~= v) by {
            assert forall|j: int| 0 <= j < v.len() implies line.subrange(p + 1, q)[j] == v[j] by {
                assert(t[k.len() + 1 + j] == v[j]);
                assert(line[i + (k.len() + 1 + j)] == t[k.len() + 1 + j]);
            }
        }
        assert(underscore_keys(pairs) =~= seq![(underscored(k), v)] + underscore_keys(rest));
    }
}

/// The tags of a line: for a line whose first byte is followed by the tag
/// section `k1=v1;k2=v2;...` of `pairs` (plain keys and values, a value may be
/// empty) and a space, the tag scan stops at that space, never reads a range
/// backwards, and takes one pair for each `k=v;`, in order, its key with `-`
/// turned into `_` and its value as it stands.
pub proof fn lemma_tag_section(first: u8, pairs: Seq<(Seq<u8>, Seq<u8>)>, rest: Seq<u8>)
    requires
        plain_pairs(pairs),
    ensures
        ({
            let line = seq![first] + tag_text(pairs) + seq![SPACE] + rest;
            &&& scan_tags(line, 1, 1, 0) == (1 + tag_text(pairs).len() as int, underscore_keys(pairs))
            &&& tags_ok(line, 1, 1, 0)
            &&& lossy_pairs(scan_tags(line, 1, 1, 0).1) == underscore_keys(pairs).map_values(
                |p: (Seq<u8>, Seq<u8>)| (utf8_lossy(p.0), utf8_lossy(p.1)),
            )
        }),
{
    let t = tag_text(pairs);
    let line = seq![first] + t + seq![SPACE] + rest;
    assert(line.subrange(1, 1 + t.len() as int) =~= t);
    assert(line[1 + t.len() as int] == SPACE);
    lemma_scan_tag_text(line, 1, pairs, 0);
}

/// The byte before a channel name.
pub const HASH: u8 = 35u8;
/// The carriage return that ends an IRC line before its newline.
pub const CR: u8 = 13u8;

/// What follows the tags of a chat line:
/// `:user!host command #channel :msg\r\n`.
pub open spec fn chat_tail(user: Seq<u8>, host: Seq<u8>, command: Seq<u8>, channel: Seq<u8>, msg: Seq<u8>) -> Seq<u8> {
    seq![COLON] + user + seq![BANG] + host + seq![SPACE] + command + seq![SPACE, HASH] + channel
        + seq![SPACE, COLON] + msg + seq![CR, NEWLINE]
}

/// A chat line as Twitch sends it:
/// `@k1=v1;k2=v2; :user!host command #channel :msg\r\n`.
pub open spec fn chat_line(
    first: u8,
    pairs: Seq<(Seq<u8>, Seq<u8>)>,
    user: Seq<u8>,
    host: Seq<u8>,
    command: Seq<u8>,
    channel: Seq<u8>,
    msg: Seq<u8>,
) -> Seq<u8> {
    seq![first] + tag_text(pairs) + seq![SPACE] + chat_tail(user, host, command, channel, msg)
}

/// No byte of `s` is `b`.
pub open spec fn lacks(s: Seq<u8>, b: u8) -> bool {
    forall|j: int| 0 <= j < s.len() ==> #[trigger] s[j] != b
}

/// The sender scan passes over bytes that are neither `:` nor `!`.
proof fn lemma_account_skip(line: Seq<u8>, i: int, m: int, user_start: int)
    requires
        0 <= i <= m <= line.len(),
        forall|j: int| i <= j < m ==> #[trigger] line[j] != COLON && line[j] != BANG,
    ensures
        scan_account(line, i, user_start) == scan_account(line, m, user_start),
    decreases m - i,
{
    if i < m {
        assert(line[i] != COLON && line[i] != BANG);
        lemma_account_skip(line, i + 1, m, user_start);
    }
}

/// The space search passes over bytes that are not spaces.
proof fn lemma_spaces_skip(line: Seq<u8>, i: int, m: int, k: nat)
    requires
        0 <= i <= m <= line.len(),
        forall|j: int| i <= j < m ==> #[trigger] line[j] != SPACE,
    ensures
        space_positions(line, i, k) == space_positions(line, m, k),
    decreases m - i,
{
    if i < m && k != 0 {
        assert(line[i] != SPACE);
        lemma_spaces_skip(line, i + 1, m, k);
    }
}

/// The key rewrite of the tag scan from `i` leaves every byte from where the
/// scan stops on as it was.
proof fn lemma_rewrite_keeps_tail(line: Seq<u8>, cur: Seq<u8>, i: int, start: int, equals: int)
    requires
        cur.len() == line.len(),
        equals < i,
    ensures
        rewrite_keys(line, cur, i, start, equals).len() == cur.len(),
        scan_tags(line, i, start, equals).0 >= i,
        forall|j: int| scan_tags(line, i, start, equals).0 <= j < cur.len() ==> #[trigger] rewrite_keys(
            line,
            cur,
            i,
            start,
            equals,
        )[j] == cur[j],
    decreases line.len() + 1 - i,
{
    if i < 0 || i >= line.len() {
    } else if line[i] == BACKSLASH {
        lemma_rewrite_keeps_tail(line, cur, i + 2, start, equals);
    } else if line[i] == SPACE {
    } else if line[i] == EQUALS {
        lemma_rewrite_keeps_tail(line, cur, i + 1, start, i);
    } else if line[i] == SEMICOLON {
        let next = if equals != 0 {
            underscore_range(cur, start, equals)
        } else {
            cur
        };
        lemma_rewrite_keeps_tail(line, next, i + 1, i + 1, equals);
    } else {
        lemma_rewrite_keeps_tail(line, cur, i + 1, start, equals);
    }
}

/// Where the parts of a chat line stand: the space that ends the tags at
/// `t`, then `:`, the sender, `!`, the host, a space, the command, a space,
/// `#`, the channel, a space, `:`, the message, `\r` and `\n`.
proof fn lemma_chat_positions(
    first: u8,
    pairs: Seq<(Seq<u8>, Seq<u8>)>,
    user: Seq<u8>,
    host: Seq<u8>,
    command: Seq<u8>,
    channel: Seq<u8>,
    msg: Seq<u8>,
)
    ensures
        ({
            let line = chat_line(first, pairs, user, host, command, channel, msg);
            let t: int = 1 + tag_text(pairs).len() as int;
            let bang: int = t + 2 + user.len();
            let p0: int = bang + 1 + host.len();
            let p1: int = p0 + 1 + command.len();
            let p2: int = p1 + 2 + channel.len();
            &&& line.len() == p2 + 4 + msg.len()
            &&& line[t] == SPACE
            &&& line[t + 1] == COLON
            &&& forall|j: int| 0 <= j < user.len() ==> line[t + 2 + j] == #[trigger] user[j]
            &&& line[bang] == BANG
            &&& forall|j: int| 0 <= j < host.len() ==> line[bang + 1 + j] == #[trigger] host[j]
            &&& line[p0] == SPACE
            &&& forall|j: int| 0 <= j < command.len() ==> line[p0 + 1 + j] == #[trigger] command[j]
            &&& line[p1] == SPACE
            &&& line[p1 + 1] == HASH
            &&& forall|j: int| 0 <= j < channel.len() ==> line[p1 + 2 + j] == #[trigger] channel[j]
            &&& line[p2] == SPACE
            &&& line[p2 + 1] == COLON
            &&& forall|j: int| 0 <= j < msg.len() ==> line[p2 + 2 + j] == #[trigger] msg[j]
            &&& line[p2 + 2 + msg.len()] == CR
        }),
{
    let tail = chat_tail(user, host, command, channel, msg);
    let line = chat_line(first, pairs, user, host, command, channel, msg);
    let t: int = 1 + tag_text(pairs).len() as int;
    let u_len = user.len() as int;
    let h_len = host.len() as int;
    let c_len = command.len() as int;
    let ch_len = channel.len() as int;
    let m_len = msg.len() as int;
    assert forall|j: int| 0 <= j < tail.len() implies line[t + 1 + j] == #[trigger] tail[j] by {
        assert(line == seq![first] + tag_text(pairs) + seq![SPACE] + tail);
    }
    assert(line[t] == SPACE);
    assert(tail[0] == COLON);
    assert forall|j: int| 0 <= j < u_len implies line[t + 2 + j] == #[trigger] user[j] by {
        assert(tail[1 + j] == user[j]);
        assert(line[t + 1 + (1 + j)] == tail[1 + j]);
    }
    assert(tail[1 + u_len] == BANG);
    assert forall|j: int| 0 <= j < h_len implies line[t + 3 + u_len + j] == #[trigger] host[j] by {
        assert(tail[2 + u_len + j] == host[j]);
        assert(line[t + 1 + (2 + u_len + j)] == tail[2 + u_len + j]);
    }
    assert(tail[2 + u_len + h_len] == SPACE);
    assert forall|j: int| 0 <= j < c_len implies line[t + 4 + u_len + h_len + j] == #[trigger] command[j] by {
        assert(tail[3 + u_len + h_len + j] == command[j]);
        assert(line[t + 1 + (3 + u_len + h_len + j)] == tail[3 + u_len + h_len + j]);
    }
    assert(tail[3 + u_len + h_len + c_len] == SPACE);
    assert(tail[4 + u_len + h_len + c_len] == HASH);
    assert forall|j: int| 0 <= j < ch_len implies line[t + 6 + u_len + h_len + c_len + j] == #[trigger] channel[j] by {
        assert(tail[5 + u_len + h_len + c_len + j] == channel[j]);
        assert(line[t + 1 + (5 + u_len + h_len + c_len + j)] == tail[5 + u_len + h_len + c_len + j]);
    }
    assert(tail[5 + u_len + h_len + c_len + ch_len] == SPACE);
    assert(tail[6 + u_len + h_len + c_len + ch_len] == COLON);
    assert forall|j: int| 0 <= j < m_len implies line[t + 8 + u_len + h_len + c_len + ch_len + j] == #[trigger] msg[j] by {
        assert(tail[7 + u_len + h_len + c_len + ch_len + j] == msg[j]);
        assert(line[t + 1 + (7 + u_len + h_len + c_len + ch_len + j)] == tail[7 + u_len + h_len + c_len + ch_len + j]);
    }
    assert(tail[7 + u_len + h_len + c_len + ch_len + m_len] == CR);
    assert(line[t + 1 + (7 + u_len + h_len + c_len + ch_len + m_len)] == CR);
    assert(line[t + 1 + (1 + u_len)] == BANG);
    assert(line[t + 1 + (2 + u_len + h_len)] == SPACE);
    assert(line[t + 1 + (3 + u_len + h_len + c_len)] == SPACE);
    assert(line[t + 1 + (4 + u_len + h_len + c_len)] == HASH);
    assert(line[t + 1 + (5 + u_len + h_len + c_len + ch_len)] == SPACE);
    assert(line[t + 1 + (6 + u_len + h_len + c_len + ch_len)] == COLON);
}

/// The sender: from the space `t` that ends the tags, a `:`, then `user`, then
/// `!`; `r` agrees with `line` from `t` on.
proof fn lemma_chat_sender(line: Seq<u8>, r: Seq<u8>, t: int, user: Seq<u8>)
    requires
        0 <= t,
        r.len() == line.len(),
        forall|j: int| t <= j < line.len() ==> #[trigger] r[j] == line[j],
        t + 2 + user.len() < line.len(),
        line[t] == SPACE,
        line[t + 1] == COLON,
        forall|j: int| 0 <= j < user.len() ==> line[t + 2 + j] == #[trigger] user[j],
        line[t + 2 + user.len()] == BANG,
        lacks(user, COLON),
        lacks(user, BANG),
    ensures
        scan_account(r, t, 0) == (t + 2 + user.len(), Some(user)),
        scan_account(line, t, 0).0 == t + 2 + user.len(),
{
    let bang = t + 2 + user.len();
    assert forall|j: int| t + 2 <= j < bang implies #[trigger] line[j] != COLON && line[j] != BANG by {
        assert(line[t + 2 + (j - t - 2)] == user[j - t - 2]);
    }
    assert forall|j: int| t + 2 <= j < bang implies #[trigger] r[j] != COLON && r[j] != BANG by {
        assert(r[j] == line[j]);
    }
    assert(r[t] == SPACE && r[t + 1] == COLON && r[bang] == BANG);
    lemma_account_skip(r, t + 2, bang, t + 2);
    lemma_account_skip(line, t + 2, bang, t + 2);
    assert(scan_account(r, t, 0) == scan_account(r, t + 1, 0));
    assert(scan_account(r, t + 1, 0) == scan_account(r, t + 2, t + 2));
    assert(scan_account(line, t, 0) == scan_account(line, t + 1, 0));
    assert(scan_account(line, t + 1, 0) == scan_account(line, t + 2, t + 2));
    assert(r.subrange(t + 2, bang) =~= user) by {
        assert forall|j: int| 0 <= j < user.len() implies r.subrange(t + 2, bang)[j] == user[j] by {
            assert(r[t + 2 + j] == line[t + 2 + j]);
        }
    }
}

/// The command, channel and message: after the `!` at `bang`, the host, a
/// space, the command, a space, a byte, the channel, a space, a byte, the
/// message, `\r` and one more byte.
proof fn lemma_chat_message(line: Seq<u8>, bang: int, host: Seq<u8>, command: Seq<u8>, channel: Seq<u8>, msg: Seq<u8>)
    requires
        0 <= bang,
        line.len() == bang + host.len() + command.len() + channel.len() + msg.len() + 8,
        line[bang] == BANG,
        forall|j: int| 0 <= j < host.len() ==> line[bang + 1 + j] == #[trigger] host[j],
        line[bang + 1 + host.len()] == SPACE,
        forall|j: int| 0 <= j < command.len() ==> line[bang + 2 + host.len() + j] == #[trigger] command[j],
        line[bang + 2 + host.len() + command.len()] == SPACE,
        line[bang + 3 + host.len() + command.len()] != SPACE,
        forall|j: int| 0 <= j < channel.len() ==> line[bang + 4 + host.len() + command.len() + j] == #[trigger] channel[j],
        line[bang + 4 + host.len() + command.len() + channel.len()] == SPACE,
        forall|j: int| 0 <= j < msg.len() ==> line[bang + 6 + host.len() + command.len() + channel.len() + j] == #[trigger] msg[j],
        line[bang + 6 + host.len() + command.len() + channel.len() + msg.len()] == CR,
        lacks(host, SPACE),
        lacks(command, SPACE),
        lacks(channel, SPACE),
        msg.len() > 0 ==> msg[0] != ACTION_MARK,
    ensures
        space_positions(line, bang, 3) == seq![
            bang + 1 + host.len(),
            bang + 2 + host.len() + command.len(),
            bang + 4 + host.len() + command.len() + channel.len(),
        ],
        message_ok(line, space_positions(line, bang, 3)),
        message_entries(line, space_positions(line, bang, 3)) == seq![
            ("irc_msg_type"@, utf8_lossy(command)),
            ("irc_channel"@, utf8_lossy(channel)),
            ("irc_msg"@, utf8_lossy(msg)),
        ],
{
    let p0 = bang + 1 + host.len();
    let p1 = p0 + 1 + command.len();
    let p2 = p1 + 2 + channel.len();
    let n = line.len() as int;
    assert forall|j: int| bang <= j < p0 implies #[trigger] line[j] != SPACE by {
        if j > bang {
            assert(line[bang + 1 + (j - bang - 1)] == host[j - bang - 1]);
        }
    }
    lemma_spaces_skip(line, bang, p0, 3);
    assert forall|j: int| p0 + 1 <= j < p1 implies #[trigger] line[j] != SPACE by {
        assert(line[bang + 2 + host.len() + (j - p0 - 1)] == command[j - p0 - 1]);
    }
    lemma_spaces_skip(line, p0 + 1, p1, 2);
    assert forall|j: int| p1 + 1 <= j < p2 implies #[trigger] line[j] != SPACE by {
        if j > p1 + 1 {
            assert(line[bang + 4 + host.len() + command.len() + (j - p1 - 2)] == channel[j - p1 - 2]);
        }
    }
    lemma_spaces_skip(line, p1 + 1, p2, 1);
    assert(space_positions(line, p0, 3) == seq![p0] + space_positions(line, p0 + 1, 2));
    assert(space_positions(line, p1, 2) == seq![p1] + space_positions(line, p1 + 1, 1));
    assert(space_positions(line, p2, 1) == seq![p2] + space_positions(line, p2 + 1, 0));
    assert(space_positions(line, bang, 3) =~= seq![p0, p1, p2]);
    let ms = p2 + 2;
    if msg.len() > 0 {
        assert(line[bang + 6 + host.len() + command.len() + channel.len() + 0] == msg[0]);
    }
    assert(line[ms] != ACTION_MARK);
    assert(line.subrange(p0 + 1, p1) =~= command) by {
        assert forall|j: int| 0 <= j < command.len() implies line.subrange(p0 + 1, p1)[j] == command[j] by {
            assert(line[bang + 2 + host.len() + j] == command[j]);
        }
    }
    assert(line.subrange(p1 + 2, p2) =~= channel) by {
        assert forall|j: int| 0 <= j < channel.len() implies line.subrange(p1 + 2, p2)[j] == channel[j] by {
            assert(line[bang + 4 + host.len() + command.len() + j] == channel[j]);
        }
    }
    assert(line.subrange(ms, n - 2) =~= msg) by {
        assert forall|j: int| 0 <= j < msg.len() implies line.subrange(ms, n - 2)[j] == msg[j] by {
            assert(line[bang + 6 + host.len() + command.len() + channel.len() + j] == msg[j]);
        }
    }
    assert(message_entries(line, seq![p0, p1, p2]) =~= seq![
        ("irc_msg_type"@, utf8_lossy(command)),
        ("irc_channel"@, utf8_lossy(channel)),
        ("irc_msg"@, utf8_lossy(msg)),
    ]);
}

/// A chat line is read in full: for every line
/// `@k1=v1;...; :user!host command #channel :msg\r\n` whose keys and values
/// are plain (a value may be empty), whose sender has no `:` or `!`, whose
/// host, command and channel have no space, and whose message is not a
/// `/me` action, the relay accepts the line, and its record holds, in order,
/// every tag (key with `-` turned into `_`, value as it stands), the sender,
/// the command, the channel and the message.
pub proof fn lemma_chat_line(
    first: u8,
    pairs: Seq<(Seq<u8>, Seq<u8>)>,
    user: Seq<u8>,
    host: Seq<u8>,
    command: Seq<u8>,
    channel: Seq<u8>,
    msg: Seq<u8>,
)
    requires
        plain_pairs(pairs),
        lacks(user, COLON),
        lacks(user, BANG),
        lacks(host, SPACE),
        lacks(command, SPACE),
        lacks(channel, SPACE),
        msg.len() > 0 ==> msg[0] != ACTION_MARK,
    ensures
        irc_line_ok(chat_line(first, pairs, user, host, command, channel, msg)),
        irc_json_entries(chat_line(first, pairs, user, host, command, channel, msg)) == underscore_keys(
            pairs,
        ).map_values(|p: (Seq<u8>, Seq<u8>)| (utf8_lossy(p.0), utf8_lossy(p.1))) + seq![
            ("irc_account"@, utf8_lossy(user)),
            ("irc_msg_type"@, utf8_lossy(command)),
            ("irc_channel"@, utf8_lossy(channel)),
            ("irc_msg"@, utf8_lossy(msg)),
        ],
{
    let tail = chat_tail(user, host, command, channel, msg);
    let line = chat_line(first, pairs, user, host, command, channel, msg);
    let t: int = 1 + tag_text(pairs).len() as int;
    lemma_tag_section(first, pairs, tail);
    assert(tags_end(line) == t);
    lemma_chat_positions(first, pairs, user, host, command, channel, msg);
    let bang: int = t + 2 + user.len();
    let r = keys_underscored(line);
    lemma_rewrite_keeps_tail(line, line, 1, 1, 0);
    lemma_chat_sender(line, r, t, user);
    lemma_chat_message(line, bang, host, command, channel, msg);
    assert(message_spaces(line) == space_positions(line, bang, 3));
    assert(account_entry(scan_account(r, tags_end(line), 0).1) =~= seq![("irc_account"@, utf8_lossy(user))]);
    assert(irc_json_entries(line) =~= underscore_keys(pairs).map_values(
        |p: (Seq<u8>, Seq<u8>)| (utf8_lossy(p.0), utf8_lossy(p.1)),
    ) + seq![
        ("irc_account"@, utf8_lossy(user)),
        ("irc_msg_type"@, utf8_lossy(command)),
        ("irc_channel"@, utf8_lossy(channel)),
        ("irc_msg"@, utf8_lossy(msg)),
    ]);
}

} // verus!
