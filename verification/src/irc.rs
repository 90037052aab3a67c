//! Reading the lines that the Twitch IRC server sends.
//!
//! A chat line looks like
//! `@badge-info=subscriber/3;metadata=test; :user!user@user.tmi.twitch.tv PRIVMSG #channel :words go here\r\n`:
//! a control character, `key=value;` tags up to the first space, the sender
//! between `:` and `!`, then the message type, the channel and the text,
//! separated by spaces.

use vstd::prelude::*;
use crate::text::{utf8_lossy, u8_to_str};
use crate::json_doc::{json_object_dump, dump_json_object, entry_views};
use vstd::utf8::{valid_utf8, valid_utf8_concat};
use crate::lines::{is_line, concat_lines, lemma_lines_frame, NEWLINE, copy_range, LineBuffer, split_lines, byte_views, concat_chunks, lemma_split_lines_shape, lemma_split_lines_append, lemma_split_lines_no_newline};

verus! {

pub const BACKSLASH: u8 = 92u8;
pub const SPACE: u8 = 32u8;
pub const EQUALS: u8 = 61u8;
pub const SEMICOLON: u8 = 59u8;
pub const COLON: u8 = 58u8;
pub const BANG: u8 = 33u8;
pub const DASH: u8 = 45u8;
pub const UNDERSCORE: u8 = 95u8;
/// The byte that opens and closes a `/me` action (`\x01ACTION ...\x01`).
pub const ACTION_MARK: u8 = 1u8;

/// A tag key with each `-` turned into `_`.
pub open spec fn underscored(key: Seq<u8>) -> Seq<u8> {
    key.map_values(|b: u8| if b == DASH { UNDERSCORE } else { b })
}

/// The tags of `line`, scanning from position `i`, where the current pair
/// began at `start` and its `=` was last seen at `equals` (0: none yet).
/// Returns where the scan stopped (the first space outside an escape, or past
/// the end) and the `(key, value)` byte pairs found on the way. A backslash
/// escapes the byte after it. A `;` ends a pair and is taken as one only where
/// an `=` has been seen on the line.
pub open spec fn scan_tags(line: Seq<u8>, i: int, start: int, equals: int) -> (int, Seq<(Seq<u8>, Seq<u8>)>)
    decreases line.len() + 1 - i,
{
    if i < 0 || i >= line.len() {
        (i, Seq::empty())
    } else if line[i] == BACKSLASH {
        scan_tags(line, i + 2, start, equals)
    } else if line[i] == SPACE {
        (i, Seq::empty())
    } else if line[i] == EQUALS {
        scan_tags(line, i + 1, start, i)
    } else if line[i] == SEMICOLON {
        let rest = scan_tags(line, i + 1, i + 1, equals);
        if equals != 0 {
            (
                rest.0,
                seq![(underscored(line.subrange(start, equals)), line.subrange(equals + 1, i))]
                    + rest.1,
            )
        } else {
            rest
        }
    } else {
        scan_tags(line, i + 1, start, equals)
    }
}

/// The tag scan of `scan_tags` never meets a `;` whose pair would start after
/// the last `=` seen (a pair such as `a=b;c;`, whose second key would run
/// backwards).
pub open spec fn tags_ok(line: Seq<u8>, i: int, start: int, equals: int) -> bool
    decreases line.len() + 1 - i,
{
    if i < 0 || i >= line.len() {
        true
    } else if line[i] == BACKSLASH {
        tags_ok(line, i + 2, start, equals)
    } else if line[i] == SPACE {
        true
    } else if line[i] == EQUALS {
        tags_ok(line, i + 1, start, i)
    } else if line[i] == SEMICOLON {
        (equals != 0 ==> start <= equals) && tags_ok(line, i + 1, i + 1, equals)
    } else {
        tags_ok(line, i + 1, start, equals)
    }
}

/// `cur` with each `-` at a position in `[from, to)` turned into `_`.
pub open spec fn underscore_range(cur: Seq<u8>, from: int, to: int) -> Seq<u8> {
    Seq::new(cur.len(), |j: int| if from <= j < to && cur[j] == DASH { UNDERSCORE } else { cur[j] })
}

/// The line `cur` after the tag scan of `line` from position `i` (see
/// `scan_tags`) has turned each `-` into `_` in the key of every pair that it
/// takes.
pub open spec fn rewrite_keys(line: Seq<u8>, cur: Seq<u8>, i: int, start: int, equals: int) -> Seq<u8>
    decreases line.len() + 1 - i,
{
    if i < 0 || i >= line.len() {
        cur
    } else if line[i] == BACKSLASH {
        rewrite_keys(line, cur, i + 2, start, equals)
    } else if line[i] == SPACE {
        cur
    } else if line[i] == EQUALS {
        rewrite_keys(line, cur, i + 1, start, i)
    } else if line[i] == SEMICOLON {
        let next = if equals != 0 {
            underscore_range(cur, start, equals)
        } else {
            cur
        };
        rewrite_keys(line, next, i + 1, i + 1, equals)
    } else {
        rewrite_keys(line, cur, i + 1, start, equals)
    }
}

/// `line` with each `-` turned into `_` in the keys of its tags: what
/// `parse_irc_to_json` leaves of the line, and what the sender is read from.
pub open spec fn keys_underscored(line: Seq<u8>) -> Seq<u8> {
    rewrite_keys(line, line, 1, 1, 0)
}

/// The sender of `line`, scanning from `i`: the bytes after the last `:`
/// (or from the line's start where there is none, `user_start`) up to the
/// first `!`. Returns where the scan stopped (the `!`, or past the end).
pub open spec fn scan_account(line: Seq<u8>, i: int, user_start: int) -> (int, Option<Seq<u8>>)
    decreases line.len() - i,
{
    if i < 0 || i >= line.len() {
        (i, None)
    } else if line[i] == BANG {
        (i, Some(line.subrange(user_start, i)))
    } else if line[i] == COLON {
        scan_account(line, i + 1, i + 1)
    } else {
        scan_account(line, i + 1, user_start)
    }
}

/// The positions of the first `k` spaces of `line` at or after `i`.
pub open spec fn space_positions(line: Seq<u8>, i: int, k: nat) -> Seq<int>
    decreases line.len() - i,
{
    if k == 0 || i < 0 || i >= line.len() {
        Seq::empty()
    } else if line[i] == SPACE {
        seq![i] + space_positions(line, i + 1, (k - 1) as nat)
    } else {
        space_positions(line, i + 1, k)
    }
}

/// Byte pairs read as text.
pub open spec fn lossy_pairs(pairs: Seq<(Seq<u8>, Seq<u8>)>) -> Seq<(Seq<char>, Seq<char>)> {
    pairs.map_values(|p: (Seq<u8>, Seq<u8>)| (utf8_lossy(p.0), utf8_lossy(p.1)))
}

/// The `irc_account` entry, where a sender was found.
pub open spec fn account_entry(account: Option<Seq<u8>>) -> Seq<(Seq<char>, Seq<char>)> {
    match account {
        Some(a) => seq![("irc_account"@, utf8_lossy(a))],
        None => Seq::empty(),
    }
}

/// The entries that the three spaces after the sender delimit: the message
/// type, the channel (after its `#`), and then either the text of a `/me`
/// action (between `\x01ACTION ` and the closing `\x01\r\n`) or the message
/// (after its `:`, before `\r\n`).
pub open spec fn message_entries(line: Seq<u8>, spaces: Seq<int>) -> Seq<(Seq<char>, Seq<char>)> {
    if spaces.len() == 3 {
        let n = line.len() as int;
        let msg_start = spaces[2] + 2;
        let head = seq![
            ("irc_msg_type"@, utf8_lossy(line.subrange(spaces[0] + 1, spaces[1]))),
            ("irc_channel"@, utf8_lossy(line.subrange(spaces[1] + 2, spaces[2]))),
        ];
        if msg_start < n {
            if line[msg_start] == ACTION_MARK {
                if msg_start + 8 < n {
                    head + seq![("irc_emote"@, utf8_lossy(line.subrange(msg_start + 8, n - 3)))]
                } else {
                    head
                }
            } else {
                head + seq![("irc_msg"@, utf8_lossy(line.subrange(msg_start, n - 2)))]
            }
        } else {
            head
        }
    } else {
        Seq::empty()
    }
}

/// The ranges that `message_entries` reads are well ordered: the channel does
/// not start after its end, nor the action text or the message after theirs.
pub open spec fn message_ok(line: Seq<u8>, spaces: Seq<int>) -> bool {
    spaces.len() == 3 ==> {
        let n = line.len() as int;
        let msg_start = spaces[2] + 2;
        &&& spaces[1] + 2 <= spaces[2]
        &&& msg_start < n ==> if line[msg_start] == ACTION_MARK {
            msg_start + 8 < n ==> msg_start + 8 <= n - 3
        } else {
            msg_start <= n - 2
        }
    }
}

/// Where the sender scan of `line` starts: where the tag scan stopped.
pub open spec fn tags_end(line: Seq<u8>) -> int {
    scan_tags(line, 1, 1, 0).0
}

/// The positions of the three spaces after the sender.
pub open spec fn message_spaces(line: Seq<u8>) -> Seq<int> {
    space_positions(line, scan_account(line, tags_end(line), 0).0, 3)
}

/// `line` is one that `parse_irc_to_json` reads: every range it takes is well
/// ordered.
pub open spec fn irc_line_ok(line: Seq<u8>) -> bool {
    &&& tags_ok(line, 1, 1, 0)
    &&& message_ok(line, message_spaces(line))
}

/// The entries of the JSON record of `line`, in the order they are inserted:
/// the tags (skipping the first byte), `irc_account` (read from the line with
/// its tag keys underscored), `irc_msg_type`,
/// `irc_channel`, then `irc_emote` or `irc_msg`.
pub open spec fn irc_json_entries(line: Seq<u8>) -> Seq<(Seq<char>, Seq<char>)> {
    lossy_pairs(scan_tags(line, 1, 1, 0).1) + account_entry(
        scan_account(keys_underscored(line), tags_end(line), 0).1,
    ) + message_entries(line, message_spaces(line))
}

/// A copy of `line[from..to]` with each `-` turned into `_`.
fn underscored_copy(line: &[u8], from: usize, to: usize) -> (out: Vec<u8>)
    requires
        from <= to <= line@.len(),
    ensures
        out@ == underscored(line@.subrange(from as int, to as int)),
{
    let mut out: Vec<u8> = Vec::new();
    let mut k = from;
    while k < to
        invariant
            from <= k <= to <= line@.len(),
            out@ == underscored(line@.subrange(from as int, k as int)),
        decreases to - k,
    {
        let b = line[k];
        if b == DASH {
            out.push(UNDERSCORE);
        } else {
            out.push(b);
        }
        k = k + 1;
        assert(out@ =~= underscored(line@.subrange(from as int, k as int)));
    }
    out
}

/// Turns each `-` at a position in `[from, to)` of `line` into `_`.
fn underscore_in_place(line: &mut Vec<u8>, from: usize, to: usize)
    requires
        from <= to <= old(line)@.len(),
    ensures
        final(line)@ == underscore_range(old(line)@, from as int, to as int),
{
    let mut k = from;
    while k < to
        invariant
            from <= k <= to <= line@.len(),
            line@.len() == old(line)@.len(),
            line@ == underscore_range(old(line)@, from as int, k as int),
        decreases to - k,
    {
        if line[k] == DASH {
            line.set(k, UNDERSCORE);
        }
        k = k + 1;
        assert(line@ =~= underscore_range(old(line)@, from as int, k as int));
    }
}

/// Scans the tags of `line` (see `scan_tags`): where the scan stopped, and the
/// pairs read as text. Each `-` in the key of a pair is turned into `_` in
/// `line` itself (see `keys_underscored`); the bytes from where the scan
/// stopped on are left as they were.
fn tag_section(line: &mut Vec<u8>) -> (res: (usize, Vec<(String, String)>))
    requires
        old(line)@.len() < usize::MAX,
        tags_ok(old(line)@, 1, 1, 0),
    ensures
        res.0 == scan_tags(old(line)@, 1, 1, 0).0,
        entry_views(res.1@) == lossy_pairs(scan_tags(old(line)@, 1, 1, 0).1),
        final(line)@ == keys_underscored(old(line)@),
        final(line)@.len() == old(line)@.len(),
        forall|j: int| res.0 <= j < old(line)@.len() ==> final(line)@[j] == old(line)@[j],
{
    let ghost orig = line@;
    let n = line.len();
    let mut start: usize = 1;
    let mut equals: usize = 0;
    let mut i: usize = 1;
    let mut entries: Vec<(String, String)> = Vec::new();
    let ghost total = scan_tags(orig, 1, 1, 0);
    let ghost mut found: Seq<(Seq<u8>, Seq<u8>)> = Seq::empty();
    while i < n && line[i] != SPACE
        invariant
            orig == old(line)@,
            n == orig.len(),
            line@.len() == n,
            n < usize::MAX,
            1 <= i <= n + 1,
            start <= i,
            equals < i,
            tags_ok(orig, i as int, start as int, equals as int),
            total == scan_tags(orig, 1, 1, 0),
            total.0 == scan_tags(orig, i as int, start as int, equals as int).0,
            total.1 == found + scan_tags(orig, i as int, start as int, equals as int).1,
            entry_views(entries@) == lossy_pairs(found),
            forall|j: int| start <= j < n ==> line@[j] == orig[j],
            keys_underscored(orig) == rewrite_keys(orig, line@, i as int, start as int, equals as int),
        decreases n + 1 - i,
    {
        let b = line[i];
        assert(b == orig[i as int]);
        if b == BACKSLASH {
            i = i + 2;
        } else if b == EQUALS {
            equals = i;
            i = i + 1;
        } else if b == SEMICOLON {
            let ghost rest = scan_tags(orig, i + 1, i + 1, equals as int);
            if equals != 0 {
                let ghost before_line = line@;
                underscore_in_place(line, start, equals);
                let key = copy_range(line.as_slice(), start, equals);
                assert(key@ =~= underscored(orig.subrange(start as int, equals as int)));
                let value = copy_range(line.as_slice(), equals + 1, i);
                assert(value@ =~= orig.subrange(equals + 1, i as int));
                let ghost pair = (key@, value@);
                let key_text = u8_to_str(key.as_slice());
                let value_text = u8_to_str(value.as_slice());
                let ghost before = entries@;
                entries.push((key_text, value_text));
                proof {
                    assert(entries@ =~= before.push((key_text, value_text)));
                    assert(total.1 =~= found.push(pair) + rest.1);
                    assert(key_text@ == utf8_lossy(pair.0));
                    assert(value_text@ == utf8_lossy(pair.1));
                    assert(entry_views(entries@) =~= entry_views(before).push((key_text@, value_text@)));
                    assert(lossy_pairs(found.push(pair)) =~= lossy_pairs(found).push((utf8_lossy(pair.0), utf8_lossy(pair.1))));
                    found = found.push(pair);
                    assert(entry_views(entries@) =~= lossy_pairs(found));
                }
            }
            start = i + 1;
            i = i + 1;
        } else {
            i = i + 1;
        }
    }
    proof {
        assert(found + Seq::<(Seq<u8>, Seq<u8>)>::empty() =~= found);
        if i < n {
            assert(line@[i as int] == orig[i as int]);
        }
    }
    (i, entries)
}

/// Where two lines agree from position `i` on, the sender scan from `i`
/// stops at the same place.
proof fn lemma_account_end_same(a: Seq<u8>, b: Seq<u8>, i: int, user_start: int)
    requires
        a.len() == b.len(),
        forall|j: int| i <= j < a.len() ==> a[j] == b[j],
    ensures
        scan_account(a, i, user_start).0 == scan_account(b, i, user_start).0,
    decreases a.len() - i,
{
    if 0 <= i < a.len() {
        assert(a[i] == b[i]);
        if a[i] == COLON {
            lemma_account_end_same(a, b, i + 1, i + 1);
        } else if a[i] != BANG {
            lemma_account_end_same(a, b, i + 1, user_start);
        }
    }
}

/// Where two lines agree from position `i` on, they have the same spaces
/// from `i` on.
proof fn lemma_spaces_same(a: Seq<u8>, b: Seq<u8>, i: int, k: nat)
    requires
        a.len() == b.len(),
        forall|j: int| i <= j < a.len() ==> a[j] == b[j],
    ensures
        space_positions(a, i, k) == space_positions(b, i, k),
    decreases a.len() - i,
{
    if k != 0 && 0 <= i < a.len() {
        assert(a[i] == b[i]);
        if a[i] == SPACE {
            lemma_spaces_same(a, b, i + 1, (k - 1) as nat);
        } else {
            lemma_spaces_same(a, b, i + 1, k);
        }
    }
}

/// Scans for the sender from `from` (see `scan_account`): where the scan
/// stopped, and the sender as text.
fn account_section(line: &[u8], from: usize) -> (res: (usize, Option<String>))
    requires
        line@.len() < usize::MAX,
    ensures
        res.0 == scan_account(line@, from as int, 0).0,
        res.0 >= from,
        res.1 is Some <==> scan_account(line@, from as int, 0).1 is Some,
        res.1 matches Some(a) ==> a@ == utf8_lossy(scan_account(line@, from as int, 0).1.unwrap()),
{
    let n = line.len();
    let mut i = from;
    let mut user_start: usize = 0;
    while i < n && line[i] != BANG
        invariant
            n == line@.len(),
            from <= i,
            i < n ==> user_start <= i,
            scan_account(line@, from as int, 0) == scan_account(line@, i as int, user_start as int),
        decreases n - i,
    {
        if line[i] == COLON {
            user_start = i + 1;
        }
        i = i + 1;
    }
    if i < n {
        let name = copy_range(line, user_start, i);
        (i, Some(u8_to_str(name.as_slice())))
    } else {
        (i, None)
    }
}

/// The positions of the first three spaces of `line` at or after `from`.
fn space_section(line: &[u8], from: usize) -> (spaces: Vec<usize>)
    ensures
        spaces@.map_values(|p: usize| p as int) == space_positions(line@, from as int, 3),
        spaces@.len() <= 3,
        forall|k: int| 0 <= k < spaces@.len() ==> #[trigger] spaces@[k] < line@.len(),
        forall|a: int, b: int| 0 <= a < b < spaces@.len() ==> spaces@[a] < spaces@[b],
        forall|k: int| 0 <= k < spaces@.len() ==> #[trigger] spaces@[k] >= from,
{
    let n = line.len();
    let mut i = from;
    let mut spaces: Vec<usize> = Vec::new();
    let ghost total = space_positions(line@, from as int, 3);
    while i < n && spaces.len() < 3
        invariant
            n == line@.len(),
            from <= i,
            spaces@.len() <= 3,
            forall|k: int| 0 <= k < spaces@.len() ==> #[trigger] spaces@[k] < n,
            forall|k: int| 0 <= k < spaces@.len() ==> #[trigger] spaces@[k] < i,
            forall|k: int| 0 <= k < spaces@.len() ==> #[trigger] spaces@[k] >= from,
            forall|a: int, b: int| 0 <= a < b < spaces@.len() ==> spaces@[a] < spaces@[b],
            total == space_positions(line@, from as int, 3),
            total == spaces@.map_values(|p: usize| p as int) + space_positions(
                line@,
                i as int,
                (3 - spaces@.len()) as nat,
            ),
        decreases n - i,
    {
        if line[i] == SPACE {
            let ghost before = spaces@;
            spaces.push(i);
            assert(spaces@.map_values(|p: usize| p as int) =~= before.map_values(|p: usize| p as int).push(i as int));
            assert(total =~= spaces@.map_values(|p: usize| p as int) + space_positions(
                line@,
                i + 1,
                (3 - spaces@.len()) as nat,
            ));
        }
        i = i + 1;
    }
    assert(total =~= spaces@.map_values(|p: usize| p as int));
    spaces
}

/// Scans the tags of `line` without reading them: where the scan stopped,
/// and whether `tags_ok` holds.
fn tag_check(line: &[u8]) -> (res: (usize, bool))
    requires
        line@.len() < usize::MAX,
    ensures
        res.0 == scan_tags(line@, 1, 1, 0).0,
        res.1 == tags_ok(line@, 1, 1, 0),
{
    let n = line.len();
    let mut start: usize = 1;
    let mut equals: usize = 0;
    let mut i: usize = 1;
    let mut ok = true;
    while i < n && line[i] != SPACE
        invariant
            n == line@.len(),
            n < usize::MAX,
            1 <= i <= n + 1,
            start <= i,
            equals < i,
            scan_tags(line@, 1, 1, 0).0 == scan_tags(line@, i as int, start as int, equals as int).0,
            tags_ok(line@, 1, 1, 0) == (ok && tags_ok(line@, i as int, start as int, equals as int)),
        decreases n + 1 - i,
    {
        let b = line[i];
        if b == BACKSLASH {
            i = i + 2;
        } else if b == EQUALS {
            equals = i;
            i = i + 1;
        } else if b == SEMICOLON {
            if equals != 0 && start > equals {
                ok = false;
            }
            start = i + 1;
            i = i + 1;
        } else {
            i = i + 1;
        }
    }
    (i, ok)
}

/// Whether the ranges that the three spaces delimit are well ordered (see
/// `message_ok`).
fn message_check(line: &[u8], spaces: &Vec<usize>) -> (ok: bool)
    requires
        line@.len() < usize::MAX,
        forall|k: int| 0 <= k < spaces@.len() ==> #[trigger] spaces@[k] < line@.len(),
    ensures
        ok == message_ok(line@, spaces@.map_values(|p: usize| p as int)),
{
    let ghost sp = spaces@.map_values(|p: usize| p as int);
    if spaces.len() != 3 {
        return true;
    }
    assert(sp[1] == spaces@[1] && sp[2] == spaces@[2]);
    let n = line.len();
    let p1 = spaces[1];
    let p2 = spaces[2];
    if p1 + 2 > p2 {
        return false;
    }
    let msg_start = p2 + 2;
    if msg_start < n {
        if line[msg_start] == ACTION_MARK {
            if n - msg_start > 8 {
                msg_start + 8 <= n - 3
            } else {
                true
            }
        } else {
            msg_start <= n - 2
        }
    } else {
        true
    }
}

/// Whether `parse_irc_to_json` can read `line` (see `irc_line_ok`).
pub fn irc_line_parses(line: &[u8]) -> (ok: bool)
    requires
        line@.len() < usize::MAX,
    ensures
        ok == irc_line_ok(line@),
{
    let (end, tags_fine) = tag_check(line);
    let (after_account, _) = account_section(line, end);
    let spaces = space_section(line, after_account);
    tags_fine && message_check(line, &spaces)
}

/// Translates one IRC line into a JSON record followed by a newline: an
/// object with the tags (keys with `-` turned into `_`), then `irc_account`,
/// `irc_msg_type`, `irc_channel`, and `irc_emote` or `irc_msg`, as far as the
/// line holds them. The keys are underscored in `line` itself, and the sender
/// is read from the line so changed.
pub fn parse_irc_to_json(line: &mut Vec<u8>) -> (json: Vec<u8>)
    requires
        old(line)@.len() < usize::MAX,
        irc_line_ok(old(line)@),
    ensures
        final(line)@ == keys_underscored(old(line)@),
        json@ == json_object_dump(irc_json_entries(old(line)@)).push(NEWLINE),
        well_framed(json@),
{
    let ghost orig = line@;
    let (end, mut entries) = tag_section(line);
    let n = line.len();
    let cur: &[u8] = line.as_slice();
    assert(cur@ == keys_underscored(orig));
    let (after_account, account) = account_section(cur, end);
    proof {
        lemma_account_end_same(cur@, orig, end as int, 0);
    }
    let ghost tag_part = entry_views(entries@);
    match account {
        Some(name) => {
            entries.push(("irc_account".to_owned(), name));
        },
        None => {},
    }
    let ghost head_part = entry_views(entries@);
    assert(head_part =~= tag_part + account_entry(scan_account(keys_underscored(orig), tags_end(orig), 0).1));
    let spaces = space_section(cur, after_account);
    proof {
        lemma_spaces_same(cur@, orig, after_account as int, 3);
    }
    let ghost sp = spaces@.map_values(|p: usize| p as int);
    assert(sp == message_spaces(orig));
    if spaces.len() == 3 {
        assert(sp[0] == spaces@[0] && sp[1] == spaces@[1] && sp[2] == spaces@[2]);
        let p0 = spaces[0];
        let p1 = spaces[1];
        let p2 = spaces[2];
        let msg_type = copy_range(cur, p0 + 1, p1);
        assert(msg_type@ =~= orig.subrange(p0 + 1, p1 as int));
        entries.push(("irc_msg_type".to_owned(), u8_to_str(msg_type.as_slice())));
        let channel = copy_range(cur, p1 + 2, p2);
        assert(channel@ =~= orig.subrange(p1 + 2, p2 as int));
        entries.push(("irc_channel".to_owned(), u8_to_str(channel.as_slice())));
        let msg_start = p2 + 2;
        if msg_start < n {
            assert(cur@[msg_start as int] == orig[msg_start as int]);
            if cur[msg_start] == ACTION_MARK {
                if n - msg_start > 8 {
                    let emote = copy_range(cur, msg_start + 8, n - 3);
                    assert(emote@ =~= orig.subrange(msg_start + 8, n - 3));
                    entries.push(("irc_emote".to_owned(), u8_to_str(emote.as_slice())));
                }
            } else {
                let msg = copy_range(cur, msg_start, n - 2);
                assert(msg@ =~= orig.subrange(msg_start as int, n - 2));
                entries.push(("irc_msg".to_owned(), u8_to_str(msg.as_slice())));
            }
        }
    }
    assert(entry_views(entries@) =~= irc_json_entries(orig));
    let mut json = dump_json_object(&entries);
    let ghost text = json@;
    json.push(NEWLINE);
    proof {
        assert(json@.drop_last() =~= text);
        lemma_newline_utf8();
        assert(text + seq![NEWLINE] =~= json@);
        valid_utf8_concat(text, seq![NEWLINE]);
    }
    json
}

/// `record` is one complete line of UTF-8 text.
pub open spec fn well_framed(record: Seq<u8>) -> bool {
    is_line(record) && valid_utf8(record)
}

/// A newline alone is UTF-8.
proof fn lemma_newline_utf8()
    ensures
        valid_utf8(seq![NEWLINE]),
{
    let b = seq![NEWLINE];
    assert((NEWLINE & 0x7F) as u32 == 10u32) by (bit_vector);
    assert(b.subrange(1, 1) =~= Seq::<u8>::empty());
    assert(valid_utf8(b.subrange(1, 1)));
}

/// The JSON record of one IRC line, followed by a newline.
pub open spec fn json_record(line: Seq<u8>) -> Seq<u8> {
    json_object_dump(irc_json_entries(line)).push(NEWLINE)
}

/// `parse_irc_to_json` can read `line`, and its length fits the machine.
#[verifier::opaque]
pub open spec fn translatable(line: Seq<u8>) -> bool {
    line.len() < usize::MAX && irc_line_ok(line)
}

/// `record` is the JSON record that `parse_irc_to_json` makes of `line`, a
/// line that it can read.
pub open spec fn translated(record: Seq<u8>, line: Seq<u8>) -> bool {
    translatable(line) && record == json_record(line)
}

/// Every one of `lines` can be translated.
pub open spec fn all_translatable(lines: Seq<Seq<u8>>) -> bool {
    forall|k: int| 0 <= k < lines.len() ==> translatable(#[trigger] lines[k])
}

/// The JSON records of `lines` up to the first one that cannot be translated.
pub open spec fn translated_prefix(lines: Seq<Seq<u8>>) -> Seq<Seq<u8>>
    decreases lines.len(),
{
    if lines.len() == 0 {
        Seq::empty()
    } else if translatable(lines[0]) {
        seq![json_record(lines[0])] + translated_prefix(lines.drop_first())
    } else {
        Seq::empty()
    }
}

/// The records that the relay sends when the IRC server's bytes arrive as
/// `chunks`, each handed to `translate_irc_chunk` in turn with a buffer that
/// starts out holding `pending`; the relay stops at the first line that
/// cannot be translated.
pub open spec fn relay_records(pending: Seq<u8>, chunks: Seq<Seq<u8>>) -> Seq<Seq<u8>>
    decreases chunks.len(),
{
    if chunks.len() == 0 {
        Seq::empty()
    } else {
        let step = split_lines(pending + chunks[0]);
        if all_translatable(step.0) {
            translated_prefix(step.0) + relay_records(step.1, chunks.drop_first())
        } else {
            translated_prefix(step.0)
        }
    }
}

/// Records made one by one, each from its line, up to a line that cannot be
/// translated, are the translated prefix of the lines.
proof fn lemma_prefix_from_records(lines: Seq<Seq<u8>>, recs: Seq<Seq<u8>>)
    requires
        recs.len() <= lines.len(),
        forall|k: int| 0 <= k < recs.len() ==> translated(recs[k], lines[k]),
        recs.len() < lines.len() ==> !translatable(lines[recs.len() as int]),
    ensures
        translated_prefix(lines) == recs,
        all_translatable(lines) <==> recs.len() == lines.len(),
    decreases lines.len(),
{
    if lines.len() > 0 {
        if recs.len() == 0 {
            assert(!translatable(lines[0]));
        } else {
            assert(translated(recs[0], lines[0]));
            let tail = lines.drop_first();
            let rtail = recs.drop_first();
            assert forall|k: int| 0 <= k < rtail.len() implies translated(rtail[k], tail[k]) by {
                assert(translated(recs[k + 1], lines[k + 1]));
            }
            if rtail.len() < tail.len() {
                assert(tail[rtail.len() as int] == lines[recs.len() as int]);
            }
            lemma_prefix_from_records(tail, rtail);
            assert(seq![json_record(lines[0])] + rtail =~= recs);
            if all_translatable(lines) {
                assert forall|k: int| 0 <= k < tail.len() implies translatable(#[trigger] tail[k]) by {
                    assert(translatable(lines[k + 1]));
                }
            }
            if all_translatable(tail) {
                assert forall|k: int| 0 <= k < lines.len() implies translatable(#[trigger] lines[k]) by {
                    if k > 0 {
                        assert(lines[k] == tail[k - 1]);
                    }
                }
            }
        }
    }
}

/// The translated prefix of two runs of lines one after the other.
proof fn lemma_translated_prefix_append(x: Seq<Seq<u8>>, y: Seq<Seq<u8>>)
    ensures
        translated_prefix(x + y) == if all_translatable(x) {
            translated_prefix(x) + translated_prefix(y)
        } else {
            translated_prefix(x)
        },
    decreases x.len(),
{
    if x.len() == 0 {
        assert(x + y =~= y);
        assert(Seq::<Seq<u8>>::empty() + translated_prefix(y) =~= translated_prefix(y));
    } else {
        assert((x + y)[0] == x[0]);
        assert((x + y).drop_first() =~= x.drop_first() + y);
        lemma_translated_prefix_append(x.drop_first(), y);
        if translatable(x[0]) {
            if all_translatable(x) {
                assert forall|k: int| 0 <= k < x.drop_first().len() implies translatable(#[trigger] x.drop_first()[k]) by {
                    assert(translatable(x[k + 1]));
                }
                assert(seq![json_record(x[0])] + (translated_prefix(x.drop_first()) + translated_prefix(y))
                    =~= (seq![json_record(x[0])] + translated_prefix(x.drop_first())) + translated_prefix(y));
            } else {
                let k = choose|k: int| 0 <= k < x.len() && !translatable(#[trigger] x[k]);
                assert(k != 0);
                assert(x.drop_first()[k - 1] == x[k]);
            }
        } else {
            assert(!all_translatable(x));
        }
    }
}

/// The records the relay sends are those of the lines of the whole stream,
/// up to the first line that cannot be translated.
pub proof fn lemma_relay_records(pending: Seq<u8>, chunks: Seq<Seq<u8>>)
    requires
        !pending.contains(NEWLINE),
    ensures
        relay_records(pending, chunks) == translated_prefix(
            split_lines(pending + concat_chunks(chunks)).0,
        ),
    decreases chunks.len(),
{
    if chunks.len() == 0 {
        assert(pending + concat_chunks(chunks) =~= pending);
        lemma_split_lines_no_newline(pending);
    } else {
        let c = chunks[0];
        let rest = chunks.drop_first();
        let step = split_lines(pending + c);
        lemma_split_lines_shape(pending + c);
        lemma_relay_records(step.1, rest);
        assert(pending + concat_chunks(chunks) =~= (pending + c) + concat_chunks(rest));
        lemma_split_lines_append(pending + c, concat_chunks(rest));
        lemma_translated_prefix_append(step.0, split_lines(step.1 + concat_chunks(rest)).0);
    }
}

/// How the IRC server's bytes are cut into reads does not change the JSON
/// records the relay sends: two chunkings of the same bytes give the same
/// records.
pub proof fn lemma_records_independent_of_chunking(
    pending: Seq<u8>,
    chunks: Seq<Seq<u8>>,
    other: Seq<Seq<u8>>,
)
    requires
        !pending.contains(NEWLINE),
        concat_chunks(chunks) == concat_chunks(other),
    ensures
        relay_records(pending, chunks) == relay_records(pending, other),
{
    lemma_relay_records(pending, chunks);
    lemma_relay_records(pending, other);
}

/// Takes the next chunk of the stream from the IRC server and translates the
/// lines it completes into JSON records, in order. Translation stops at the
/// first line that `parse_irc_to_json` cannot read; the flag tells whether
/// every completed line was translated.
pub fn translate_irc_chunk(buffer: &mut LineBuffer, chunk: Vec<u8>) -> (out: (Vec<Vec<u8>>, bool))
    ensures
        final(buffer)@ == split_lines(old(buffer)@ + chunk@).1,
        out.0@.len() <= split_lines(old(buffer)@ + chunk@).0.len(),
        forall|k: int|
            0 <= k < out.0@.len() ==> translated(
                #[trigger] out.0@[k]@,
                split_lines(old(buffer)@ + chunk@).0[k],
            ),
        out.1 <==> out.0@.len() == split_lines(old(buffer)@ + chunk@).0.len(),
        !out.1 ==> !translatable(split_lines(old(buffer)@ + chunk@).0[out.0@.len() as int]),
        byte_views(out.0@) == translated_prefix(split_lines(old(buffer)@ + chunk@).0),
        forall|k: int| 0 <= k < out.0@.len() ==> well_framed(#[trigger] out.0@[k]@),
        out.1 == all_translatable(split_lines(old(buffer)@ + chunk@).0),
{
    let ghost total = old(buffer)@ + chunk@;
    let lines = buffer.push_chunk(chunk);
    let ghost views = byte_views(lines@);
    let mut records: Vec<Vec<u8>> = Vec::new();
    let mut k: usize = 0;
    while k < lines.len()
        invariant
            k <= lines@.len(),
            views == byte_views(lines@),
            views.len() == lines@.len(),
            total == old(buffer)@ + chunk@,
            views == split_lines(total).0,
            buffer@ == split_lines(total).1,
            records@.len() == k,
            forall|j: int| 0 <= j < k ==> translated(#[trigger] records@[j]@, views[j]),
            forall|j: int| 0 <= j < k ==> well_framed(#[trigger] records@[j]@),
        decreases lines@.len() - k,
    {
        let mut line = copy_range(lines[k].as_slice(), 0, lines[k].len());
        assert(line@ =~= views[k as int]);
        if line.len() == usize::MAX || !irc_line_parses(line.as_slice()) {
            assert(!translatable(views[k as int])) by {
                reveal(translatable);
            }
            proof {
                lemma_prefix_from_records(views, byte_views(records@));
            }
            return (records, false);
        }
        let record = parse_irc_to_json(&mut line);
        assert(translated(record@, views[k as int])) by {
            reveal(translatable);
        }
        let ghost before = records@;
        records.push(record);
        assert forall|j: int| 0 <= j < k + 1 implies translated(#[trigger] records@[j]@, views[j])
            && well_framed(records@[j]@) by {
            if j < k {
                assert(records@[j] == before[j]);
            }
        }
        k = k + 1;
    }
    proof {
        lemma_prefix_from_records(views, byte_views(records@));
    }
    (records, true)
}

/// The records the relay sends can be framed again by a client: sent one
/// after another, they split back into the same records, one per line, with
/// nothing left over.
pub proof fn lemma_records_frame(records: Seq<Seq<u8>>)
    requires
        forall|k: int| 0 <= k < records.len() ==> well_framed(#[trigger] records[k]),
    ensures
        split_lines(concat_lines(records)) == (records, Seq::<u8>::empty()),
{
    assert forall|k: int| 0 <= k < records.len() implies is_line(#[trigger] records[k]) by {
        assert(well_framed(records[k]));
    }
    lemma_lines_frame(records);
}

} // verus!
