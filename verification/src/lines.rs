//! Splitting a byte stream into newline-terminated lines.

use vstd::prelude::*;

verus! {

/// The byte that ends a line.
pub const NEWLINE: u8 = 10u8;

/// What a stream of bytes `s` splits into: the complete lines (each with its
/// terminating newline), and the bytes after the last newline.
pub open spec fn split_lines(s: Seq<u8>) -> (Seq<Seq<u8>>, Seq<u8>)
    decreases s.len(),
{
    if s.len() == 0 {
        (Seq::empty(), Seq::empty())
    } else {
        let prev = split_lines(s.drop_last());
        if s.last() == NEWLINE {
            (prev.0.push(prev.1.push(NEWLINE)), Seq::empty())
        } else {
            (prev.0, prev.1.push(s.last()))
        }
    }
}

/// All the lines of `lines`, one after another.
pub open spec fn concat_lines(lines: Seq<Seq<u8>>) -> Seq<u8>
    decreases lines.len(),
{
    if lines.len() == 0 {
        Seq::empty()
    } else {
        concat_lines(lines.drop_last()) + lines.last()
    }
}

/// The contents of each buffer in `bufs`.
pub open spec fn byte_views(bufs: Seq<Vec<u8>>) -> Seq<Seq<u8>> {
    bufs.map_values(|b: Vec<u8>| b@)
}

/// `line` is one complete line: it ends with a newline and holds no other.
pub open spec fn is_line(line: Seq<u8>) -> bool {
    &&& line.len() > 0
    &&& line.last() == NEWLINE
    &&& !line.drop_last().contains(NEWLINE)
}

/// The lines of a stream, followed by what is left over, give back the stream;
/// every line is a complete line, and what is left holds no newline.
pub proof fn lemma_split_lines_shape(s: Seq<u8>)
    ensures
        concat_lines(split_lines(s).0) + split_lines(s).1 == s,
        forall|k: int|
            0 <= k < split_lines(s).0.len() ==> is_line(#[trigger] split_lines(s).0[k]),
        !split_lines(s).1.contains(NEWLINE),
    decreases s.len(),
{
    if s.len() > 0 {
        let p = s.drop_last();
        lemma_split_lines_shape(p);
        let (lines, rem) = split_lines(p);
        if s.last() == NEWLINE {
            let line = rem.push(NEWLINE);
            assert(line.drop_last() =~= rem);
            assert(lines.push(line).drop_last() =~= lines);
            assert(concat_lines(lines.push(line)) =~= concat_lines(lines) + line);
            assert(p.push(s.last()) =~= s);
            assert((concat_lines(lines) + rem).push(NEWLINE) =~= concat_lines(lines) + line);
            assert(concat_lines(lines) + line + Seq::<u8>::empty() =~= s);
            assert forall|k: int| 0 <= k < lines.push(line).len() implies is_line(
                #[trigger] lines.push(line)[k],
            ) by {
                if k < lines.len() {
                    assert(lines.push(line)[k] == lines[k]);
                }
            }
        } else {
            assert(p.push(s.last()) =~= s);
            assert((concat_lines(lines) + rem).push(s.last()) =~= concat_lines(lines) + rem.push(
                s.last(),
            ));
            assert forall|b: u8| #[trigger] rem.push(s.last()).contains(b) implies b != NEWLINE by {
                let j = choose|j: int| 0 <= j < rem.push(s.last()).len() && rem.push(s.last())[j] == b;
                if j < rem.len() {
                    assert(rem.contains(rem[j]));
                }
            }
        }
    }
}

/// Splitting is independent of how the stream was cut into chunks: the lines
/// of `a + b` are the lines of `a`, then the lines of what `a` left over
/// followed by `b`; and both leave the same bytes over.
pub proof fn lemma_split_lines_append(a: Seq<u8>, b: Seq<u8>)
    ensures
        split_lines(a + b).0 == split_lines(a).0 + split_lines(split_lines(a).1 + b).0,
        split_lines(a + b).1 == split_lines(split_lines(a).1 + b).1,
    decreases b.len(),
{
    let r = split_lines(a).1;
    if b.len() == 0 {
        assert(a + b =~= a);
        assert(r + b =~= r);
        lemma_split_lines_shape(a);
        lemma_split_lines_no_newline(r);
        assert(split_lines(a).0 + Seq::<Seq<u8>>::empty() =~= split_lines(a).0);
    } else {
        let b2 = b.drop_last();
        lemma_split_lines_append(a, b2);
        assert((a + b).drop_last() =~= a + b2);
        assert((r + b).drop_last() =~= r + b2);
        assert((a + b).last() == b.last());
        assert((r + b).last() == b.last());
        let x = split_lines(a).0;
        let y = split_lines(r + b2).0;
        assert((x + y).push(split_lines(r + b2).1.push(NEWLINE)) =~= x + y.push(
            split_lines(r + b2).1.push(NEWLINE),
        ));
    }
}

/// Bytes without a newline form no line: they are all left over.
pub proof fn lemma_split_lines_no_newline(s: Seq<u8>)
    requires
        !s.contains(NEWLINE),
    ensures
        split_lines(s).0.len() == 0,
        split_lines(s).1 == s,
    decreases s.len(),
{
    if s.len() > 0 {
        let p = s.drop_last();
        assert forall|b: u8| #[trigger] p.contains(b) implies b != NEWLINE by {
            let j = choose|j: int| 0 <= j < p.len() && p[j] == b;
            assert(s[j] == b);
        }
        lemma_split_lines_no_newline(p);
        assert(s.contains(s[s.len() - 1]));
        assert(p.push(s.last()) =~= s);
    }
}

/// One complete line splits into itself, with nothing left over.
pub proof fn lemma_split_single_line(line: Seq<u8>)
    requires
        is_line(line),
    ensures
        split_lines(line) == (seq![line], Seq::<u8>::empty()),
{
    let p = line.drop_last();
    lemma_split_lines_no_newline(p);
    assert(p.push(NEWLINE) =~= line);
    assert(Seq::<Seq<u8>>::empty().push(line) =~= seq![line]);
}

/// Complete lines sent one after another and framed again come back as they
/// were, one for one, with nothing left over.
pub proof fn lemma_lines_frame(lines: Seq<Seq<u8>>)
    requires
        forall|k: int| 0 <= k < lines.len() ==> is_line(#[trigger] lines[k]),
    ensures
        split_lines(concat_lines(lines)) == (lines, Seq::<u8>::empty()),
    decreases lines.len(),
{
    if lines.len() == 0 {
        assert(concat_lines(lines) =~= Seq::<u8>::empty());
        assert(lines =~= Seq::<Seq<u8>>::empty());
    } else {
        let p = lines.drop_last();
        let l = lines.last();
        assert forall|k: int| 0 <= k < p.len() implies is_line(#[trigger] p[k]) by {
            assert(is_line(lines[k]));
        }
        lemma_lines_frame(p);
        assert(is_line(lines[lines.len() - 1]));
        lemma_split_single_line(l);
        lemma_split_lines_append(concat_lines(p), l);
        assert(Seq::<u8>::empty() + l =~= l);
        assert(p + seq![l] =~= lines);
    }
}

/// All of `chunks`, one after another.
pub open spec fn concat_chunks(chunks: Seq<Seq<u8>>) -> Seq<u8>
    decreases chunks.len(),
{
    if chunks.len() == 0 {
        Seq::empty()
    } else {
        chunks[0] + concat_chunks(chunks.drop_first())
    }
}

/// The lines that a buffer holding `pending` returns when it is given
/// `chunks` one at a time, in order.
pub open spec fn chunked_lines(pending: Seq<u8>, chunks: Seq<Seq<u8>>) -> Seq<Seq<u8>>
    decreases chunks.len(),
{
    if chunks.len() == 0 {
        Seq::empty()
    } else {
        let step = split_lines(pending + chunks[0]);
        step.0 + chunked_lines(step.1, chunks.drop_first())
    }
}

/// What a buffer holding `pending` holds after it is given `chunks` one at a
/// time.
pub open spec fn chunked_pending(pending: Seq<u8>, chunks: Seq<Seq<u8>>) -> Seq<u8>
    decreases chunks.len(),
{
    if chunks.len() == 0 {
        pending
    } else {
        chunked_pending(split_lines(pending + chunks[0]).1, chunks.drop_first())
    }
}

/// Feeding a buffer chunk by chunk gives the lines of the whole stream at
/// once, and leaves the same bytes over.
pub proof fn lemma_chunked_lines(pending: Seq<u8>, chunks: Seq<Seq<u8>>)
    requires
        !pending.contains(NEWLINE),
    ensures
        chunked_lines(pending, chunks) == split_lines(pending + concat_chunks(chunks)).0,
        chunked_pending(pending, chunks) == split_lines(pending + concat_chunks(chunks)).1,
    decreases chunks.len(),
{
    if chunks.len() == 0 {
        assert(pending + concat_chunks(chunks) =~= pending);
        lemma_split_lines_no_newline(pending);
    } else {
        let c = chunks[0];
        let rest = chunks.drop_first();
        let step = split_lines(pending + c);
        lemma_split_lines_shape(pending + c);
        lemma_chunked_lines(step.1, rest);
        assert(pending + concat_chunks(chunks) =~= (pending + c) + concat_chunks(rest));
        lemma_split_lines_append(pending + c, concat_chunks(rest));
    }
}

/// How a stream is cut into chunks does not change the lines a buffer
/// returns, nor what it holds at the end: two chunkings of the same bytes give
/// the same.
pub proof fn lemma_lines_independent_of_chunking(pending: Seq<u8>, chunks: Seq<Seq<u8>>, other: Seq<Seq<u8>>)
    requires
        !pending.contains(NEWLINE),
        concat_chunks(chunks) == concat_chunks(other),
    ensures
        chunked_lines(pending, chunks) == chunked_lines(pending, other),
        chunked_pending(pending, chunks) == chunked_pending(pending, other),
{
    lemma_chunked_lines(pending, chunks);
    lemma_chunked_lines(pending, other);
}

/// A buffer that frames a byte stream into lines. It holds the bytes received
/// after the last newline until the rest of their line arrives.
pub struct LineBuffer {
    pending: Vec<u8>,
}

impl View for LineBuffer {
    type V = Seq<u8>;

    /// The bytes received after the last newline.
    closed spec fn view(&self) -> Seq<u8> {
        self.pending@
    }
}

impl LineBuffer {
    /// An empty buffer.
    pub fn new() -> (buf: LineBuffer)
        ensures
            buf@ == Seq::<u8>::empty(),
    {
        LineBuffer { pending: Vec::new() }
    }

    /// Takes the next chunk of the stream and returns the lines that it
    /// completes, in order, each with its newline; the bytes after the last
    /// newline stay in the buffer.
    pub fn push_chunk(&mut self, chunk: Vec<u8>) -> (lines: Vec<Vec<u8>>)
        ensures
            byte_views(lines@) == split_lines(old(self)@ + chunk@).0,
            final(self)@ == split_lines(old(self)@ + chunk@).1,
            !final(self)@.contains(NEWLINE),
    {
        let ghost stream = old(self)@ + chunk@;
        let mut data: Vec<u8> = Vec::new();
        let mut incoming = chunk;
        data.append(&mut self.pending);
        data.append(&mut incoming);
        let ghost all = data@;
        let mut lines: Vec<Vec<u8>> = Vec::new();
        let n = data.len();
        let mut i: usize = 0;
        let mut s: usize = 0;
        while i < n
            invariant
                n == data.len(),
                data@ == all,
                all == stream,
                stream == old(self)@ + chunk@,
                s <= i <= n,
                s == 0 ==> lines@.len() == 0,
                split_lines(all.take(i as int)).0 == byte_views(lines@),
                split_lines(all.take(i as int)).1 == all.subrange(s as int, i as int),
            decreases n - i,
        {
            assert(all.take(i + 1).drop_last() =~= all.take(i as int));
            assert(all.take(i + 1).last() == all[i as int]);
            if data[i] == NEWLINE {
                if s == 0 && i + 1 == n {
                    assert(all.take(i + 1) =~= all);
                    assert(all.subrange(0, i as int).push(NEWLINE) =~= all);
                    assert(split_lines(all).0 =~= Seq::<Seq<u8>>::empty().push(all));
                    assert(split_lines(all).1 =~= Seq::<u8>::empty());
                    let mut whole: Vec<Vec<u8>> = Vec::new();
                    whole.push(data);
                    assert(byte_views(whole@) =~= Seq::<Seq<u8>>::empty().push(all));
                    self.pending = Vec::new();
                    assert(self@ =~= Seq::<u8>::empty());
                    return whole;
                }
                let line = copy_range(data.as_slice(), s, i + 1);
                assert(all.subrange(s as int, i as int).push(NEWLINE) =~= line@);
                let ghost before = byte_views(lines@);
                lines.push(line);
                assert(byte_views(lines@) =~= before.push(line@));
                s = i + 1;
                assert(all.subrange(s as int, s as int) =~= Seq::<u8>::empty());
            } else {
                assert(all.subrange(s as int, i as int).push(data[i as int]) =~= all.subrange(
                    s as int,
                    i + 1,
                ));
            }
            i = i + 1;
        }
        assert(all.take(n as int) =~= all);
        proof {
            lemma_split_lines_shape(all);
        }
        self.pending = copy_range(data.as_slice(), s, n);
        lines
    }
}

/// A fresh copy of `data[from..to]`.
pub fn copy_range(data: &[u8], from: usize, to: usize) -> (out: Vec<u8>)
    requires
        from <= to <= data@.len(),
    ensures
        out@ == data@.subrange(from as int, to as int),
{
    let mut out: Vec<u8> = Vec::new();
    let mut k = from;
    while k < to
        invariant
            from <= k <= to <= data@.len(),
            out@ == data@.subrange(from as int, k as int),
        decreases to - k,
    {
        out.push(data[k]);
        k = k + 1;
        assert(out@ =~= data@.subrange(from as int, k as int));
    }
    out
}

} // verus!
