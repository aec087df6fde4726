//! The I/O a session runs with.

use vstd::prelude::*;

verus! {

/// I/O backing for one session.
pub enum Io {
    /// In-memory buffers: `input` is consumed from `in_cursor` on, and
    /// `output` collects what is written.
    Buffered { input: Vec<u8>, in_cursor: usize, pending_key: Option<u8>, output: Vec<u8> },
    /// The process's standard input and output.
    Live { pending_key: Option<u8> },
}

impl Io {
    /// Empty in-memory buffers.
    pub fn new_buffered() -> (io: Io)
        ensures
            io matches Io::Buffered { input, in_cursor, pending_key, output } && input@.len() == 0
                && in_cursor == 0 && pending_key is None && output@.len() == 0,
    {
        Io::Buffered { input: Vec::new(), in_cursor: 0, pending_key: None, output: Vec::new() }
    }
}

/// The slot holding the I/O of the session being evaluated, if any.
pub struct IoSlot {
    pub current: Option<Io>,
}

/// `f`, run on a slot holding `io`, may return `r` and leave the slot
/// holding `io_after`.
pub open spec fn ran_with<R, F: FnOnce(IoSlot) -> (R, IoSlot)>(f: F, io: Io, r: R, io_after: Io) -> bool {
    exists|s2: IoSlot|
        #[trigger] f.ensures((IoSlot { current: Some(io) },), (r, s2)) && s2.current == Some(io_after)
}

/// Installs `io` as the current I/O, runs `f` on the slot holding it, and
/// restores what the slot held before; returns the result of `f` and the
/// I/O as `f` left it.
pub fn with_io<R, F: FnOnce(IoSlot) -> (R, IoSlot)>(slot: &mut IoSlot, io: Io, f: F) -> (res: (
    R,
    Io,
))
    requires
        f.requires((IoSlot { current: Some(io) },)),
        forall|s: IoSlot, out: (R, IoSlot)| #[trigger] f.ensures((s,), out) ==> out.1.current is Some,
    ensures
        final(slot).current == old(slot).current,
        ran_with(f, io, res.0, res.1),
{
    let prev = slot.current.take();
    let ghost arg = IoSlot { current: Some(io) };
    let (r, after) = f(IoSlot { current: Some(io) });
    let ghost after_g = after;
    let io_after = match after.current {
        Some(x) => x,
        None => {
            proof {
                assert(false);
            }
            Io::new_buffered()
        },
    };
    slot.current = prev;
    proof {
        assert(f.ensures((arg,), (r, after_g)) && after_g.current == Some(io_after));
        assert(ran_with(f, io, r, io_after));
    }
    (r, io_after)
}


/// What reading a line gives: end of input, the bytes copied with the
/// length the kernel sees (a trailing carriage return not counted), or a
/// request to read a line from the process's standard input.
pub enum LineRead {
    Eof,
    Line { bytes: Vec<u8>, count: usize },
    Live,
}

/// What reading a key returns, and the I/O it leaves.
pub open spec fn read_key_spec(io: Io) -> (KeyRead, Io) {
    match io {
        Io::Buffered { input, in_cursor, pending_key, output } => match pending_key {
            Some(b) => (
                KeyRead::Value(b as u64),
                Io::Buffered { input, in_cursor, pending_key: None, output },
            ),
            None => if in_cursor >= input@.len() {
                (KeyRead::Value(0), io)
            } else {
                (
                    KeyRead::Value(input@[in_cursor as int] as u64),
                    Io::Buffered { input, in_cursor: (in_cursor + 1) as usize, pending_key, output },
                )
            },
        },
        Io::Live { pending_key } => match pending_key {
            Some(b) => (KeyRead::Value(b as u64), Io::Live { pending_key: None }),
            None => (KeyRead::Live, io),
        },
    }
}

/// What asking whether a key is ready returns, and the I/O it leaves.
pub open spec fn key_q_spec(io: Io) -> (KeyRead, Io) {
    match io {
        Io::Buffered { input, in_cursor, pending_key, output } => if pending_key is Some {
            (KeyRead::Value(u64::MAX), io)
        } else if in_cursor >= input@.len() {
            (KeyRead::Value(0), io)
        } else {
            (
                KeyRead::Value(u64::MAX),
                Io::Buffered {
                    input,
                    in_cursor: (in_cursor + 1) as usize,
                    pending_key: Some(input@[in_cursor as int]),
                    output,
                },
            )
        },
        Io::Live { pending_key } => if pending_key is Some {
            (KeyRead::Value(u64::MAX), io)
        } else {
            (KeyRead::Live, io)
        },
    }
}

/// Asking whether a key is ready does not change what the next key read
/// returns, nor the I/O it leaves (unless the answer must come from the
/// console, which the caller polls).
pub proof fn key_q_then_read_key(io: Io)
    requires
        !(key_q_spec(io).0 is Live),
    ensures
        read_key_spec(key_q_spec(io).1) == read_key_spec(io),
{
}

/// A console key taken by [`Io::accept_polled_key`] is the next key read.
pub proof fn polled_key_is_read_next(w: u16)
    requires
        w <= 0xFF,
    ensures
        read_key_spec(Io::Live { pending_key: Some(w as u8) }) == (
            KeyRead::Value(w as u64),
            Io::Live { pending_key: None },
        ),
{
}

/// What reading a key gives: a key code (0 at end of input), or a request
/// to read from standard input.
pub enum KeyRead {
    Value(u64),
    Live,
}

/// Index of the first line feed at or after `from`.
pub open spec fn first_lf(input: Seq<u8>, from: int) -> Option<int>
    decreases input.len() - from,
{
    if from < 0 || from >= input.len() {
        None
    } else if input[from] == 10 {
        Some(from)
    } else {
        first_lf(input, from + 1)
    }
}

proof fn lemma_first_lf(input: Seq<u8>, from: int)
    requires
        0 <= from,
    ensures
        first_lf(input, from) matches Some(i) ==> from <= i < input.len() && input[i] == 10,
    decreases input.len() - from,
{
    if from < input.len() && input[from] != 10 {
        lemma_first_lf(input, from + 1);
    }
}

/// A buffered line read at `cursor` with room for `cap` bytes: the bytes
/// copied (up to the line feed or the end of input, at most `cap`), the
/// count without a trailing carriage return, and the new cursor (past the
/// line feed, if there was one).
pub open spec fn buffered_line(input: Seq<u8>, cursor: int, cap: int) -> (Seq<u8>, int, int) {
    let lf = first_lf(input, cursor);
    let line_end = match lf {
        Some(i) => i,
        None => input.len() as int,
    };
    let n = if line_end - cursor < cap {
        line_end - cursor
    } else {
        cap
    };
    let bytes = input.subrange(cursor, cursor + n);
    let count = if n > 0 && bytes[n - 1] == 13 {
        n - 1
    } else {
        n
    };
    (
        bytes,
        count,
        match lf {
            Some(i) => i + 1,
            None => line_end,
        },
    )
}

/// A line read from standard input: without its line feed and then
/// without a carriage return, cut to `cap` bytes.
pub open spec fn live_line_spec(line: Seq<u8>, cap: int) -> Seq<u8> {
    let a = if line.len() > 0 && line.last() == 10 {
        line.drop_last()
    } else {
        line
    };
    let b = if a.len() > 0 && a.last() == 13 {
        a.drop_last()
    } else {
        a
    };
    if b.len() < cap {
        b
    } else {
        b.take(cap)
    }
}

/// The bytes of a line read from standard input that the kernel receives.
pub fn live_line(line: &[u8], cap: usize) -> (r: Vec<u8>)
    ensures
        r@ == live_line_spec(line@, cap as int),
{
    let mut len = line.len();
    if len > 0 && line[len - 1] == 10 {
        len = len - 1;
    }
    let ghost a = line@.take(len as int);
    if len > 0 && line[len - 1] == 13 {
        len = len - 1;
    }
    let n = if len < cap {
        len
    } else {
        cap
    };
    let mut r: Vec<u8> = Vec::new();
    let mut i: usize = 0;
    while i < n
        invariant
            i <= n,
            n <= len,
            len <= line@.len(),
            r@ == line@.take(i as int),
        decreases n - i,
    {
        r.push(line[i]);
        proof {
            assert(line@.take(i + 1) =~= line@.take(i as int).push(line@[i as int]));
        }
        i = i + 1;
    }
    proof {
        let l = line@;
        let a2 = if l.len() > 0 && l.last() == 10 { l.drop_last() } else { l };
        let b2 = if a2.len() > 0 && a2.last() == 13 { a2.drop_last() } else { a2 };
        assert(b2 =~= l.take(len as int));
        assert(r@ =~= live_line_spec(l, cap as int));
    }
    r
}

/// `after` is `before` with `bytes` added to its buffered output; live
/// I/O is left as it is.
pub open spec fn written(before: Io, after: Io, bytes: Seq<u8>) -> bool {
    match (before, after) {
        (
            Io::Buffered { input, in_cursor, pending_key, output },
            Io::Buffered { input: i2, in_cursor: c2, pending_key: p2, output: o2 },
        ) => o2@ == output@ + bytes && i2 == input && c2 == in_cursor && p2 == pending_key,
        (Io::Live { .. }, _) => after == before,
        _ => false,
    }
}

impl Io {
    pub open spec fn is_buffered(&self) -> bool {
        self is Buffered
    }

    /// Reads one line with room for `cap` bytes. With no room, nothing is
    /// read: an empty line while input remains, end of input otherwise.
    pub fn read_line(&mut self, cap: usize) -> (r: LineRead)
        ensures
            cap == 0 ==> *final(self) == *old(self) && match *old(self) {
                Io::Buffered { input, in_cursor, .. } => if in_cursor >= input@.len() {
                    r is Eof
                } else {
                    r matches LineRead::Line { bytes: b, count: c } && b@.len() == 0 && c == 0
                },
                Io::Live { .. } => r matches LineRead::Line { bytes: b, count: c } && b@.len()
                    == 0 && c == 0,
            },
            cap > 0 ==> match *old(self) {
                Io::Buffered { input, in_cursor, pending_key, output } => if in_cursor >= input@.len() {
                    r is Eof && *final(self) == *old(self)
                } else {
                    let (bytes, count, cur) = buffered_line(input@, in_cursor as int, cap as int);
                    r matches LineRead::Line { bytes: b, count: c } && b@ == bytes && c == count
                        && *final(self) == (Io::Buffered {
                        input,
                        in_cursor: cur as usize,
                        pending_key,
                        output,
                    })
                },
                Io::Live { .. } => r is Live && *final(self) == *old(self),
            },
    {
        if cap == 0 {
            return match self {
                Io::Buffered { input, in_cursor, .. } => if *in_cursor >= input.len() {
                    LineRead::Eof
                } else {
                    LineRead::Line { bytes: Vec::new(), count: 0 }
                },
                Io::Live { .. } => LineRead::Line { bytes: Vec::new(), count: 0 },
            };
        }
        match self {
            Io::Buffered { input, in_cursor, .. } => {
                let len = input.len();
                if *in_cursor >= len {
                    return LineRead::Eof;
                }
                let start = *in_cursor;
                let mut j = start;
                proof {
                    lemma_first_lf(input@, start as int);
                }
                while j < len && input[j] != 10
                    invariant
                        start <= j <= len,
                        len == input@.len(),
                        first_lf(input@, j as int) == first_lf(input@, start as int),
                    decreases len - j,
                {
                    j = j + 1;
                }
                let found = j < len;
                let line_end = j;
                let n = if line_end - start < cap {
                    line_end - start
                } else {
                    cap
                };
                let mut bytes: Vec<u8> = Vec::new();
                let mut k: usize = 0;
                while k < n
                    invariant
                        k <= n,
                        start + n <= len,
                        len == input@.len(),
                        bytes@ == input@.subrange(start as int, start + k),
                    decreases n - k,
                {
                    bytes.push(input[start + k]);
                    proof {
                        assert(input@.subrange(start as int, start + k + 1) =~= input@.subrange(
                            start as int,
                            start + k,
                        ).push(input@[start + k]));
                    }
                    k = k + 1;
                }
                *in_cursor = if found {
                    line_end + 1
                } else {
                    line_end
                };
                let count = if n > 0 && bytes[n - 1] == 13 {
                    n - 1
                } else {
                    n
                };
                LineRead::Line { bytes, count }
            },
            Io::Live { .. } => LineRead::Live,
        }
    }

    /// Reads one key: a key held back by [`Io::key_q`] first.
    pub fn read_key(&mut self) -> (r: KeyRead)
        ensures
            (r, *final(self)) == read_key_spec(*old(self)),
    {
        match self {
            Io::Buffered { input, in_cursor, pending_key, .. } => {
                if let Some(b) = pending_key.take() {
                    return KeyRead::Value(b as u64);
                }
                if *in_cursor >= input.len() {
                    return KeyRead::Value(0);
                }
                let b = input[*in_cursor];
                *in_cursor = *in_cursor + 1;
                KeyRead::Value(b as u64)
            },
            Io::Live { pending_key } => {
                if let Some(b) = pending_key.take() {
                    return KeyRead::Value(b as u64);
                }
                KeyRead::Live
            },
        }
    }

    /// Whether a key is ready (`u64::MAX`) or not (0); a buffered key is
    /// taken from the input and held for [`Io::read_key`].
    pub fn key_q(&mut self) -> (r: KeyRead)
        ensures
            (r, *final(self)) == key_q_spec(*old(self)),
    {
        match self {
            Io::Buffered { input, in_cursor, pending_key, .. } => {
                if pending_key.is_some() {
                    return KeyRead::Value(u64::MAX);
                }
                if *in_cursor >= input.len() {
                    return KeyRead::Value(0);
                }
                *pending_key = Some(input[*in_cursor]);
                *in_cursor = *in_cursor + 1;
                KeyRead::Value(u64::MAX)
            },
            Io::Live { pending_key } => {
                if pending_key.is_some() {
                    return KeyRead::Value(u64::MAX);
                }
                KeyRead::Live
            },
        }
    }

    /// Takes the answer of polling the console: a key of at most 0xFF is
    /// held for [`Io::read_key`] and reported ready.
    pub fn accept_polled_key(&mut self, wide: Option<u16>) -> (r: u64)
        ensures
            match (wide, *old(self)) {
                (Some(w), Io::Live { .. }) => if w <= 0xFF {
                    r == u64::MAX && *final(self) == (Io::Live { pending_key: Some(w as u8) })
                } else {
                    r == 0 && *final(self) == *old(self)
                },
                _ => r == 0 && *final(self) == *old(self),
            },
    {
        match (wide, self) {
            (Some(w), Io::Live { pending_key }) => {
                if w <= 0xFF {
                    *pending_key = Some(w as u8);
                    u64::MAX
                } else {
                    0
                }
            },
            _ => 0,
        }
    }

    /// Writes to the buffered output; false for live output, which the
    /// caller writes to standard output.
    pub fn write_bytes(&mut self, bytes: &[u8]) -> (buffered: bool)
        ensures
            buffered == old(self).is_buffered(),
            written(*old(self), *final(self), bytes@),
    {
        match self {
            Io::Buffered { output, .. } => {
                let mut i: usize = 0;
                let ghost o0 = output@;
                while i < bytes.len()
                    invariant
                        i <= bytes@.len(),
                        output@ == o0 + bytes@.take(i as int),
                    decreases bytes@.len() - i,
                {
                    output.push(bytes[i]);
                    proof {
                        assert(bytes@.take(i + 1) =~= bytes@.take(i as int).push(bytes@[i as int]));
                    }
                    i = i + 1;
                }
                proof {
                    assert(bytes@.take(bytes@.len() as int) =~= bytes@);
                }
                true
            },
            Io::Live { .. } => false,
        }
    }

    /// Moves the buffered input cursor past `n` more bytes; nothing for
    /// live input.
    pub fn advance_io_cursor(&mut self, n: usize)
        requires
            *old(self) matches Io::Buffered { in_cursor, .. } ==> in_cursor + n <= usize::MAX,
        ensures
            match *old(self) {
                Io::Buffered { input, in_cursor, pending_key, output } => *final(self) == (
                Io::Buffered { input, in_cursor: (in_cursor + n) as usize, pending_key, output }),
                Io::Live { .. } => *final(self) == *old(self),
            },
    {
        match self {
            Io::Buffered { in_cursor, .. } => {
                *in_cursor = *in_cursor + n;
            },
            Io::Live { .. } => {},
        }
    }
}

/// Drops every compiled LET module of the session.
pub fn reset_let_session<J>(let_jits: &mut Vec<J>)
    ensures
        final(let_jits)@.len() == 0,
{
    let_jits.clear();
}

/// Drops every compiled CODE: module of the session.
pub fn reset_code_session<J>(code_jits: &mut Vec<J>)
    ensures
        final(code_jits)@.len() == 0,
{
    code_jits.clear();
}

} // verus!
