//! Serial output: what goes to the port, and a log of all of it.
//!
//! Every byte that goes out is also kept in a log, so that the history can be read
//! back. Before there is a heap the log is a ring of fixed size; afterwards it
//! grows, and nothing is lost any more.

use crate::text::decimal_digits;
use vstd::prelude::*;
use vstd::utf8;

verus! {

/// Bytes that the log keeps while it is a ring.
pub const CAPTURE_RING_CAP: usize = 8192;

/// Bytes that a dump of the last lines has, at most.
pub const DUMP_LIMIT: usize = 1024;

pub const NL: u8 = 10;

/// The log of what went out.
pub struct CaptureLog {
    ring: Vec<u8>,
    /// The oldest byte of a full ring.
    ring_pos: usize,
    vec: Vec<u8>,
    growable: bool,
}

impl View for CaptureLog {
    type V = Seq<u8>;

    /// The bytes that are kept, the oldest first.
    closed spec fn view(&self) -> Seq<u8> {
        if self.growable {
            self.vec@
        } else {
            self.ring@.skip(self.ring_pos as int) + self.ring@.take(self.ring_pos as int)
        }
    }
}

/// The log `s` with `c` behind it. One that does not grow drops its oldest byte
/// where it is full.
pub open spec fn logged(s: Seq<u8>, grows: bool, c: u8) -> Seq<u8> {
    if !grows && s.len() >= CAPTURE_RING_CAP {
        s.skip(1).push(c)
    } else {
        s.push(c)
    }
}

/// The log with all of `bytes` behind it.
pub open spec fn logged_all(s: Seq<u8>, grows: bool, bytes: Seq<u8>) -> Seq<u8>
    decreases bytes.len(),
{
    if bytes.len() == 0 {
        s
    } else {
        logged(logged_all(s, grows, bytes.drop_last()), grows, bytes.last())
    }
}

impl CaptureLog {
    pub closed spec fn inv(self) -> bool {
        &&& self.ring@.len() <= CAPTURE_RING_CAP
        &&& self.ring_pos < CAPTURE_RING_CAP
        &&& self.ring@.len() < CAPTURE_RING_CAP ==> self.ring_pos == 0
        &&& !self.growable ==> self.vec@.len() == 0
    }

    pub closed spec fn grows(self) -> bool {
        self.growable
    }

    pub fn new() -> (r: Self)
        ensures
            r.inv(),
            !r.grows(),
            r@ == Seq::<u8>::empty(),
    {
        let r = CaptureLog { ring: Vec::new(), ring_pos: 0, vec: Vec::new(), growable: false };
        assert(r@ =~= Seq::<u8>::empty());
        r
    }

    /// Keeps a byte. A ring that is full drops its oldest one.
    pub fn push(&mut self, c: u8)
        requires
            old(self).inv(),
        ensures
            final(self).inv(),
            final(self).grows() == old(self).grows(),
            final(self)@ == logged(old(self)@, old(self).grows(), c),
    {
        if self.growable {
            self.vec.push(c);
        } else if self.ring.len() == CAPTURE_RING_CAP {
            self.ring.set(self.ring_pos, c);
            self.ring_pos = if self.ring_pos + 1 == CAPTURE_RING_CAP {
                0
            } else {
                self.ring_pos + 1
            };
            assert(self@ =~= logged(old(self)@, false, c));
        } else {
            self.ring.push(c);
            assert(self@ =~= logged(old(self)@, false, c));
        }
    }

    fn push_all(&mut self, bytes: &[u8])
        requires
            old(self).inv(),
        ensures
            final(self).inv(),
            final(self).grows() == old(self).grows(),
            final(self)@ == logged_all(old(self)@, old(self).grows(), bytes@),
    {
        assert(bytes@.len() == bytes.len());
        let mut i: usize = 0;
        assert(bytes@.take(0) =~= Seq::<u8>::empty());
        while i < bytes.len()
            invariant
                bytes@.len() == bytes.len(),
                i <= bytes@.len(),
                self.inv(),
                self.grows() == old(self).grows(),
                self@ == logged_all(old(self)@, old(self).grows(), bytes@.take(i as int)),
            decreases bytes@.len() - i,
        {
            assert(bytes@.take(i + 1).drop_last() =~= bytes@.take(i as int));
            self.push(bytes[i]);
            i = i + 1;
        }
        assert(bytes@.take(i as int) =~= bytes@);
    }

    fn len(&self) -> (r: usize)
        requires
            self.inv(),
        ensures
            r == self@.len(),
    {
        if self.growable {
            self.vec.len()
        } else {
            self.ring.len()
        }
    }

    fn at(&self, i: usize) -> (r: u8)
        requires
            self.inv(),
            i < self@.len(),
        ensures
            r == self@[i as int],
    {
        if self.growable {
            self.vec[i]
        } else if i < self.ring.len() - self.ring_pos {
            self.ring[self.ring_pos + i]
        } else {
            self.ring[i - (self.ring.len() - self.ring_pos)]
        }
    }

    /// Moves the ring into the log that grows, once and for all: a log that grows is left
    /// alone.
    pub fn switch_to_growable(&mut self)
        requires
            old(self).inv(),
        ensures
            final(self).inv(),
            final(self).grows(),
            final(self)@ == old(self)@,
            old(self).grows() ==> *final(self) == *old(self),
    {
        if self.growable {
            return;
        }
        let mut out: Vec<u8> = Vec::new();
        self.capture_bytes(&mut out);
        assert(out@ =~= self@);
        self.vec = out;
        self.ring = Vec::new();
        self.ring_pos = 0;
        self.growable = true;
    }

    /// Appends all that the log keeps to `out`, the oldest byte first.
    pub fn capture_bytes(&self, out: &mut Vec<u8>)
        requires
            self.inv(),
        ensures
            final(out)@ == old(out)@ + self@,
    {
        let n: usize = self.len();
        let mut i: usize = 0;
        assert(old(out)@ + self@.take(0) =~= old(out)@);
        while i < n
            invariant
                self.inv(),
                n == self@.len(),
                i <= n,
                out@ == old(out)@ + self@.take(i as int),
            decreases n - i,
        {
            let c: u8 = self.at(i);
            let ghost before = out@;
            out.push(c);
            assert(out@ =~= old(out)@ + self@.take(i + 1));
            i = i + 1;
        }
        assert(self@.take(n as int) =~= self@);
    }
}

/// What is logged behind the log does not get lost in a log that grows.
pub proof fn law_growing_log_keeps_all(s: Seq<u8>, bytes: Seq<u8>)
    ensures
        logged_all(s, true, bytes) == s + bytes,
    decreases bytes.len(),
{
    if bytes.len() > 0 {
        law_growing_log_keeps_all(s, bytes.drop_last());
        assert(bytes.drop_last().push(bytes.last()) =~= bytes);
        assert((s + bytes.drop_last()).push(bytes.last()) =~= s + bytes);
    } else {
        assert(s + bytes =~= s);
    }
}

/// A ring keeps the last bytes, as many as it has room for.
pub proof fn law_ring_keeps_the_last(s: Seq<u8>, bytes: Seq<u8>)
    requires
        s.len() <= CAPTURE_RING_CAP,
    ensures
        ({
            let all = s + bytes;
            let from = if all.len() > CAPTURE_RING_CAP {
                all.len() - CAPTURE_RING_CAP
            } else {
                0
            };
            logged_all(s, false, bytes) == all.skip(from)
        }),
    decreases bytes.len(),
{
    let all = s + bytes;
    if bytes.len() > 0 {
        law_ring_keeps_the_last(s, bytes.drop_last());
        let before = s + bytes.drop_last();
        assert(before.push(bytes.last()) =~= all);
        let from = if before.len() > CAPTURE_RING_CAP {
            before.len() - CAPTURE_RING_CAP
        } else {
            0
        };
        let kept = before.skip(from);
        if kept.len() >= CAPTURE_RING_CAP {
            assert(kept.skip(1).push(bytes.last()) =~= all.skip(from + 1));
        } else {
            assert(kept.push(bytes.last()) =~= all.skip(from));
        }
    } else {
        assert(all =~= s);
        assert(all.skip(0) =~= s);
    }
}

/// How many line ends there are.
pub open spec fn line_ends(s: Seq<u8>) -> nat
    decreases s.len(),
{
    if s.len() == 0 {
        0
    } else {
        line_ends(s.drop_last()) + if s.last() == NL {
            1nat
        } else {
            0
        }
    }
}

/// The place behind line end number `n`, if there are as many.
pub open spec fn behind_line_end(s: Seq<u8>, n: int) -> Option<int>
    decreases s.len(),
{
    if s.len() == 0 {
        None
    } else {
        match behind_line_end(s.drop_last(), n) {
            Some(i) => Some(i),
            None => if s.last() == NL && line_ends(s.drop_last()) == n {
                Some(s.len() as int)
            } else {
                None
            },
        }
    }
}

/// The last line has no end yet.
pub open spec fn is_open(s: Seq<u8>) -> bool {
    s.len() > 0 && s.last() != NL
}

/// How many lines there are; one that has no end yet counts.
pub open spec fn lines(s: Seq<u8>) -> int {
    line_ends(s) + if is_open(s) {
        1int
    } else {
        0
    }
}

/// Where the last `max` lines start.
pub open spec fn last_lines(s: Seq<u8>, max: int) -> int {
    if lines(s) <= max {
        0
    } else {
        match behind_line_end(s, lines(s) - max - 1) {
            Some(i) => i,
            None => s.len() as int,
        }
    }
}

/// The first place behind a line end that ends at `from` or later.
pub open spec fn next_line(s: Seq<u8>, from: int) -> Option<int>
    decreases s.len() - from,
{
    if from >= s.len() {
        None
    } else if s[from] == NL {
        Some(from + 1)
    } else {
        next_line(s, from + 1)
    }
}

/// Bytes of the log that a dump may show: so many that, with the line end that it
/// closes with, the limit holds.
pub open spec fn dump_room(s: Seq<u8>) -> int {
    if is_open(s) {
        DUMP_LIMIT - 1
    } else {
        DUMP_LIMIT as int
    }
}

/// Where a dump of the last `max` lines starts. One that would be too long starts
/// later, with a whole line if there is one.
pub open spec fn dump_start(s: Seq<u8>, max: int) -> int {
    let start = last_lines(s, max);
    if s.len() - start <= dump_room(s) {
        start
    } else {
        match next_line(s, s.len() - dump_room(s)) {
            Some(i) => i,
            None => s.len() - dump_room(s),
        }
    }
}

/// The text of a dump of the last `max` lines.
pub open spec fn dump_text(s: Seq<u8>, max: int) -> Seq<char> {
    let part = s.skip(dump_start(s, max));
    if part.len() == 0 {
        Seq::empty()
    } else {
        (if utf8::valid_utf8(part) {
            utf8::decode_utf8(part)
        } else {
            "<non-utf8 log>\n"@
        }) + (if is_open(part) {
            "\n"@
        } else {
            Seq::empty()
        })
    }
}

proof fn lemma_line_ends(s: Seq<u8>, i: int)
    requires
        0 <= i <= s.len(),
    ensures
        line_ends(s.take(i)) <= line_ends(s),
        line_ends(s) <= s.len(),
    decreases s.len(),
{
    if i < s.len() {
        lemma_line_ends(s.drop_last(), i);
        assert(s.drop_last().take(i) =~= s.take(i));
    } else {
        assert(s.take(i) =~= s);
        if s.len() > 0 {
            lemma_line_ends(s.drop_last(), s.len() - 1);
        }
    }
}

/// A line end that was found stays found.
proof fn lemma_behind(s: Seq<u8>, n: int, i: int)
    requires
        0 <= i <= s.len(),
        behind_line_end(s.take(i), n) is Some,
    ensures
        behind_line_end(s, n) == behind_line_end(s.take(i), n),
    decreases s.len() - i,
{
    if i < s.len() {
        assert(s.take(i + 1).drop_last() =~= s.take(i));
        lemma_behind(s, n, i + 1);
    } else {
        assert(s.take(i) =~= s);
    }
}

proof fn lemma_next_line(s: Seq<u8>, from: int)
    requires
        0 <= from,
    ensures
        next_line(s, from) matches Some(i) ==> from < i <= s.len(),
    decreases s.len() - from,
{
    if from < s.len() && s[from] != NL {
        lemma_next_line(s, from + 1);
    }
}

proof fn lemma_behind_bound(s: Seq<u8>, n: int)
    ensures
        behind_line_end(s, n) matches Some(i) ==> 0 < i <= s.len(),
    decreases s.len(),
{
    if s.len() > 0 {
        lemma_behind_bound(s.drop_last(), n);
    }
}

/// A dump starts within the log, and what it shows, with the line end behind it,
/// keeps to the limit.
pub proof fn law_dump_is_bounded(s: Seq<u8>, max: int)
    requires
        max >= 0,
    ensures
        0 <= dump_start(s, max) <= s.len(),
        s.len() - dump_start(s, max) + (if is_open(s) {
            1int
        } else {
            0
        }) <= DUMP_LIMIT || dump_start(s, max) == s.len(),
{
    lemma_behind_bound(s, lines(s) - max - 1);
    if s.len() - last_lines(s, max) > dump_room(s) {
        lemma_next_line(s, s.len() - dump_room(s));
    }
}

impl CaptureLog {
    fn count_line_ends(&self) -> (r: usize)
        requires
            self.inv(),
        ensures
            r == line_ends(self@),
            r <= self@.len(),
    {
        let n: usize = self.len();
        let mut k: usize = 0;
        let mut i: usize = 0;
        assert(self@.take(0) =~= Seq::<u8>::empty());
        while i < n
            invariant
                self.inv(),
                n == self@.len(),
                i <= n,
                k <= i,
                k == line_ends(self@.take(i as int)),
            decreases n - i,
        {
            assert(self@.take(i + 1).drop_last() =~= self@.take(i as int));
            if self.at(i) == NL {
                k = k + 1;
            }
            i = i + 1;
        }
        assert(self@.take(n as int) =~= self@);
        k
    }

    fn find_line_end(&self, target: usize) -> (r: Option<usize>)
        requires
            self.inv(),
        ensures
            match behind_line_end(self@, target as int) {
                Some(i) => r == Some(i as usize) && i <= usize::MAX,
                None => r is None,
            },
    {
        let n: usize = self.len();
        let mut k: usize = 0;
        let mut i: usize = 0;
        assert(self@.take(0) =~= Seq::<u8>::empty());
        while i < n
            invariant
                self.inv(),
                n == self@.len(),
                i <= n,
                k <= i,
                k == line_ends(self@.take(i as int)),
                behind_line_end(self@.take(i as int), target as int) is None,
            decreases n - i,
        {
            assert(self@.take(i + 1).drop_last() =~= self@.take(i as int));
            if self.at(i) == NL {
                if k == target {
                    proof {
                        lemma_behind(self@, target as int, i + 1);
                    }
                    return Some(i + 1);
                }
                k = k + 1;
            }
            i = i + 1;
        }
        assert(self@.take(n as int) =~= self@);
        None
    }

    fn find_next_line(&self, from: usize) -> (r: Option<usize>)
        requires
            self.inv(),
        ensures
            match next_line(self@, from as int) {
                Some(i) => r == Some(i as usize) && i <= self@.len(),
                None => r is None,
            },
    {
        let n: usize = self.len();
        let mut i: usize = from;
        while i < n
            invariant
                self.inv(),
                n == self@.len(),
                next_line(self@, from as int) == next_line(self@, i as int),
            decreases n - i,
        {
            if self.at(i) == NL {
                return Some(i + 1);
            }
            i = i + 1;
        }
        None
    }

    fn find_dump_start(&self, max_lines: usize) -> (r: usize)
        requires
            self.inv(),
        ensures
            r == dump_start(self@, max_lines as int),
            r <= self@.len(),
    {
        let n: usize = self.len();
        if n == 0 {
            assert(self@ =~= Seq::<u8>::empty());
            return 0;
        }
        proof {
            law_dump_is_bounded(self@, max_lines as int);
        }
        let open: bool = self.at(n - 1) != NL;
        let ends: usize = self.count_line_ends();
        let extra: usize = if open {
            1
        } else {
            0
        };
        let mut start: usize = 0;
        if ends > max_lines || (ends == max_lines && open) {
            let target: usize = if open {
                ends - max_lines
            } else {
                ends - max_lines - 1
            };
            assert(target == lines(self@) - max_lines - 1);
            proof {
                lemma_behind_bound(self@, target as int);
            }
            start = match self.find_line_end(target) {
                Some(i) => i,
                None => n,
            };
        }
        assert(start == last_lines(self@, max_lines as int));
        let room: usize = DUMP_LIMIT - extra;
        if n - start > room {
            match self.find_next_line(n - room) {
                Some(i) => i,
                None => n - room,
            }
        } else {
            start
        }
    }

    /// The text of the last `max_lines` lines of the log, closed with a line end.
    pub fn dump_last_lines(&self, max_lines: usize) -> (r: String)
        requires
            self.inv(),
        ensures
            r@ == dump_text(self@, max_lines as int),
    {
        let start: usize = self.find_dump_start(max_lines);
        let n: usize = self.len();
        let mut part: Vec<u8> = Vec::new();
        let mut i: usize = start;
        while i < n
            invariant
                self.inv(),
                n == self@.len(),
                start <= i <= n,
                part@ == self@.subrange(start as int, i as int),
            decreases n - i,
        {
            part.push(self.at(i));
            assert(part@ =~= self@.subrange(start as int, i + 1));
            i = i + 1;
        }
        assert(part@ =~= self@.skip(start as int));
        if part.len() == 0 {
            let empty: Vec<char> = Vec::new();
            let s: String = crate::text::from_chars(&empty);
            assert(s@ =~= Seq::<char>::empty());
            return s;
        }
        let text: String = match crate::text::from_bytes(&part) {
            Some(s) => s,
            None => "<non-utf8 log>\n".to_string(),
        };
        if part[part.len() - 1] != NL {
            let mut chars: Vec<char> = crate::text::chars_of(text.as_str());
            chars.push('\n');
            proof {
                reveal_strlit("\n");
            }
            let closed: String = crate::text::from_chars(&chars);
            assert(closed@ =~= text@ + "\n"@);
            closed
        } else {
            assert(text@ + Seq::<char>::empty() =~= text@);
            text
        }
    }
}

/// Appends the text of the last `max_lines` lines of the log to `w`, at most as many bytes as
/// the limit allows, and tells whether the log could be had. There is none where it is in use
/// elsewhere, and then nothing is written.
pub fn try_dump_last_lines(log: Option<&CaptureLog>, w: &mut String, max_lines: usize) -> (r: bool)
    requires
        log matches Some(l) ==> l.inv(),
    ensures
        r == (log is Some),
        final(w)@ == old(w)@ + match log {
            Some(l) => dump_text(l@, max_lines as int),
            None => Seq::<char>::empty(),
        },
{
    match log {
        None => {
            assert(w@ + Seq::<char>::empty() =~= w@);
            false
        },
        Some(l) => {
            let text: String = l.dump_last_lines(max_lines);
            w.append(text.as_str());
            true
        },
    }
}

/// The bytes of two texts are those of the one and then those of the other.
proof fn lemma_encode_append(a: Seq<char>, b: Seq<char>)
    ensures
        utf8::encode_utf8(a + b) == utf8::encode_utf8(a) + utf8::encode_utf8(b),
    decreases a.len(),
{
    let ab = a + b;
    if a.len() == 0 {
        assert(ab =~= b);
        assert(utf8::encode_utf8(a) + utf8::encode_utf8(b) =~= utf8::encode_utf8(b));
    } else {
        lemma_encode_append(a.drop_first(), b);
        assert(ab.drop_first() =~= a.drop_first() + b);
        assert(utf8::encode_utf8(ab) =~= utf8::encode_utf8(a) + utf8::encode_utf8(b));
    }
}

/// A character takes four bytes at most.
proof fn lemma_encode_len(a: Seq<char>)
    ensures
        utf8::encode_utf8(a).len() <= 4 * a.len(),
    decreases a.len(),
{
    if a.len() > 0 {
        lemma_encode_len(a.drop_first());
    }
}

/// A dump writes no more bytes than the limit, whatever the log holds.
pub proof fn law_dump_keeps_to_the_limit(s: Seq<u8>, max: int)
    requires
        max >= 0,
    ensures
        utf8::encode_utf8(dump_text(s, max)).len() <= DUMP_LIMIT,
{
    law_dump_is_bounded(s, max);
    let part = s.skip(dump_start(s, max));
    if part.len() == 0 {
        lemma_encode_len(Seq::empty());
    } else {
        let text = if utf8::valid_utf8(part) {
            utf8::decode_utf8(part)
        } else {
            "<non-utf8 log>\n"@
        };
        let end = if is_open(part) {
            "\n"@
        } else {
            Seq::<char>::empty()
        };
        reveal_strlit("\n");
        reveal_strlit("<non-utf8 log>\n");
        assert(part.last() == s.last());
        lemma_encode_append(text, end);
        if utf8::valid_utf8(part) {
            utf8::decode_utf8_encode_utf8(part);
        } else {
            lemma_encode_len(text);
        }
        if is_open(part) {
            assert(end.drop_first() =~= Seq::<char>::empty());
            lemma_encode_len(end.drop_first());
            assert(utf8::encode_utf8(end).len() == 1) by {
                reveal_with_fuel(utf8::encode_utf8, 2);
            }
        } else {
            lemma_encode_len(end);
        }
    }
}

/// The hexadecimal digit of a number below 16.
pub open spec fn hex_digit(d: int) -> u8 {
    if d < 10 {
        (48 + d) as u8
    } else {
        (87 + d) as u8
    }
}

/// The hexadecimal digits of a number, as characters of ASCII.
pub open spec fn hex(n: int) -> Seq<u8>
    decreases n,
{
    if n < 16 {
        seq![hex_digit(n)]
    } else {
        hex(n / 16).push(hex_digit(n % 16))
    }
}

/// What stands before each line that processor `cpu` puts out.
pub open spec fn prefix(cpu: u32) -> Seq<u8> {
    seq![91u8, 67u8, 80u8, 85u8, 40u8] + crate::text::decimal(cpu as int) + seq![41u8, 93u8, 32u8]
}

/// `bytes` with the prefix before each line. `starts` says that they start at the
/// beginning of a line. While it is not known which processor this is, there is no
/// prefix.
pub open spec fn prefixed(bytes: Seq<u8>, starts: bool, cpu: Option<u32>) -> Seq<u8>
    decreases bytes.len(),
{
    if bytes.len() == 0 {
        Seq::empty()
    } else {
        let before = prefixed(bytes.drop_last(), starts, cpu);
        let at_start = if bytes.len() == 1 {
            starts
        } else {
            bytes[bytes.len() - 2] == NL
        };
        let p = if at_start && cpu is Some {
            prefix(cpu->0)
        } else {
            Seq::empty()
        };
        (before + p).push(bytes.last())
    }
}

fn hex_digits(n: u64) -> (r: Vec<u8>)
    ensures
        r@ == hex(n as int),
    decreases n,
{
    let d: u8 = (n % 16) as u8;
    let digit: u8 = if d < 10 {
        48 + d
    } else {
        87 + d
    };
    let mut out: Vec<u8> = if n < 16 {
        Vec::new()
    } else {
        hex_digits(n / 16)
    };
    out.push(digit);
    assert(out@ =~= hex(n as int));
    out
}

fn push_prefix(out: &mut Vec<u8>, cpu: u32)
    ensures
        final(out)@ == old(out)@ + prefix(cpu),
{
    let ghost before = out@;
    out.push(91);
    out.push(67);
    out.push(80);
    out.push(85);
    out.push(40);
    let mut digits: Vec<u8> = decimal_digits(cpu as u64);
    out.append(&mut digits);
    out.push(41);
    out.push(93);
    out.push(32);
    assert(out@ =~= before + prefix(cpu));
}

/// The port: the log of what went out, and whether the last byte of it was a line
/// end. What a method returns is what goes to the hardware.
pub struct SerialPort {
    pub log: CaptureLog,
    pub last_was_nl: bool,
}

impl SerialPort {
    pub open spec fn inv(self) -> bool {
        self.log.inv()
    }

    /// `bytes` have gone out and have been logged.
    pub open spec fn sent(self, after: Self, bytes: Seq<u8>) -> bool {
        &&& after.inv()
        &&& after.log.grows() == self.log.grows()
        &&& after.log@ == logged_all(self.log@, self.log.grows(), bytes)
    }

    pub fn new() -> (r: Self)
        ensures
            r.inv(),
            r.log@ == Seq::<u8>::empty(),
            !r.log.grows(),
            r.last_was_nl,
    {
        SerialPort { log: CaptureLog::new(), last_was_nl: true }
    }

    /// One byte, without a prefix.
    pub fn putc(&mut self, c: u8) -> (r: Vec<u8>)
        requires
            old(self).inv(),
        ensures
            r@ == seq![c],
            old(self).sent(*final(self), r@),
            final(self).last_was_nl == (c == NL),
    {
        let mut out: Vec<u8> = Vec::new();
        out.push(c);
        assert(out@ =~= seq![c]);
        self.log.push_all(&out);
        self.last_was_nl = c == NL;
        out
    }

    /// A text, with the prefix of processor `cpu` before each line.
    pub fn puts(&mut self, s: &str, cpu: Option<u32>) -> (r: Vec<u8>)
        requires
            old(self).inv(),
        ensures
            r@ == prefixed(utf8::encode_utf8(s@), old(self).last_was_nl, cpu),
            old(self).sent(*final(self), r@),
            final(self).last_was_nl == (if utf8::encode_utf8(s@).len() == 0 {
                old(self).last_was_nl
            } else {
                utf8::encode_utf8(s@).last() == NL
            }),
    {
        let bytes: &[u8] = s.as_bytes();
        assert(bytes@.len() == bytes.len());
        let starts: bool = self.last_was_nl;
        let mut out: Vec<u8> = Vec::new();
        let mut at_start: bool = starts;
        let mut i: usize = 0;
        assert(bytes@.take(0) =~= Seq::<u8>::empty());
        assert(out@ =~= Seq::<u8>::empty());
        while i < bytes.len()
            invariant
                bytes@.len() == bytes.len(),
                i <= bytes@.len(),
                out@ == prefixed(bytes@.take(i as int), starts, cpu),
                at_start == (if i == 0 {
                    starts
                } else {
                    bytes@[i - 1] == NL
                }),
            decreases bytes@.len() - i,
        {
            let ghost before = out@;
            let ghost upto = bytes@.take(i + 1);
            assert(upto.drop_last() =~= bytes@.take(i as int));
            if at_start {
                if let Some(c) = cpu {
                    push_prefix(&mut out, c);
                }
            }
            assert(!(at_start && cpu is Some) ==> out@ =~= before + Seq::<u8>::empty());
            out.push(bytes[i]);
            at_start = bytes[i] == NL;
            i = i + 1;
        }
        assert(bytes@.take(i as int) =~= bytes@);
        self.log.push_all(&out);
        self.last_was_nl = at_start;
        out
    }

    /// A number in hexadecimal, without a prefix.
    pub fn put_hex(&mut self, val: u64) -> (r: Vec<u8>)
        requires
            old(self).inv(),
        ensures
            r@ == hex(val as int),
            old(self).sent(*final(self), r@),
            final(self).last_was_nl == old(self).last_was_nl,
    {
        let out: Vec<u8> = hex_digits(val);
        self.log.push_all(&out);
        out
    }

    /// A number in decimal, without a prefix.
    pub fn put_u64(&mut self, val: u64) -> (r: Vec<u8>)
        requires
            old(self).inv(),
        ensures
            r@ == crate::text::decimal(val as int),
            old(self).sent(*final(self), r@),
            final(self).last_was_nl == old(self).last_was_nl,
    {
        let out: Vec<u8> = decimal_digits(val);
        self.log.push_all(&out);
        out
    }
}

/// One byte for the hardware, past the log.
pub fn dump_putc(c: u8) -> (r: Vec<u8>)
    ensures
        r@ == seq![c],
{
    let mut out: Vec<u8> = Vec::new();
    out.push(c);
    assert(out@ =~= seq![c]);
    out
}

/// A text for the hardware, past the log.
pub fn dump_puts(s: &str) -> (r: Vec<u8>)
    ensures
        r@ == utf8::encode_utf8(s@),
{
    let b: &[u8] = s.as_bytes();
    assert(b@.len() == b.len());
    let v: Vec<u8> = crate::bytes::sub_vec(b, 0, b.len());
    assert(v@ =~= b@);
    v
}

/// A number in hexadecimal for the hardware, past the log.
pub fn dump_put_hex(val: u64) -> (r: Vec<u8>)
    ensures
        r@ == hex(val as int),
{
    hex_digits(val)
}

/// A number in decimal for the hardware, past the log.
pub fn dump_put_u64(val: u64) -> (r: Vec<u8>)
    ensures
        r@ == crate::text::decimal(val as int),
{
    decimal_digits(val)
}

} // verus!
