//! What the log of the serial line shows, stated of its lines.

use vstd::prelude::*;

use crate::drivers::serial;

verus! {

/// As many lines have ended as there are line feeds.
pub proof fn law_line_ends_are_counted(s: Seq<u8>)
    ensures
        serial::line_ends(s) == s.filter(|c: u8| c == 10).len(),
    decreases s.len(),
{
    reveal(Seq::filter);
    if s.len() > 0 {
        law_line_ends_are_counted(s.drop_last());
    }
}

/// The line ends of a text are those of its parts.
pub proof fn law_line_ends_add_up(a: Seq<u8>, b: Seq<u8>)
    ensures
        serial::line_ends(a + b) == serial::line_ends(a) + serial::line_ends(b),
    decreases b.len(),
{
    if b.len() == 0 {
        assert(a + b =~= a);
    } else {
        law_line_ends_add_up(a, b.drop_last());
        assert((a + b).drop_last() =~= a + b.drop_last());
    }
}

proof fn lemma_behind_line_end(s: Seq<u8>, n: int)
    requires
        0 <= n < serial::line_ends(s),
    ensures
        serial::behind_line_end(s, n) matches Some(i) && 0 < i <= s.len() && s[i - 1] == 10
            && serial::line_ends(s.take(i)) == n + 1,
    decreases s.len(),
{
    let less = s.drop_last();
    if n < serial::line_ends(less) {
        lemma_behind_line_end(less, n);
        let i = serial::behind_line_end(less, n)->0;
        assert(less.take(i) =~= s.take(i));
    } else {
        lemma_none_behind(less, n);
        assert(s.take(s.len() as int) =~= s);
    }
}

proof fn lemma_none_behind(s: Seq<u8>, n: int)
    requires
        serial::line_ends(s) <= n,
    ensures
        serial::behind_line_end(s, n) is None,
    decreases s.len(),
{
    if s.len() > 0 {
        lemma_none_behind(s.drop_last(), n);
    }
}

/// The last lines of a log begin at the beginning of a line, and are as many as are wanted; a
/// log that has no more than that is shown from its beginning.
pub proof fn law_last_lines(s: Seq<u8>, max: int)
    requires
        1 <= max,
    ensures
        serial::lines(s) <= max ==> serial::last_lines(s, max) == 0,
        serial::lines(s) > max ==> ({
            let start = serial::last_lines(s, max);
            &&& 0 < start <= s.len()
            &&& s[start - 1] == 10
            &&& serial::lines(s.skip(start)) == max
        }),
{
    if serial::lines(s) > max {
        let n = serial::lines(s) - max - 1;
        lemma_behind_line_end(s, n);
        let i = serial::last_lines(s, max);
        assert(s =~= s.take(i) + s.skip(i));
        law_line_ends_add_up(s.take(i), s.skip(i));
        if i == s.len() {
            assert(s.take(i) =~= s);
        } else {
            assert(s.skip(i).last() == s.last());
        }
    }
}

/// A line is what stands up to the next line feed; where one is found, none stands before it.
pub proof fn law_next_line(s: Seq<u8>, from: int)
    requires
        0 <= from,
    ensures
        serial::next_line(s, from) matches Some(i) ==> from < i <= s.len() && s[i - 1] == 10 && (
        forall|j: int| from <= j < i - 1 ==> #[trigger] s[j] != 10),
        serial::next_line(s, from) is None ==> forall|j: int|
            from <= j < s.len() ==> #[trigger] s[j] != 10,
    decreases s.len() - from,
{
    if from < s.len() && s[from] != 10 {
        law_next_line(s, from + 1);
    }
}

/// The number that hexadecimal digits make.
pub open spec fn number_of(digits: Seq<u8>) -> int
    decreases digits.len(),
{
    if digits.len() == 0 {
        0
    } else {
        let d = digits.last() as int;
        16 * number_of(digits.drop_last()) + (if d >= 97 {
            d - 97 + 10
        } else {
            d - 48
        })
    }
}

/// The hexadecimal digits of a number make the number, are digits or the letters from `a` to
/// `f`, and begin with no zero that is not the only one.
pub proof fn law_hex(n: int)
    requires
        0 <= n,
    ensures
        number_of(serial::hex(n)) == n,
        serial::hex(n).len() > 0,
        n > 0 ==> serial::hex(n)[0] != 48,
        forall|i: int| #![trigger serial::hex(n)[i]]
            0 <= i < serial::hex(n).len() ==> 48 <= serial::hex(n)[i] <= 57 || 97 <= serial::hex(
                n,
            )[i] <= 102,
    decreases n,
{
    let h = serial::hex(n);
    if n >= 16 {
        law_hex(n / 16);
        assert(h.drop_last() =~= serial::hex(n / 16));
        assert(h[0] == serial::hex(n / 16)[0]);
        assert forall|i: int| #![trigger serial::hex(n)[i]] 0 <= i < h.len() implies 48 <= h[i]
            <= 57 || 97 <= h[i] <= 102 by {
            if i < h.len() - 1 {
                assert(h[i] == serial::hex(n / 16)[i]);
            }
        }
    } else {
        assert(h.drop_last() =~= Seq::empty());
        assert(number_of(h.drop_last()) == 0);
    }
}

/// The prefix names the processor: `[CPU(`, its number, `)]` and a space.
pub proof fn law_prefix(cpu: u32)
    ensures
        serial::prefix(cpu) == seq![0x5Bu8, 0x43, 0x50, 0x55, 0x28] + crate::text::decimal(
            cpu as int,
        ) + seq![0x29u8, 0x5D, 0x20],
{
}

/// Every line gets a prefix where it begins: what follows a line feed is put out as a line of
/// its own.
pub proof fn law_lines_are_prefixed(a: Seq<u8>, b: Seq<u8>, starts: bool, cpu: Option<u32>)
    requires
        a.len() > 0,
    ensures
        serial::prefixed(a + b, starts, cpu) == serial::prefixed(a, starts, cpu) + serial::prefixed(
            b,
            a.last() == 10,
            cpu,
        ),
    decreases b.len(),
{
    if b.len() == 0 {
        assert(a + b =~= a);
        assert(serial::prefixed(a, starts, cpu) + serial::prefixed(b, a.last() == 10, cpu)
            =~= serial::prefixed(a, starts, cpu));
    } else {
        let less = b.drop_last();
        law_lines_are_prefixed(a, less, starts, cpu);
        assert((a + b).drop_last() =~= a + less);
        let all = a + b;
        if b.len() == 1 {
            assert(all[all.len() - 2] == a.last());
        } else {
            assert(all[all.len() - 2] == b[b.len() - 2]);
        }
        assert(serial::prefixed(all, starts, cpu) =~= serial::prefixed(a, starts, cpu)
            + serial::prefixed(b, a.last() == 10, cpu));
    }
}

/// A line without a line feed in it is put out behind its prefix where it begins a line, and
/// as it is where it does not, or where the processor is not known.
pub proof fn law_one_line(line: Seq<u8>, starts: bool, cpu: Option<u32>)
    requires
        line.len() > 0,
        forall|i: int| 0 <= i < line.len() - 1 ==> #[trigger] line[i] != 10,
    ensures
        starts && cpu is Some ==> serial::prefixed(line, starts, cpu) == serial::prefix(cpu->0)
            + line,
        !starts || cpu is None ==> serial::prefixed(line, starts, cpu) == line,
    decreases line.len(),
{
    let less = line.drop_last();
    if less.len() > 0 {
        law_one_line(less, starts, cpu);
        assert(line[line.len() - 2] != 10);
    } else {
        assert(serial::prefixed(less, starts, cpu) =~= Seq::empty());
    }
    assert(line =~= less.push(line.last()));
    if starts && cpu is Some {
        assert(serial::prefixed(line, starts, cpu) =~= serial::prefix(cpu->0) + line);
    } else {
        assert(serial::prefixed(line, starts, cpu) =~= line);
    }
}

/// Eight KiB of what was sent are kept, and no dump shows more than one KiB.
pub proof fn law_sizes_of_the_log()
    ensures
        crate::drivers::serial::CAPTURE_RING_CAP == 8 * 1024,
        crate::drivers::serial::DUMP_LIMIT == 1024,
        crate::drivers::serial::NL == 10,
{
}

} // verus!
