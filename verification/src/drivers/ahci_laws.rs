//! What the plain AHCI driver asks of the machine, and in which order.

use vstd::prelude::*;

use crate::blockdriver::ahci::command;
use crate::blockdriver::ahci::controller::PciDevice;
use crate::blockdriver::ahci::laws::{lemma_page_and_offset, piece_end, piece_start, translated};
use crate::blockdriver::ahci::port;
use crate::drivers::ahci;
use crate::drivers::ahci::{Action, Command, Disk, DiskError, DiskView};
use crate::layout;
use crate::layout::holds_low_first;
use crate::replay::Run;

verus! {

/// The frame of a command is one from the host to the disk that carries a command. It has the
/// command, the sector and the count: with long numbers 40 bits of the sector and 16 of the
/// count, and else 32 and 8, low byte first. The rest of it is zero.
pub proof fn law_frame(long: bool, lba: u64, count: u32, cmd: u8)
    requires
        long ==> lba < 0x100_0000_0000 && count < 0x1_0000,
        !long ==> lba < 0x1_0000_0000 && count < 0x100,
    ensures
        ({
            let f = ahci::frame(long, lba, count, cmd);
            &&& f.len() == 20
            &&& f[0] == 0x27
            &&& f[1] == 0x80
            &&& f[2] == cmd
            &&& f[7] == (if long {
                0x40u8
            } else {
                0xE0u8
            })
            &&& holds_low_first(seq![f[4], f[5], f[6], f[8], f[9], f[10]], 0, 6, lba as int)
            &&& holds_low_first(seq![f[11], f[12]], 0, 2, count as int)
            &&& f[3] == 0 && f[13] == 0 && f[14] == 0 && f[15] == 0
            &&& f[16] == 0 && f[17] == 0 && f[18] == 0 && f[19] == 0
        }),
{
    let f = ahci::frame(long, lba, count, cmd);
    layout::lemma_powers();
    layout::lemma_first_bytes(lba as int);
    layout::lemma_first_bytes(count as int);
    let s = seq![f[4], f[5], f[6], f[8], f[9], f[10]];
    assert forall|j: nat| j < 6 implies s[0int + j] == #[trigger] layout::byte_of(lba as int, j) by {
        assert(j == 0 || j == 1 || j == 2 || j == 3 || j == 4 || j == 5);
    }
    let c = seq![f[11], f[12]];
    assert forall|j: nat| j < 2 implies c[0int + j] == #[trigger] layout::byte_of(count as int, j) by {
        assert(j == 0 || j == 1);
    }
}

/// The bytes of a frame are written one after the other.
pub proof fn law_frame_is_written(r: Seq<u64>, p: int, bytes: Seq<u8>, i: int, k: int)
    requires
        0 <= p,
        0 <= i,
        0 <= k,
        i + k <= bytes.len() <= 20,
    ensures
        r.len() == p + k && i + k < bytes.len() ==> ahci::fis_written(r, p, bytes, i) == Run::<
            Action,
            (),
        >::Wants(Action::WriteFis((i + k) as u32, bytes[i + k])),
        r.len() >= p + k && i + k == bytes.len() ==> ahci::fis_written(r, p, bytes, i) == Run::<
            Action,
            (),
        >::Gives((), p + k),
    decreases k,
{
    if k > 0 {
        law_frame_is_written(r, p + 1, bytes, i + 1, k - 1);
    }
}

/// The regions of a command are the memory of the caller, cut at the ends of pages: for each
/// piece its page is translated, and then a region is written with the address that came back,
/// the offset in the page, and the length of the piece.
pub proof fn law_regions_are_the_memory(
    r: Seq<u64>,
    p: int,
    va: u64,
    len: int,
    n: int,
    max: int,
    k: int,
)
    requires
        0 <= p,
        0 <= n,
        0 < len,
        va + len <= u64::MAX,
        0 <= k,
        n + k < max <= 0x1_0000,
        piece_start(va as int, k) < va + len,
        translated(r, p, k),
    ensures
        r.len() == p + 2 * k ==> ahci::prdt_built(r, p, va, len, n, max) == Run::<
            Action,
            Result<usize, DiskError>,
        >::Wants(
            Action::Translate((piece_start(va as int, k) - piece_start(va as int, k) % 4096) as u64),
        ),
        r.len() == p + 2 * k + 1 && r[p + 2 * k] >= 1 && (r[p + 2 * k] - 1) % 4096 == 0 ==> (
        ahci::prdt_built(r, p, va, len, n, max) matches Run::Wants(Action::WritePrd(i, e)) && i == n
            + k && e.dba + 0x1_0000_0000 * e.dbau == r[p + 2 * k] - 1 + piece_start(va as int, k)
            % 4096 && e.dbc + 1 == piece_end(va as int, len, k) - piece_start(va as int, k)),
    decreases k,
{
    let c = port::chunk_at(va, len);
    if k == 0 {
        assert(piece_end(va as int, len, 0) == va + c);
        if r.len() == p + 1 && r[p + 2 * 0] >= 1 && (r[p + 2 * 0] - 1) % 4096 == 0 {
            let page = (r[p] - 1) as u64;
            lemma_page_and_offset(page, va % 4096);
        }
    } else {
        assert(piece_start(va as int, 1) <= piece_start(va as int, k));
        assert(len > 4096 - va as int % 4096);
        if r.len() >= p + 2 {
            assert(r[p + 2 * 0] >= 1);
            let next = va.wrapping_add(c as u64);
            assert(next == va + c);
            assert((va + c) / 4096 == va as int / 4096 + 1);
            assert(translated(r, p + 2, k - 1)) by {
                assert forall|j: int| #![trigger r[p + 2 + 2 * j]]
                    0 <= j < k - 1 implies r[p + 2 + 2 * j] >= 1 && (r[p + 2 + 2 * j] - 1) % 4096
                    == 0 by {
                    assert(r[p + 2 * (j + 1)] >= 1);
                    assert(p + 2 * (j + 1) == p + 2 + 2 * j);
                }
            }
            assert(piece_start(next as int, k - 1) == piece_start(va as int, k));
            assert(piece_end(next as int, len - c, k - 1) == piece_end(va as int, len, k));
            law_regions_are_the_memory(r, p + 2, next, len - c, n + 1, max, k - 1);
            assert(p + 2 + 2 * (k - 1) == p + 2 * k);
        }
    }
}

/// Memory that needs more regions than there are is refused; nothing is started.
pub proof fn law_too_many_regions(r: Seq<u64>, p: int, va: u64, len: int, max: int)
    requires
        0 < len,
    ensures
        ahci::prdt_built(r, p, va, len, max, max) == Run::<Action, Result<usize, DiskError>>::Gives(
            Err(DiskError::PrdtExhausted),
            p,
        ),
{
}

/// A command through the scratch page is built and started in order: interrupts are
/// acknowledged, the command is cleared, the twenty bytes of its frame are written, then its
/// one region, which is the scratch page, then its header, and last it is started.
pub proof fn law_command_is_run(d: Disk, r: Seq<u64>, p: int, c: Command, k: int)
    requires
        0 <= p <= r.len(),
        0 <= k < 20,
        c.buf_vaddr == 0,
        0 < c.count <= 8,
        d.cl_paddr <= u64::MAX - 0x100,
    ensures
        ({
            let run = d.command_run(r, p, c);
            let f = ahci::frame(
                d.lba48,
                c.lba,
                c.count,
                if c.is_write {
                    0x35
                } else {
                    0x25
                },
            );
            &&& r.len() == p ==> run == Run::<Action, Result<(), DiskError>>::Wants(
                Action::Write(0x10, 0xFFFF_FFFF),
            )
            &&& r.len() == p + 1 ==> run == Run::<Action, Result<(), DiskError>>::Wants(
                Action::ClearCommand,
            )
            &&& r.len() == p + 2 + k ==> run == Run::<Action, Result<(), DiskError>>::Wants(
                Action::WriteFis(k as u32, f[k]),
            )
            &&& r.len() == p + 22 ==> (run matches Run::Wants(Action::WritePrd(i, e)) && i == 0
                && e.dba + 0x1_0000_0000 * e.dbau == d.scratch_paddr && e.dbc + 1 == c.count * 512)
            &&& r.len() == p + 23 ==> (run matches Run::Wants(Action::WriteHeader(w, table))
                && table == d.cl_paddr + 0x100 && w as int % 32 == 5 && (w as int / 128 % 2 == 1)
                == c.is_write && w / 0x1_0000 == 1)
            &&& r.len() == p + 24 ==> run == Run::<Action, Result<(), DiskError>>::Wants(
                Action::Fence,
            )
            &&& r.len() == p + 25 ==> run == Run::<Action, Result<(), DiskError>>::Wants(
                Action::Write(0x38, 1),
            )
            &&& r.len() == p + 26 ==> run == Run::<Action, Result<(), DiskError>>::Wants(
                Action::AwaitCommand,
            )
        }),
{
    let f = ahci::frame(
        d.lba48,
        c.lba,
        c.count,
        if c.is_write {
            0x35
        } else {
            0x25
        },
    );
    assert(f.len() == 20);
    if r.len() >= p + 2 {
        law_frame_is_written(r, p + 2, f, 0, k);
        law_frame_is_written(r, p + 2, f, 0, 20);
    }
}

/// A command succeeds where it came to its end and the disk does not report an error, in bit 8
/// of its status; it has failed where the disk does, and timed out where it did not end.
pub proof fn law_end_of_a_command(r: Seq<u64>, p: int)
    requires
        0 <= p,
        p + 2 <= r.len(),
        r[p + 1] < 0x1_0000_0000,
    ensures
        r[p] == 0 ==> ahci::command_awaited(r, p) == Run::<Action, Result<(), DiskError>>::Gives(
            Err(DiskError::TimedOut),
            p + 1,
        ),
        r[p] != 0 && r[p + 1] as int / 0x100 % 2 == 0 ==> ahci::command_awaited(r, p) == Run::<
            Action,
            Result<(), DiskError>,
        >::Gives(Ok(()), p + 2),
        r[p] != 0 && r[p + 1] as int / 0x100 % 2 == 1 ==> ahci::command_awaited(r, p) == Run::<
            Action,
            Result<(), DiskError>,
        >::Gives(Err(DiskError::CmdError), p + 2),
{
    let t = ahci::reg(r[p + 1]);
    assert((t & 0x0100u32 != 0) == (t / 0x100u32 % 2 == 1)) by (bit_vector);
}

/// A command that did not succeed is tried once more, behind a reset of the port, but where
/// its memory cannot be described.
pub proof fn law_command_is_tried_again(d: Disk, r: Seq<u64>, p: int, c: Command, q: int)
    requires
        0 <= p < r.len(),
        p + 1 <= q <= r.len(),
    ensures
        ({
            let first = d.command_run(r, p + 1, c);
            &&& first == Run::<Action, Result<(), DiskError>>::Gives(Ok(()), q) ==> d.issued(r, p, c)
                == first
            &&& first == Run::<Action, Result<(), DiskError>>::Gives(
                Err(DiskError::TranslateFail),
                q,
            ) ==> d.issued(r, p, c) == first
            &&& (first == Run::<Action, Result<(), DiskError>>::Gives(Err(DiskError::TimedOut), q)
                || first == Run::<Action, Result<(), DiskError>>::Gives(
                Err(DiskError::CmdError),
                q,
            )) && r.len() == q ==> d.issued(r, p, c) == Run::<
                Action,
                Result<(), DiskError>,
            >::Wants(Action::Read(0x18))
        }),
{
}

/// Where a transfer straight to the memory fails and the scratch page can hold it, it goes
/// through the scratch page: a write fills the page first, and a read empties it at the end.
pub proof fn law_scratch_page_is_used(d: Disk, r: Seq<u64>, c: Command, len: u64, e: DiskError, q: int)
    requires
        0 < c.count,
        c.count * 512 <= len,
        0 <= q,
        d.issued(r, 0, c) == Run::<Action, Result<(), DiskError>>::Gives(Err(e), q),
    ensures
        c.is_write && c.count <= 8 && r.len() == q ==> d.sectors_written(
            r,
            c.lba,
            c.count,
            c.buf_vaddr,
            len,
        ) == Run::<Action, Result<(), DiskError>>::Wants(
            Action::FillScratch((c.count * 512) as u64),
        ),
        c.is_write && c.count > 8 ==> d.sectors_written(r, c.lba, c.count, c.buf_vaddr, len)
            == Run::<Action, Result<(), DiskError>>::Gives(Err(DiskError::TooManySectors), q),
        !c.is_write && c.count > 8 ==> d.sectors_read(r, c.lba, c.count, c.buf_vaddr, len)
            == Run::<Action, Result<(), DiskError>>::Gives(Err(DiskError::TooManySectors), q),
        !c.is_write && c.count <= 8 ==> (d.issued(
            r,
            q,
            Command { lba: c.lba, count: c.count, buf_vaddr: 0, is_write: false },
        ) matches Run::Gives(Ok(_), n) && n == r.len() ==> d.sectors_read(
            r,
            c.lba,
            c.count,
            c.buf_vaddr,
            len,
        ) == Run::<Action, Result<(), DiskError>>::Wants(
            Action::DrainScratch((c.count * 512) as u64),
        )),
{
    let direct = Command {
        lba: c.lba,
        count: c.count,
        buf_vaddr: c.buf_vaddr,
        is_write: c.is_write,
    };
    assert(direct == c);
}

/// Memory that is too short for the sectors is refused before anything is asked.
pub proof fn law_short_memory(d: Disk, r: Seq<u64>, lba: u64, count: u32, va: u64, len: u64)
    requires
        len < count * 512,
    ensures
        d.sectors_read(r, lba, count, va, len) == Run::<Action, Result<(), DiskError>>::Gives(
            Err(DiskError::BufferTooSmall),
            0,
        ),
        d.sectors_written(r, lba, count, va, len) == Run::<Action, Result<(), DiskError>>::Gives(
            Err(DiskError::BufferTooSmall),
            0,
        ),
{
}

/// The address of a controller's registers: the lowest four bits of the sixth register say
/// what it is and are left out, and where it has 64 bits, the fifth has the upper half.
pub proof fn law_register_address(bar4: u32, bar5: u32)
    ensures
        ahci::bar_ok(bar5) <==> bar5 as int % 4 == 0,
        bar5 as int % 8 == 0 ==> ahci::bar_base(bar4, bar5) == bar5 - bar5 as int % 16,
        bar5 as int % 8 == 4 ==> ahci::bar_base(bar4, bar5) == bar5 - bar5 as int % 16
            + 0x1_0000_0000 * bar4,
{
    assert((bar5 & 1 == 0 && (bar5 & 0x06 == 0 || bar5 & 0x06 == 4)) == (bar5 % 4 == 0) && (bar5 % 8
        == 0 ==> bar5 & 0x06 == 0) && (bar5 % 8 == 4 ==> bar5 & 0x06 == 4) && (bar5 & 0xFFFF_FFF0)
        == bar5 - bar5 % 16) by (bit_vector);
    let (h, l) = (bar4 as u64, bar5 as u64);
    assert(h <= 0xFFFF_FFFF && l <= 0xFFFF_FFFF ==> (l & 0xFFFF_FFF0) | (h << 32) == l - l % 16 + h
        * 0x1_0000_0000) by (bit_vector);
}

/// The controller that is found is the first AHCI controller: a mass storage device, serial,
/// with the interface of AHCI.
pub proof fn law_first_controller(devs: Seq<PciDevice>, k: int)
    requires
        0 <= k < devs.len(),
        devs[k].class == 1,
        devs[k].subclass == 6,
        devs[k].prog_if == 1,
        forall|i: int|
            0 <= i < k ==> (#[trigger] devs[i]).class != 1 || devs[i].subclass != 6
                || devs[i].prog_if != 1,
    ensures
        ahci::first_controller(devs) == Some(k),
    decreases devs.len(),
{
    let less = devs.drop_last();
    if k < devs.len() - 1 {
        law_first_controller(less, k);
    } else {
        assert forall|i: int| 0 <= i < less.len() implies (#[trigger] less[i]).class != 1
            || less[i].subclass != 6 || less[i].prog_if != 1 by {
            assert(less[i] == devs[i]);
        }
        lemma_no_controller(less);
    }
}

proof fn lemma_no_controller(devs: Seq<PciDevice>)
    requires
        forall|i: int|
            0 <= i < devs.len() ==> (#[trigger] devs[i]).class != 1 || devs[i].subclass != 6
                || devs[i].prog_if != 1,
    ensures
        ahci::first_controller(devs) is None,
    decreases devs.len(),
{
    if devs.len() > 0 {
        let less = devs.drop_last();
        assert(devs[devs.len() - 1] == devs.last());
        assert forall|i: int| 0 <= i < less.len() implies (#[trigger] less[i]).class != 1
            || less[i].subclass != 6 || less[i].prog_if != 1 by {
            assert(less[i] == devs[i]);
        }
        lemma_no_controller(less);
    }
}

/// A disk is on a port where the link is up and awake, 3 in its lowest four bits and 1 in its
/// third, and the signature is that of a disk.
pub proof fn law_disk_is_there(r: Seq<u64>, p: int)
    requires
        0 <= p,
        p + 2 <= r.len(),
        r[p] < 0x1_0000_0000,
        r[p + 1] < 0x1_0000_0000,
    ensures
        ahci::has_disk(r, p) matches Run::Gives(there, q) && (there <==> r[p] as int % 16 == 3
            && r[p] as int / 256 % 16 == 1 && r[p + 1] == 0x101),
{
    let s = ahci::reg(r[p]);
    assert((s & 0x0F) == s % 16 && ((s >> 8) & 0x0F) == s / 256 % 16) by (bit_vector);
}

/// Ports are tried in order, those that the controller has; the first with a disk that comes
/// up is taken.
pub proof fn law_first_port(
    r: Seq<u64>,
    p: int,
    ports: u32,
    i: int,
    k: int,
    n: int,
    q: int,
    d: DiskView,
    end: int,
)
    requires
        0 <= i <= k < n <= 32,
        0 <= p < r.len(),
        forall|j: int| i <= j < k ==> ports & (1u32 << (#[trigger] (j as u8))) == 0,
        ports & (1u32 << (k as u8)) != 0,
        ahci::has_disk(r, p + 1) == Run::<Action, bool>::Gives(true, q),
        ahci::port_brought_up(r, q, command::MAX_PRDT) == Run::<
            Action,
            Result<DiskView, DiskError>,
        >::Gives(Ok(d), end),
    ensures
        ahci::port_found(r, p, ports, i, n) == Run::<Action, Option<(u8, DiskView)>>::Gives(
            Some((k as u8, d)),
            end,
        ),
    decreases k - i,
{
    if i < k {
        assert(ports & (1u32 << (i as u8)) == 0);
        law_first_port(r, p, ports, i + 1, k, n, q, d, end);
    }
}

/// Registers are written one after the other.
pub proof fn law_registers_are_written(
    r: Seq<u64>,
    p: int,
    writes: Seq<(u32, u32)>,
    i: int,
    k: int,
)
    requires
        0 <= p,
        0 <= i,
        0 <= k,
        i + k <= writes.len(),
    ensures
        r.len() == p + k && i + k < writes.len() ==> ahci::registers_written(r, p, writes, i)
            == Run::<Action, ()>::Wants(Action::Write(writes[i + k].0, writes[i + k].1)),
        r.len() >= p + k && i + k == writes.len() ==> ahci::registers_written(r, p, writes, i)
            == Run::<Action, ()>::Gives((), p + k),
    decreases k,
{
    if k > 0 {
        law_registers_are_written(r, p + 1, writes, i + 1, k - 1);
    }
}

/// A port is reset in order: bits 0 and 4 of its command register go, and the rest of it
/// stays; bits 14 and 15 are awaited to go; the link is told to start over, by 1 in the lowest
/// four bits of its control, and after two milliseconds to go on, by 0 there; and where it
/// comes back, its errors and interrupts are acknowledged and both bits are set again.
pub proof fn law_port_is_reset(r: Seq<u64>, p: int)
    requires
        0 <= p <= r.len(),
    ensures
        ({
            let run = ahci::port_was_reset(r, p);
            &&& r.len() == p ==> run == Run::<Action, Result<(), DiskError>>::Wants(
                Action::Read(0x18),
            )
            &&& r.len() == p + 1 ==> (run matches Run::Wants(Action::Write(at, v)) && at == 0x18
                && r[p] as int % 0x1_0000_0000 - v == r[p] as int % 2 + 16 * (r[p] as int / 16 % 2))
            &&& r.len() == p + 2 ==> run == Run::<Action, Result<(), DiskError>>::Wants(
                Action::PollClear(0x18, 0xC000, 1000),
            )
            &&& r.len() == p + 3 ==> run == Run::<Action, Result<(), DiskError>>::Wants(
                Action::Read(0x2C),
            )
            &&& r.len() == p + 4 ==> (run matches Run::Wants(Action::Write(at, v)) && at == 0x2C
                && v == r[p + 3] as int % 0x1_0000_0000 - r[p + 3] as int % 16 + 1)
            &&& r.len() == p + 5 ==> run == Run::<Action, Result<(), DiskError>>::Wants(
                Action::Sleep(2),
            )
            &&& r.len() == p + 6 ==> (run matches Run::Wants(Action::Write(at, v)) && at == 0x2C
                && v == r[p + 3] as int % 0x1_0000_0000 - r[p + 3] as int % 16)
            &&& r.len() == p + 7 ==> run == Run::<Action, Result<(), DiskError>>::Wants(
                Action::AwaitLink,
            )
            &&& r.len() > p + 7 && r[p + 7] == 0 ==> run == Run::<
                Action,
                Result<(), DiskError>,
            >::Gives(Err(DiskError::ResetTimeout), p + 8)
            &&& r.len() == p + 8 && r[p + 7] != 0 ==> run == Run::<
                Action,
                Result<(), DiskError>,
            >::Wants(Action::Write(0x30, 0xFFFF_FFFF))
            &&& r.len() == p + 9 && r[p + 7] != 0 ==> run == Run::<
                Action,
                Result<(), DiskError>,
            >::Wants(Action::Write(0x10, 0xFFFF_FFFF))
            &&& r.len() == p + 10 && r[p + 7] != 0 ==> run == Run::<
                Action,
                Result<(), DiskError>,
            >::Wants(Action::Write(0x18, 0x11))
            &&& r.len() > p + 10 && r[p + 7] != 0 ==> run == Run::<
                Action,
                Result<(), DiskError>,
            >::Gives(Ok(()), p + 11)
        }),
{
    if r.len() > p {
        let c = ahci::reg(r[p]);
        assert(c - (c & !(0x0001u32 | 0x0010u32)) == c % 2 + 16 * (c / 16 % 2)) by (bit_vector);
        lemma_low_bits(r[p]);
    }
    assert(0x0011u32 == 0x0010u32 | 0x0001u32 && 0xC000u32 == 0x8000u32 | 0x4000u32)
        by (bit_vector);
    if r.len() > p + 3 {
        let s = ahci::reg(r[p + 3]);
        assert((s & !0x0Fu32) | 1 == s - s % 16 + 1 && s & !0x0Fu32 == s - s % 16) by (bit_vector);
        lemma_low_bits(r[p + 3]);
    }
    if r.len() >= p + 8 {
        law_registers_are_written(r, p + 8, ahci::revival(), 0, 0);
        if r.len() > p + 8 {
            law_registers_are_written(r, p + 8, ahci::revival(), 0, 1);
        }
        if r.len() > p + 9 {
            law_registers_are_written(r, p + 8, ahci::revival(), 0, 2);
        }
        if r.len() > p + 10 {
            law_registers_are_written(r, p + 8, ahci::revival(), 0, 3);
        }
    }
}

proof fn lemma_low_bits(v: u64)
    ensures
        ahci::reg(v) == v as int % 0x1_0000_0000,
        ahci::reg(v) as int % 2 == v as int % 2,
        ahci::reg(v) as int % 16 == v as int % 16,
        ahci::reg(v) as int / 16 % 2 == v as int / 16 % 2,
{
    let l = v as int % 0x1_0000_0000;
    let h = v as int / 0x1_0000_0000;
    assert(v == l + 0x1_0000_0000 * h);
    assert(v as int / 16 == l / 16 + 0x1000_0000 * h);
}

/// What is written to a port before it starts: the halves of the addresses of its lists and of
/// its scratch page, all bits to what is to be acknowledged, no interrupts, and power and
/// spin-up, in bits 1 and 2 of the command register.
pub proof fn law_port_is_programmed(lists: u64, scratch: u64)
    ensures
        ({
            let w = ahci::programming(lists, scratch);
            &&& w.len() == 8
            &&& w[0].0 == 0x00 && w[1].0 == 0x04 && w[0].1 + 0x1_0000_0000 * w[1].1 == lists
            &&& w[2].0 == 0x08 && w[3].0 == 0x0C && w[2].1 + 0x1_0000_0000 * w[3].1 == scratch
            &&& w[4] == (0x10u32, 0xFFFF_FFFFu32)
            &&& w[5] == (0x30u32, 0xFFFF_FFFFu32)
            &&& w[6] == (0x14u32, 0u32)
            &&& w[7] == (0x18u32, 0x06u32)
        }),
{
    assert(0x06u32 == 0x02u32 | 0x04u32) by (bit_vector);
}

/// The controller is reset by bit 0 of its control, and once that has gone it is switched to
/// AHCI by bit 31.
pub proof fn law_controller_is_reset(r: Seq<u64>, p: int)
    requires
        0 <= p <= r.len(),
    ensures
        ({
            let run = ahci::hba_reset(r, p);
            &&& r.len() == p ==> run == Run::<Action, bool>::Wants(Action::WriteHba(0x04, 1))
            &&& r.len() == p + 1 ==> run == Run::<Action, bool>::Wants(
                Action::PollHbaClear(0x04, 1, 1000),
            )
            &&& r.len() == p + 2 ==> run == Run::<Action, bool>::Wants(Action::ReadHba(0x04))
            &&& r.len() > p + 2 && r[p + 2] as int % 2 == 1 ==> run == Run::<Action, bool>::Gives(
                false,
                p + 3,
            )
            &&& r.len() == p + 3 && r[p + 2] as int % 2 == 0 ==> run == Run::<Action, bool>::Wants(
                Action::ReadHba(0x04),
            )
            &&& r.len() == p + 4 && r[p + 2] as int % 2 == 0 ==> (run matches Run::Wants(
                Action::WriteHba(at, v),
            ) && at == 0x04 && v >= 0x8000_0000 && v as int % 0x8000_0000 == r[p + 3] as int
                % 0x8000_0000)
            &&& r.len() > p + 4 && r[p + 2] as int % 2 == 0 ==> run == Run::<Action, bool>::Gives(
                true,
                p + 5,
            )
        }),
{
    if r.len() > p + 2 {
        let v = ahci::reg(r[p + 2]);
        lemma_low_bits(r[p + 2]);
        assert((v & 1 != 0) == (v % 2 == 1)) by (bit_vector);
    }
    if r.len() > p + 3 {
        let g = ahci::reg(r[p + 3]);
        assert((g | 0x8000_0000u32) >= 0x8000_0000 && (g | 0x8000_0000u32) % 0x8000_0000 == g
            % 0x8000_0000) by (bit_vector);
        let l = r[p + 3] as int % 0x1_0000_0000;
        assert(r[p + 3] as int == l + 0x8000_0000 * (2 * (r[p + 3] as int / 0x1_0000_0000)));
        assert(r[p + 3] as int % 0x8000_0000 == l % 0x8000_0000);
    }
}

/// A disk is asked who it is by the command for that, its answer of 512 bytes going to the
/// scratch page.
pub proof fn law_disk_is_asked(r: Seq<u64>, p: int, lists: u64, scratch: u64, k: int)
    requires
        0 <= p <= r.len(),
        0 <= k < 20,
        lists <= u64::MAX - 0x100,
    ensures
        ({
            let run = ahci::identify_sent(r, p, lists, scratch);
            &&& r.len() == p ==> run == Run::<Action, Result<(), DiskError>>::Wants(
                Action::ClearCommand,
            )
            &&& r.len() == p + 1 + k ==> (run matches Run::Wants(Action::WriteFis(i, b)) && i == k
                && (k == 2 ==> b == 0xEC))
            &&& r.len() == p + 21 ==> (run matches Run::Wants(Action::WritePrd(i, e)) && i == 0
                && e.dba + 0x1_0000_0000 * e.dbau == scratch && e.dbc == 511)
            &&& r.len() == p + 22 ==> run == Run::<Action, Result<(), DiskError>>::Wants(
                Action::WriteHeader(0x1_0005, (lists + 0x100) as u64),
            )
            &&& r.len() == p + 24 ==> run == Run::<Action, Result<(), DiskError>>::Wants(
                Action::Write(0x38, 1),
            )
        }),
{
    let f = ahci::frame(false, 0, 0, 0xEC);
    assert(f.len() == 20);
    if r.len() >= p + 1 {
        law_frame_is_written(r, p + 1, f, 0, k);
        law_frame_is_written(r, p + 1, f, 0, 20);
    }
}

/// The 256 words of an answer are read in order.
pub proof fn law_answer_is_read(r: Seq<u64>, p: int, k: int)
    requires
        0 <= p <= r.len(),
        0 <= k < 256,
    ensures
        r.len() == p + k ==> ahci::scratch_read(r, p) == Run::<Action, Seq<u16>>::Wants(
            Action::ReadScratch(k as u32),
        ),
        r.len() >= p + 256 ==> (ahci::scratch_read(r, p) matches Run::Gives(w, q) && q == p + 256
            && w.len() == 256 && w[k] == r[p + k] as int % 0x1_0000),
{
}

/// A disk is told by its signature, and a command that failed by a bit of the task file; what
/// is moved through the scratch page at a time fills that page.
pub proof fn law_numbers_of_the_driver()
    ensures
        crate::drivers::ahci::PORT_SIG == 0x24,
        crate::drivers::ahci::TASK_ERROR == 0x0100,
        crate::drivers::ahci::SIG_DISK == 0x0101,
        crate::drivers::ahci::SCRATCH_SECTORS * 512 == 4096,
{
}

} // verus!
