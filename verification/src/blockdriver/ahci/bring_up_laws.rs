//! What is asked of the machine while a controller and its ports are brought up.

use vstd::prelude::*;

use crate::blockdriver::ahci::controller;
use crate::blockdriver::ahci::controller::PortView;
use crate::blockdriver::ahci::port;
use crate::blockdriver::ahci::port::{Action, AhciError, Page};
use crate::replay::Run;

verus! {

/// The registers are mapped, the capabilities and the ports are read, and the registers are
/// mapped again, all of them: those of the controller, 256 bytes, and 128 bytes for each port.
pub proof fn law_capabilities_are_read(r: Seq<u64>, p: int)
    requires
        0 <= p <= r.len(),
    ensures
        ({
            let run = controller::capabilities_read(r, p);
            let ports = controller::ports_in(port::reg(r[p + 1]));
            &&& r.len() == p ==> run == Run::<Action, Result<(u32, u32), AhciError>>::Wants(
                Action::MapRegisters(0x1000),
            )
            &&& r.len() > p && r[p] == 0 ==> run == Run::<
                Action,
                Result<(u32, u32), AhciError>,
            >::Gives(Err(AhciError::NoMapping), p + 1)
            &&& r.len() == p + 1 && r[p] != 0 ==> run == Run::<
                Action,
                Result<(u32, u32), AhciError>,
            >::Wants(Action::ReadHba(0x00))
            &&& r.len() == p + 2 && r[p] != 0 ==> run == Run::<
                Action,
                Result<(u32, u32), AhciError>,
            >::Wants(Action::ReadHba(0x0C))
            &&& r.len() == p + 3 && r[p] != 0 && 0 < ports <= 32 ==> (run matches Run::Wants(
                Action::MapRegisters(n),
            ) && n as int % 4096 == 0 && n >= 0x100 + ports * 0x80)
            &&& r.len() > p + 3 && r[p] != 0 && r[p + 3] != 0 ==> (run matches Run::Gives(
                Ok((cap, marks)),
                q,
            ) && cap == r[p + 1] as int % 0x1_0000_0000 && marks == r[p + 2] as int % 0x1_0000_0000
                && q == p + 4)
        }),
{
}

/// The pages of a port are its command list, its received frames and its scratch page, in this
/// order; a reply of zero means that there is none, and another is the address, plus one.
pub proof fn law_pages_of_a_port(r: Seq<u64>, p: int, n: u8)
    requires
        0 <= p <= r.len(),
    ensures
        ({
            let run = controller::pages_allocated(r, p, n);
            &&& r.len() == p ==> run == Run::<Action, Result<(u64, u64, u64), AhciError>>::Wants(
                Action::AllocPage(Page::List(n)),
            )
            &&& r.len() == p + 1 && r[p] != 0 ==> run == Run::<
                Action,
                Result<(u64, u64, u64), AhciError>,
            >::Wants(Action::AllocPage(Page::Received(n)))
            &&& r.len() == p + 2 && r[p] != 0 && r[p + 1] != 0 ==> run == Run::<
                Action,
                Result<(u64, u64, u64), AhciError>,
            >::Wants(Action::AllocPage(Page::Scratch(n)))
            &&& r.len() >= p + 3 && r[p] != 0 && r[p + 1] != 0 && r[p + 2] != 0 ==> (
            run matches Run::Gives(Ok((list, received, scratch)), q) && list + 1 == r[p] && received
                + 1 == r[p + 1] && scratch + 1 == r[p + 2] && q == p + 3)
        }),
{
}

/// Every slot gets a table, in order.
pub proof fn law_tables_of_a_port(
    r: Seq<u64>,
    p: int,
    n: u8,
    slots: int,
    tables: Seq<u64>,
    k: int,
)
    requires
        0 <= p,
        0 <= k,
        tables.len() + k <= slots <= 32,
        p + k <= r.len(),
        forall|i: int| p <= i < p + k ==> #[trigger] r[i] != 0,
    ensures
        r.len() == p + k && tables.len() + k < slots ==> controller::tables_allocated(
            r,
            p,
            n,
            slots,
            tables,
        ) == Run::<Action, Option<Seq<u64>>>::Wants(
            Action::AllocPage(Page::Table(n, (tables.len() + k) as u8)),
        ),
        tables.len() + k == slots ==> controller::tables_allocated(r, p, n, slots, tables) == Run::<
            Action,
            Option<Seq<u64>>,
        >::Gives(Some(tables + Seq::new(k as nat, |i: int| (r[p + i] - 1) as u64)), p + k),
    decreases k,
{
    let more = Seq::new(k as nat, |i: int| (r[p + i] - 1) as u64);
    if k == 0 {
        assert(tables + more =~= tables);
    } else {
        assert(r[p] != 0);
        let next = tables.push((r[p] - 1) as u64);
        law_tables_of_a_port(r, p + 1, n, slots, next, k - 1);
        let rest = Seq::new((k - 1) as nat, |i: int| (r[p + 1 + i] - 1) as u64);
        assert(next + rest =~= tables + more);
    }
}

/// The header of every slot is given the address of its table, in order.
pub proof fn law_headers_of_a_port(r: Seq<u64>, p: int, n: u8, tables: Seq<u64>, s: int, k: int)
    requires
        0 <= p,
        0 <= s,
        0 <= k,
        s + k <= tables.len() <= 32,
    ensures
        r.len() == p + k && s + k < tables.len() ==> controller::headers_written(r, p, n, tables, s)
            == Run::<Action, ()>::Wants(
            Action::WriteListHeader(n, (s + k) as u8, tables[s + k]),
        ),
        r.len() >= p + k && s + k == tables.len() ==> controller::headers_written(
            r,
            p,
            n,
            tables,
            s,
        ) == Run::<Action, ()>::Gives((), p + k),
    decreases k,
{
    if k > 0 {
        law_headers_of_a_port(r, p + 1, n, tables, s + 1, k - 1);
    }
}

/// Registers of a port are written one after the other.
pub proof fn law_registers_are_written(
    r: Seq<u64>,
    p: int,
    n: u8,
    writes: Seq<(u32, u32)>,
    i: int,
    k: int,
)
    requires
        0 <= p,
        0 <= i,
        0 <= k,
        i + k <= writes.len(),
    ensures
        r.len() == p + k && i + k < writes.len() ==> port::port_written(r, p, n, writes, i)
            == Run::<Action, ()>::Wants(Action::WritePort(n, writes[i + k].0, writes[i + k].1)),
        r.len() >= p + k && i + k == writes.len() ==> port::port_written(r, p, n, writes, i)
            == Run::<Action, ()>::Gives((), p + k),
    decreases k,
{
    if k > 0 {
        law_registers_are_written(r, p + 1, n, writes, i + 1, k - 1);
    }
}

/// A port starts in order: its registers are written, then power and spin-up are set in its
/// command register, then the receiver, and last the engine; what else the register holds
/// stays.
pub proof fn law_port_starts(r: Seq<u64>, p: int, n: u8, list: u64, received: u64, k: int)
    requires
        0 <= p,
        0 <= k < 7,
        p <= r.len(),
    ensures
        ({
            let run = controller::port_started(r, p, n, list, received);
            let w = controller::programming(list, received);
            &&& r.len() == p + k ==> run == Run::<Action, ()>::Wants(
                Action::WritePort(n, w[k].0, w[k].1),
            )
            &&& r.len() == p + 7 || r.len() == p + 9 || r.len() == p + 11 ==> run == Run::<
                Action,
                (),
            >::Wants(Action::ReadPort(n, 0x18))
            &&& r.len() == p + 8 ==> run == Run::<Action, ()>::Wants(
                Action::WritePort(n, 0x18, port::reg(r[p + 7]) | (0x0002u32 | 0x0004u32)),
            )
            &&& r.len() == p + 10 ==> run == Run::<Action, ()>::Wants(
                Action::WritePort(n, 0x18, port::reg(r[p + 9]) | 0x0010u32),
            )
            &&& r.len() == p + 12 ==> run == Run::<Action, ()>::Wants(
                Action::WritePort(n, 0x18, port::reg(r[p + 11]) | 0x0001u32),
            )
            &&& r.len() >= p + 13 ==> run == Run::<Action, ()>::Gives((), p + 13)
        }),
{
    let w = controller::programming(list, received);
    assert(w.len() == 7);
    law_registers_are_written(r, p, n, w, 0, k);
    law_registers_are_written(r, p, n, w, 0, 7);
}

/// A link that is up, which 3 in the lowest four bits of its status says, is not waited for;
/// another is, and is up where the wait says so.
pub proof fn law_link_is_awaited(r: Seq<u64>, p: int, n: u8)
    requires
        0 <= p <= r.len(),
    ensures
        ({
            let run = controller::link_awaited(r, p, n);
            let up = port::reg(r[p]) & 0x0Fu32 == 3;
            &&& r.len() == p ==> run == Run::<Action, bool>::Wants(Action::ReadPort(n, 0x28))
            &&& r.len() > p && up ==> run == Run::<Action, bool>::Gives(true, p + 1)
            &&& r.len() == p + 1 && !up ==> run == Run::<Action, bool>::Wants(Action::AwaitLink(n))
            &&& r.len() > p + 1 && !up ==> run == Run::<Action, bool>::Gives(r[p + 1] != 0, p + 2)
        }),
{
}

/// A disk is asked who it is through slot 0: its table is cleared, the frame is written, one
/// region of 512 bytes at the scratch page and its header, and the slot is started.
pub proof fn law_disk_is_asked(r: Seq<u64>, p: int, n: u8, scratch: u64)
    requires
        0 <= p <= r.len(),
    ensures
        ({
            let run = controller::identify_sent(r, p, n, scratch);
            &&& r.len() == p ==> run == Run::<Action, Result<(), AhciError>>::Wants(
                Action::ClearTable(0),
            )
            &&& r.len() == p + 1 ==> (run matches Run::Wants(Action::WriteFis(tag, i, w)) && tag
                == 0 && i == 0 && w as int % 256 == 0x27 && w as int / 0x1_0000 % 256 == 0xEC)
            &&& r.len() == p + 6 ==> (run matches Run::Wants(Action::WritePrd(tag, i, e)) && tag
                == 0 && i == 0 && e.dba + 0x1_0000_0000 * e.dbau == scratch && e.dbc as int
                % 0x8000_0000 == 511)
            &&& r.len() == p + 7 ==> (run matches Run::Wants(Action::WriteHeader(tag, w)) && tag
                == 0 && w as int / 0x1_0000 == 1 && w as int / 64 % 2 == 0)
            &&& r.len() == p + 8 ==> run == Run::<Action, Result<(), AhciError>>::Wants(
                Action::WritePort(n, 0x38, 1),
            )
            &&& r.len() == p + 9 ==> run == Run::<Action, Result<(), AhciError>>::Wants(
                Action::AwaitSlots(n, 1),
            )
        }),
{
    let f = crate::blockdriver::ahci::command::std_fis(false, 0, 0, 0xEC);
    assert(f.len() == 5);
    if r.len() > p {
        crate::blockdriver::ahci::laws::law_frame_is_written(r, p + 1, 0, f, 0, 0);
        crate::blockdriver::ahci::laws::law_frame_is_written(r, p + 1, 0, f, 0, 5);
        if r.len() > p + 1 {
            crate::blockdriver::ahci::laws::law_frame_is_written(r, p + 1, 0, f, 0, 1);
        }
    }
}

/// Slots are done where neither register marks any of them; then the lowest bit of the task
/// file says whether they failed. They have timed out where one is still marked.
pub proof fn law_outcome_of_slots(ci: u32, sact: u32, tfd: u32, mask: u32)
    ensures
        ci & mask != 0 || sact & mask != 0 ==> port::slots_outcome(ci, sact, tfd, mask) == Err::<
            (),
            AhciError,
        >(AhciError::TimedOut),
        ci & mask == 0 && sact & mask == 0 && tfd & 0x01u32 != 0 ==> port::slots_outcome(
            ci,
            sact,
            tfd,
            mask,
        ) == Err::<(), AhciError>(AhciError::CmdError),
        ci & mask == 0 && sact & mask == 0 && tfd & 0x01u32 == 0 ==> port::slots_outcome(
            ci,
            sact,
            tfd,
            mask,
        ) == Ok::<(), AhciError>(()),
{
}

/// Ports that the controller does not have are passed over; of the others, those that come up
/// are kept, in order.
pub proof fn law_ports_come_up(
    r: Seq<u64>,
    p: int,
    marks: u32,
    i: int,
    n: int,
    slots: u8,
    done: Seq<PortView>,
    q: int,
    v: PortView,
    e: AhciError,
)
    requires
        0 <= i < n <= 32,
    ensures
        ({
            let run = controller::ports_brought_up(r, p, marks, i, n, slots, done);
            let up = controller::port_brought_up(r, p, i as u8, 64, slots);
            &&& marks & (1u32 << (i as u8)) == 0 ==> run == controller::ports_brought_up(
                r,
                p,
                marks,
                i + 1,
                n,
                slots,
                done,
            )
            &&& marks & (1u32 << (i as u8)) != 0 && up == Run::<
                Action,
                Result<PortView, AhciError>,
            >::Gives(Ok(v), q) ==> run == controller::ports_brought_up(
                r,
                q,
                marks,
                i + 1,
                n,
                slots,
                done.push(v),
            )
            &&& marks & (1u32 << (i as u8)) != 0 && up == Run::<
                Action,
                Result<PortView, AhciError>,
            >::Gives(Err(e), q) ==> run == controller::ports_brought_up(
                r,
                q,
                marks,
                i + 1,
                n,
                slots,
                done,
            )
        }),
{
}

/// Interrupts are switched on at every port once the controller's line is routed; where it
/// cannot be, nothing stays registered.
pub proof fn law_interrupts_are_wired(r: Seq<u64>, p: int, ports: Seq<PortView>, line: u8)
    requires
        0 <= p <= r.len(),
        ports.len() > 0,
        line != 0,
    ensures
        ({
            let run = controller::irq_wired(r, p, ports, line);
            &&& r.len() == p ==> run == Run::<Action, ()>::Wants(Action::RegisterIrq)
            &&& r.len() > p && r[p] == 0 ==> run == Run::<Action, ()>::Gives((), p + 1)
            &&& r.len() == p + 1 && r[p] != 0 ==> run == Run::<Action, ()>::Wants(
                Action::EnableIrq(line),
            )
            &&& r.len() == p + 2 && r[p] != 0 && r[p + 1] == 0 ==> run == Run::<
                Action,
                (),
            >::Wants(Action::UnregisterIrq)
            &&& r.len() == p + 2 && r[p] != 0 && r[p + 1] != 0 ==> (run matches Run::Wants(
                Action::WritePort(n, at, _),
            ) && n == ports[0].port && at == 0x14)
        }),
{
}

} // verus!
