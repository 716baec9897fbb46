//! What a device tree says of a machine, stated of the nodes and properties in it.

use vstd::prelude::*;

use crate::dtb;
use crate::dtb::{CpuNode, FdtHeader, MemoryRegion, MemoryRegionKind, Token, MAX_MEMORY_REGIONS};
use crate::layout;
use crate::layout::holds_high_first;

verus! {

/// What a tree is made of, in the order in which it is written down: a node with a name
/// begins or ends, or a node has a property with a name and a value.
pub enum Event {
    Begin(Seq<u8>),
    End,
    Prop(Seq<u8>, Seq<u8>),
}

/// The text `t`, which holds no zero, stands at `at`, with a zero behind it.
pub open spec fn has_text(b: Seq<u8>, at: int, t: Seq<u8>) -> bool {
    &&& 0 <= at
    &&& at + t.len() < b.len()
    &&& forall|i: int| 0 <= i < t.len() ==> #[trigger] t[i] != 0 && b[at + i] == t[i]
    &&& b[at + t.len()] == 0
}

/// The event stands at `at` in the structure of the blob, and the next one at `next`. Words
/// are big-endian; 1 begins a node, 2 ends one, and 3 is a property, with the length of its
/// value and the place of its name among the strings. Everything takes whole words.
pub open spec fn stands(b: Seq<u8>, h: FdtHeader, at: int, e: Event, next: int) -> bool {
    &&& 0 <= at
    &&& at + 4 <= next < h.total_size
    &&& match e {
        Event::Begin(name) => {
            &&& holds_high_first(b, at, 4, 1)
            &&& has_text(b, at + 4, name)
            &&& next % 4 == 0
            &&& at + 4 + name.len() + 1 <= next < at + 4 + name.len() + 1 + 4
        },
        Event::End => holds_high_first(b, at, 4, 2) && next == at + 4,
        Event::Prop(name, value) => {
            &&& holds_high_first(b, at, 4, 3)
            &&& holds_high_first(b, at + 4, 4, value.len() as int)
            &&& exists|off: int| #[trigger]
                holds_high_first(b, at + 8, 4, off) && h.off_dt_strings + off < h.total_size
                    && has_text(b, h.off_dt_strings + off, name)
            &&& forall|i: int| 0 <= i < value.len() ==> b[at + 12 + i] == #[trigger] value[i]
            &&& (next - at - 12) % 4 == 0
            &&& at + 12 + value.len() <= next < at + 12 + value.len() + 4
        },
    }
}

/// The events `ev` stand in the blob one behind the other, at the places `at`; the word 9,
/// which ends the structure, stands behind the last.
pub open spec fn written(b: Seq<u8>, h: FdtHeader, at: Seq<int>, ev: Seq<Event>) -> bool {
    &&& h.total_size <= b.len()
    &&& at.len() == ev.len() + 1
    &&& forall|k: int| #![trigger ev[k]] 0 <= k < ev.len() ==> stands(b, h, at[k], ev[k], at[k + 1])
    &&& 0 <= at.last()
    &&& at.last() + 4 <= h.total_size
    &&& holds_high_first(b, at.last(), 4, 9)
}

/// How many nodes are open before event `k`, where the root is.
pub open spec fn depth(ev: Seq<Event>, k: int) -> int
    decreases k,
{
    if k <= 0 {
        1
    } else {
        match ev[k - 1] {
            Event::Begin(_) => depth(ev, k - 1) + 1,
            Event::End => depth(ev, k - 1) - 1,
            Event::Prop(_, _) => depth(ev, k - 1),
        }
    }
}

/// Every node that ends has begun, below the root.
pub open spec fn nested(ev: Seq<Event>) -> bool {
    forall|k: int| 0 <= k <= ev.len() ==> #[trigger] depth(ev, k) >= 1
}

/// Event `k` lies in a node of that name under the root.
pub open spec fn inside(ev: Seq<Event>, k: int, node: Seq<u8>) -> bool {
    exists|j: int|
        0 <= j < k && ev[j] == Event::Begin(node) && depth(ev, j) == 1 && (forall|m: int|
            j < m <= k ==> #[trigger] depth(ev, m) >= 2)
}

/// `s` holds no zero.
pub open spec fn is_text(s: Seq<u8>) -> bool {
    forall|i: int| 0 <= i < s.len() ==> #[trigger] s[i] != 0
}

/// A text at a place is one text.
proof fn lemma_one_text(b: Seq<u8>, at: int, t: Seq<u8>, s: Seq<u8>)
    requires
        has_text(b, at, t),
        is_text(s),
    ensures
        dtb::text_at(b, at, s) <==> t == s,
{
    if dtb::text_at(b, at, s) {
        if s.len() < t.len() {
            assert(b[at + s.len()] == t[s.len() as int]);
        } else if t.len() < s.len() {
            assert(b[at + t.len()] == s[t.len() as int]);
        }
        assert forall|i: int| 0 <= i < s.len() implies s[i] == t[i] by {
            assert(b[at + i] == s[i]);
        }
        assert(t =~= s);
    }
}

proof fn lemma_name_end(b: Seq<u8>, h: FdtHeader, at: int, t: Seq<u8>, i: int)
    requires
        has_text(b, at, t),
        0 <= i <= t.len(),
        at + t.len() + 1 < h.total_size <= b.len(),
    ensures
        dtb::name_end(b, h, at + i) == Some(at + t.len() + 1),
    decreases t.len() - i,
{
    if i < t.len() {
        assert(b[at + i] == t[i]);
        lemma_name_end(b, h, at, t, i + 1);
    }
}

/// Two multiples of four that are less than four away are one.
proof fn lemma_aligned(n: int, q: int)
    requires
        q % 4 == 0,
        n <= q < n + 4,
    ensures
        dtb::align4(n) == q,
{
}

/// An event is found where it stands.
proof fn lemma_token(b: Seq<u8>, h: FdtHeader, at: int, e: Event, next: int)
    requires
        stands(b, h, at, e, next),
        h.total_size <= b.len(),
    ensures
        match e {
            Event::Begin(name) => dtb::token_at(b, h, at) == (Token::Begin { name: at + 4, next }),
            Event::End => dtb::token_at(b, h, at) == (Token::End { next }),
            Event::Prop(name, value) => dtb::token_at(b, h, at) matches Token::Prop {
                len,
                nameoff,
                val,
                after,
            } && len == value.len() && val == at + 12 && after == Some(next) && (forall|s: Seq<u8>|
                is_text(s) ==> (#[trigger] dtb::is_prop_named(b, h, nameoff, s) <==> name == s)),
        },
{
    match e {
        Event::Begin(name) => {
            layout::lemma_read_back(b, at, 1);
            lemma_name_end(b, h, at + 4, name, 0);
            lemma_aligned(at + 4 + name.len() + 1, next);
        },
        Event::End => {
            layout::lemma_read_back(b, at, 2);
        },
        Event::Prop(name, value) => {
            layout::lemma_read_back(b, at, 3);
            layout::lemma_read_back(b, at + 4, value.len() as int);
            let off = choose|off: int| #[trigger]
                holds_high_first(b, at + 8, 4, off) && h.off_dt_strings + off < h.total_size
                    && has_text(b, h.off_dt_strings + off, name);
            layout::lemma_read_back(b, at + 8, off);
            lemma_aligned(value.len() as int, next - at - 12);
            assert forall|s: Seq<u8>| is_text(s) implies (#[trigger] dtb::is_prop_named(
                b,
                h,
                off,
                s,
            ) <==> name == s) by {
                lemma_one_text(b, h.off_dt_strings + off, name, s);
            }
        },
    }
}

proof fn lemma_finish(b: Seq<u8>, h: FdtHeader, at: Seq<int>, ev: Seq<Event>)
    requires
        written(b, h, at, ev),
    ensures
        dtb::token_at(b, h, at.last()) == Token::Finish,
{
    layout::lemma_read_back(b, at.last(), 9);
}

/// What lies in a node of that name, one event further on.
proof fn lemma_inside_next(ev: Seq<Event>, k: int, node: Seq<u8>)
    requires
        0 <= k < ev.len(),
        nested(ev),
    ensures
        inside(ev, k + 1, node) <==> match ev[k] {
            Event::Begin(name) => if depth(ev, k) == 1 {
                name == node
            } else {
                inside(ev, k, node)
            },
            Event::End => inside(ev, k, node) && depth(ev, k) != 2,
            Event::Prop(_, _) => inside(ev, k, node),
        },
        inside(ev, k, node) ==> depth(ev, k) >= 2,
{
    let d = depth(ev, k + 1);
    assert(depth(ev, k) >= 1);
    if inside(ev, k + 1, node) {
        let j = choose|j: int|
            0 <= j < k + 1 && ev[j] == Event::Begin(node) && depth(ev, j) == 1 && (forall|m: int|
                j < m <= k + 1 ==> #[trigger] depth(ev, m) >= 2);
        if j < k {
            assert(forall|m: int| j < m <= k ==> #[trigger] depth(ev, m) >= 2);
            assert(depth(ev, k) >= 2);
            assert(inside(ev, k, node));
        }
        assert(depth(ev, k + 1) >= 2);
    }
    if inside(ev, k, node) {
        let j = choose|j: int|
            0 <= j < k && ev[j] == Event::Begin(node) && depth(ev, j) == 1 && (forall|m: int|
                j < m <= k ==> #[trigger] depth(ev, m) >= 2);
        assert(depth(ev, k) >= 2);
        if d >= 2 {
            assert forall|m: int| j < m <= k + 1 implies #[trigger] depth(ev, m) >= 2 by {}
            assert(inside(ev, k + 1, node));
        }
    }
    if ev[k] == Event::Begin(node) && depth(ev, k) == 1 {
        assert forall|m: int| k < m <= k + 1 implies #[trigger] depth(ev, m) >= 2 by {}
        assert(inside(ev, k + 1, node));
    }
}

/// The number that the `n` bytes of `v` from `at` on make, high byte first.
pub open spec fn is_number(v: Seq<u8>, at: int, n: int, x: u64) -> bool {
    holds_high_first(v, at, n as nat, x as int)
}

/// `pairs` are the addresses of `a` words and the sizes of `s` words that the value `v`
/// consists of.
pub open spec fn are_pairs(v: Seq<u8>, a: int, s: int, pairs: Seq<(u64, u64)>) -> bool {
    &&& v.len() == pairs.len() * (4 * (a + s))
    &&& forall|i: int| #![trigger pairs[i]]
        0 <= i < pairs.len() ==> is_number(v, i * (4 * (a + s)), 4 * a, pairs[i].0) && is_number(
            v,
            i * (4 * (a + s)) + 4 * a,
            4 * s,
            pairs[i].1,
        )
}

/// One or two words are read as the number of their bytes.
proof fn lemma_cells(b: Seq<u8>, off: int, v: Seq<u8>, at: int, n: int, x: u64)
    requires
        1 <= n <= 2,
        is_number(v, at, 4 * n, x),
        forall|i: int| 0 <= i < 4 * n ==> #[trigger] b[off + i] == v[at + i],
    ensures
        dtb::be_cells(b, off, n) == x,
{
    reveal_with_fuel(dtb::be_cells, 3);
    let k = (4 * n) as nat;
    assert(holds_high_first(b, off, k, x as int)) by {
        assert forall|j: nat| j < k implies b[off + k - 1 - j] == #[trigger] layout::byte_of(
            x as int,
            j,
        ) by {
            assert(v[at + k - 1 - j] == layout::byte_of(x as int, j));
            assert(b[off + (k - 1 - j)] == v[at + (k - 1 - j)]);
        }
    }
    layout::lemma_read_back(b, off, x as int);
    layout::lemma_powers();
    if n == 2 {
        let (hi, lo) = (crate::bytes::be32(b, off), crate::bytes::be32(b, off + 4));
        assert(x == lo + 0x1_0000_0000 * hi);
        assert(dtb::be_cells(b, off, 1) == hi);
    }
}

/// A property that consists of pairs is read as these, from pair `i` on.
pub proof fn law_pairs_are_read(
    b: Seq<u8>,
    h: FdtHeader,
    val: int,
    v: Seq<u8>,
    a: int,
    s: int,
    pairs: Seq<(u64, u64)>,
    i: int,
    out: Seq<(u64, u64)>,
)
    requires
        1 <= a <= 2,
        1 <= s <= 2,
        are_pairs(v, a, s, pairs),
        0 <= val,
        val + v.len() < h.total_size <= b.len(),
        forall|j: int| 0 <= j < v.len() ==> b[val + j] == #[trigger] v[j],
        0 <= i <= pairs.len(),
    ensures
        dtb::pairs_from(b, h, val, v.len() as int, a, s, i * (4 * (a + s)), out) == (
            out + pairs.skip(i),
            true,
        ),
    decreases pairs.len() - i,
{
    let w = 4 * (a + s);
    let n = pairs.len() as int;
    if i < n {
        assert(i * w + w <= n * w) by (nonlinear_arith)
            requires
                i + 1 <= n,
                w > 0,
        ;
        assert(i * w >= 0) by (nonlinear_arith)
            requires
                i >= 0,
                w > 0,
        ;
        assert((i + 1) * w == i * w + w) by (nonlinear_arith);
        let off = i * w;
        assert forall|j: int| 0 <= j < 4 * a implies #[trigger] b[val + off + j] == v[off + j] by {
            assert(b[val + (off + j)] == v[off + j]);
        }
        lemma_cells(b, val + off, v, off, a, pairs[i].0);
        assert forall|j: int| 0 <= j < 4 * s implies #[trigger] b[val + off + a * 4 + j] == v[off
            + 4 * a + j] by {
            assert(b[val + (off + 4 * a + j)] == v[off + 4 * a + j]);
        }
        lemma_cells(b, val + off + a * 4, v, off + 4 * a, s, pairs[i].1);
        law_pairs_are_read(b, h, val, v, a, s, pairs, i + 1, out.push(pairs[i]));
        assert(out.push(pairs[i]) + pairs.skip(i + 1) =~= out + pairs.skip(i));
    } else {
        assert(out + pairs.skip(i) =~= out);
    }
}

/// The property at event `k` is of that name and lies in a node of that name under the root.
pub open spec fn is_meant(ev: Seq<Event>, k: int, node: Seq<u8>, prop: Seq<u8>) -> bool {
    inside(ev, k, node) && (ev[k] matches Event::Prop(name, _) && name == prop)
}

/// What `each` has for the properties that are meant, from event `k` on.
pub open spec fn collected(
    ev: Seq<Event>,
    k: int,
    node: Seq<u8>,
    prop: Seq<u8>,
    each: Seq<Seq<(u64, u64)>>,
) -> Seq<(u64, u64)>
    decreases ev.len() - k,
{
    if k >= ev.len() {
        Seq::empty()
    } else if is_meant(ev, k, node, prop) {
        each[k] + collected(ev, k + 1, node, prop, each)
    } else {
        collected(ev, k + 1, node, prop, each)
    }
}

/// A walk through a tree gives the pairs of every property of that name in the nodes of that
/// name under the root, in order, and those of no other. `each` are the pairs of the
/// properties that are meant.
pub proof fn law_walk_finds_what_is_meant(
    b: Seq<u8>,
    h: FdtHeader,
    at: Seq<int>,
    ev: Seq<Event>,
    k: int,
    node: Seq<u8>,
    prop: Seq<u8>,
    a: int,
    s: int,
    each: Seq<Seq<(u64, u64)>>,
    out: Seq<(u64, u64)>,
)
    requires
        written(b, h, at, ev),
        nested(ev),
        is_text(node),
        is_text(prop),
        1 <= a <= 2,
        1 <= s <= 2,
        0 <= k <= ev.len(),
        forall|i: int| #![trigger ev[i]]
            k <= i < ev.len() && is_meant(ev, i, node, prop) ==> are_pairs(
                ev[i]->Prop_1,
                a,
                s,
                each[i],
            ),
    ensures
        dtb::walk_from(b, h, at[k], depth(ev, k), inside(ev, k, node), node, prop, a, s, out) == (
            out + collected(ev, k, node, prop, each),
            true,
        ),
    decreases ev.len() - k,
{
    if k == ev.len() {
        lemma_finish(b, h, at, ev);
        assert(at[k] == at.last());
        assert(out + collected(ev, k, node, prop, each) =~= out);
    } else {
        assert(stands(b, h, at[k], ev[k], at[k + 1]));
        lemma_token(b, h, at[k], ev[k], at[k + 1]);
        lemma_inside_next(ev, k, node);
        assert(depth(ev, k) >= 1);
        let more = if is_meant(ev, k, node, prop) {
            out + each[k]
        } else {
            out
        };
        law_walk_finds_what_is_meant(b, h, at, ev, k + 1, node, prop, a, s, each, more);
        match ev[k] {
            Event::Begin(name) => {
                lemma_one_text(b, at[k] + 4, name, node);
            },
            Event::End => {},
            Event::Prop(name, value) => {
                if is_meant(ev, k, node, prop) {
                    law_pairs_are_read(b, h, at[k] + 12, value, a, s, each[k], 0, out);
                    assert(each[k].skip(0) =~= each[k]);
                    assert(out + each[k] + collected(ev, k + 1, node, prop, each) =~= out + (each[k]
                        + collected(ev, k + 1, node, prop, each)));
                }
            },
        }
    }
}

/// A region is the firmware's exactly where it starts at 2 GiB and has 1 MiB at most.
pub open spec fn is_told_apart(r: MemoryRegion) -> bool {
    r.kind == MemoryRegionKind::Reserved <==> r.base == 0x8000_0000 && r.size <= 0x10_0000
}

/// Pairs become regions of the same addresses and sizes: those that are not empty, in order,
/// as far as there is room.
pub proof fn law_regions_are_the_pairs(
    pairs: Seq<(u64, u64)>,
    n: int,
    out: Seq<MemoryRegion>,
)
    requires
        0 <= n <= pairs.len(),
        out.len() <= MAX_MEMORY_REGIONS,
    ensures
        ({
            let v = dtb::regions_of(pairs, n, out);
            &&& out.len() <= v.len() <= MAX_MEMORY_REGIONS
            &&& v.take(out.len() as int) == out
            &&& forall|i: int| #![trigger v[i]]
                out.len() <= i < v.len() ==> is_told_apart(v[i]) && v[i].size > 0 && exists|j: int|
                    0 <= j < n && #[trigger] pairs[j] == (v[i].base, v[i].size)
            &&& v.len() < MAX_MEMORY_REGIONS ==> forall|j: int| #![trigger pairs[j]]
                0 <= j < n && pairs[j].1 > 0 ==> exists|i: int|
                    out.len() <= i < v.len() && (#[trigger] v[i]).base == pairs[j].0 && v[i].size
                        == pairs[j].1
        }),
    decreases n,
{
    assert(out.take(out.len() as int) =~= out);
    if n > 0 {
        law_regions_are_the_pairs(pairs, n - 1, out);
        let w = dtb::regions_of(pairs, n - 1, out);
        let v = dtb::regions_of(pairs, n, out);
        let (addr, size) = pairs[n - 1];
        if size > 0 && w.len() < MAX_MEMORY_REGIONS {
            assert(v.take(out.len() as int) =~= w.take(out.len() as int));
            assert(v.last() == v[w.len() as int]);
            assert forall|i: int| #![trigger v[i]]
                out.len() <= i < v.len() implies is_told_apart(v[i]) && v[i].size > 0 && exists|
                j: int,
            | 0 <= j < n && #[trigger] pairs[j] == (v[i].base, v[i].size) by {
                if i < w.len() {
                    assert(v[i] == w[i]);
                    let j = choose|j: int|
                        0 <= j < n - 1 && #[trigger] pairs[j] == (w[i].base, w[i].size);
                    assert(pairs[j] == (v[i].base, v[i].size));
                } else {
                    assert(pairs[n - 1] == (v[i].base, v[i].size));
                }
            }
            assert forall|j: int| #![trigger pairs[j]]
                0 <= j < n && pairs[j].1 > 0 implies exists|i: int|
                out.len() <= i < v.len() && (#[trigger] v[i]).base == pairs[j].0 && v[i].size
                    == pairs[j].1 by {
                if j < n - 1 {
                    let i = choose|i: int|
                        out.len() <= i < w.len() && (#[trigger] w[i]).base == pairs[j].0
                            && w[i].size == pairs[j].1;
                    assert(v[i] == w[i]);
                } else {
                    assert(v[w.len() as int].base == pairs[j].0);
                }
            }
        }
    }
}

proof fn lemma_kinds_from(
    b: Seq<u8>,
    h: FdtHeader,
    pos: int,
    depth: int,
    inn: bool,
    a: int,
    s: int,
    out: Seq<MemoryRegion>,
)
    requires
        out.len() <= MAX_MEMORY_REGIONS,
        forall|i: int|
            #![trigger out[i]]
            0 <= i < out.len() ==> is_told_apart(out[i]) && out[i].size > 0,
    ensures
        ({
            let v = dtb::memory_from(b, h, pos, depth, inn, a, s, out);
            &&& v.len() <= MAX_MEMORY_REGIONS
            &&& forall|i: int| #![trigger v[i]]
                0 <= i < v.len() ==> is_told_apart(v[i]) && v[i].size > 0
        }),
    decreases dtb::left(h, pos),
{
    match dtb::token_at(b, h, pos) {
        Token::Begin { name, next } => {
            if next > pos {
                let now = if depth == 1 {
                    dtb::is_memory_node(b, name)
                } else {
                    inn
                };
                lemma_kinds_from(b, h, next, depth + 1, now, a, s, out);
            }
        },
        Token::End { next } => {
            if depth > 0 {
                lemma_kinds_from(b, h, next, depth - 1, inn && depth != 2, a, s, out);
            }
        },
        Token::Prop { len, nameoff, val, after } => {
            let pairs = dtb::pairs_from(b, h, val, len, a, s, 0, Seq::empty()).0;
            let more = if inn && dtb::is_prop_named(b, h, nameoff, dtb::REG@) {
                dtb::regions_of(pairs, pairs.len() as int, out)
            } else {
                out
            };
            law_regions_are_the_pairs(pairs, pairs.len() as int, out);
            assert forall|i: int| #![trigger more[i]] 0 <= i < more.len() implies is_told_apart(
                more[i],
            ) && more[i].size > 0 by {
                if i < out.len() {
                    assert(more.take(out.len() as int)[i] == more[i]);
                }
            }
            match after {
                Some(n) => {
                    if n > pos {
                        lemma_kinds_from(b, h, n, depth, inn, a, s, more);
                    }
                },
                None => {},
            }
        },
        Token::Finish => {},
        Token::Other { next } => {
            lemma_kinds_from(b, h, next, depth, inn, a, s, out);
        },
        Token::Broken => {},
    }
}

/// Of the memory that a blob describes, a region is the firmware's exactly where it starts
/// at 2 GiB and has 1 MiB at most; every other region is usable. No region is empty, and
/// there are eight at most.
pub proof fn law_only_the_firmware_is_reserved(b: Seq<u8>)
    ensures
        ({
            let v = dtb::described_memory(b);
            &&& v.len() <= 8
            &&& forall|i: int| #![trigger v[i]]
                0 <= i < v.len() ==> {
                    &&& v[i].size > 0
                    &&& v[i].kind == MemoryRegionKind::Reserved <==> v[i].base == 0x8000_0000
                        && v[i].size <= 0x10_0000
                    &&& v[i].size > 0x10_0000 ==> v[i].kind == MemoryRegionKind::Usable
                }
        }),
{
    match dtb::header_of(b) {
        Some(h) => match dtb::root_start(b, h) {
            Some(start) => match dtb::cells_from(b, h, start, 2, 2) {
                Some((a, s, pos)) => {
                    lemma_kinds_from(b, h, pos, 1, false, a as int, s as int, Seq::empty());
                },
                None => {},
            },
            None => {},
        },
        None => {},
    }
}

/// What is taken for the memory of a machine that describes none: no two regions overlap,
/// and the usable one does not reach below the end of the firmware's.
pub proof fn law_fallback_regions_are_apart(i: int, j: int)
    requires
        0 <= i < dtb::default_memory().len(),
        0 <= j < dtb::default_memory().len(),
        i != j,
    ensures
        ({
            let (x, y) = (dtb::default_memory()[i], dtb::default_memory()[j]);
            &&& x.size > 0
            &&& x.base + x.size <= y.base || y.base + y.size <= x.base
            &&& x.kind == MemoryRegionKind::Usable ==> y.kind == MemoryRegionKind::Reserved
        }),
{
}

/// The bytes of a text of ASCII characters.
pub open spec fn ascii(t: Seq<char>) -> Seq<u8> {
    Seq::new(t.len(), |i: int| t[i] as u8)
}

/// The names that are looked for.
pub proof fn law_names()
    ensures
        dtb::MEMORY@ == ascii("memory"@),
        dtb::MEMORY_AT@ == ascii("memory@80000000"@),
        dtb::REG@ == ascii("reg"@),
        dtb::CPUS@ == ascii("cpus"@),
        dtb::TIMEBASE@ == ascii("timebase-frequency"@),
        dtb::CHOSEN@ == ascii("chosen"@),
        dtb::ACPI_RSDP@ == ascii("acpi-rsdp"@),
        dtb::DEVICE_TYPE@ == ascii("device_type"@),
        dtb::STATUS@ == ascii("status"@),
        dtb::OKAY@ == ascii("okay"@),
        dtb::ADDRESS_CELLS@ == ascii("#address-cells"@),
        dtb::SIZE_CELLS@ == ascii("#size-cells"@),
{
    reveal_strlit("memory");
    reveal_strlit("memory@80000000");
    reveal_strlit("reg");
    reveal_strlit("cpus");
    reveal_strlit("timebase-frequency");
    reveal_strlit("chosen");
    reveal_strlit("acpi-rsdp");
    reveal_strlit("device_type");
    reveal_strlit("status");
    reveal_strlit("okay");
    reveal_strlit("#address-cells");
    reveal_strlit("#size-cells");
    assert(dtb::MEMORY@ =~= ascii("memory"@));
    assert(dtb::MEMORY_AT@ =~= ascii("memory@80000000"@));
    assert(dtb::REG@ =~= ascii("reg"@));
    assert(dtb::CPUS@ =~= ascii("cpus"@));
    assert(dtb::TIMEBASE@ =~= ascii("timebase-frequency"@));
    assert(dtb::CHOSEN@ =~= ascii("chosen"@));
    assert(dtb::ACPI_RSDP@ =~= ascii("acpi-rsdp"@));
    assert(dtb::DEVICE_TYPE@ =~= ascii("device_type"@));
    assert(dtb::STATUS@ =~= ascii("status"@));
    assert(dtb::OKAY@ =~= ascii("okay"@));
    assert(dtb::ADDRESS_CELLS@ =~= ascii("#address-cells"@));
    assert(dtb::SIZE_CELLS@ =~= ascii("#size-cells"@));
}

proof fn lemma_names_are_texts()
    ensures
        is_text(dtb::MEMORY@),
        is_text(dtb::MEMORY_AT@),
        is_text(dtb::REG@),
        is_text(dtb::CPUS@),
        is_text(dtb::TIMEBASE@),
        is_text(dtb::CHOSEN@),
        is_text(dtb::ACPI_RSDP@),
        is_text(dtb::ADDRESS_CELLS@),
        is_text(dtb::SIZE_CELLS@),
{
}

/// The property at event `k` says where memory lies.
pub open spec fn is_memory(ev: Seq<Event>, k: int) -> bool {
    is_meant(ev, k, ascii("memory"@), ascii("reg"@)) || is_meant(
        ev,
        k,
        ascii("memory@80000000"@),
        ascii("reg"@),
    )
}

/// What `each` has for the properties that say where memory lies, from event `k` on.
pub open spec fn memory_pairs(ev: Seq<Event>, k: int, each: Seq<Seq<(u64, u64)>>) -> Seq<(u64, u64)>
    decreases ev.len() - k,
{
    if k >= ev.len() {
        Seq::empty()
    } else if is_memory(ev, k) {
        each[k] + memory_pairs(ev, k + 1, each)
    } else {
        memory_pairs(ev, k + 1, each)
    }
}

/// Pairs that are taken in two parts give the regions that they give together.
proof fn lemma_regions_in_parts(
    p: Seq<(u64, u64)>,
    q: Seq<(u64, u64)>,
    n: int,
    out: Seq<MemoryRegion>,
)
    requires
        0 <= n <= q.len(),
    ensures
        dtb::regions_of(p + q, p.len() + n, out) == dtb::regions_of(
            q,
            n,
            dtb::regions_of(p, p.len() as int, out),
        ),
    decreases n,
{
    if n > 0 {
        lemma_regions_in_parts(p, q, n - 1, out);
        assert((p + q)[p.len() + n - 1] == q[n - 1]);
    } else {
        lemma_regions_prefix(p, q, p.len() as int, out);
    }
}

proof fn lemma_regions_prefix(
    p: Seq<(u64, u64)>,
    q: Seq<(u64, u64)>,
    n: int,
    out: Seq<MemoryRegion>,
)
    requires
        0 <= n <= p.len(),
    ensures
        dtb::regions_of(p + q, n, out) == dtb::regions_of(p, n, out),
    decreases n,
{
    if n > 0 {
        lemma_regions_prefix(p, q, n - 1, out);
        assert((p + q)[n - 1] == p[n - 1]);
    }
}

/// The memory of a machine is what the properties `reg` of its nodes `memory` and
/// `memory@80000000` say, in order, and what no other property does.
pub proof fn law_memory_is_what_is_meant(
    b: Seq<u8>,
    h: FdtHeader,
    at: Seq<int>,
    ev: Seq<Event>,
    k: int,
    a: int,
    s: int,
    each: Seq<Seq<(u64, u64)>>,
    out: Seq<MemoryRegion>,
)
    requires
        written(b, h, at, ev),
        nested(ev),
        1 <= a <= 2,
        1 <= s <= 2,
        0 <= k <= ev.len(),
        forall|i: int| #![trigger ev[i]]
            k <= i < ev.len() && is_memory(ev, i) ==> are_pairs(ev[i]->Prop_1, a, s, each[i]),
    ensures
        dtb::memory_from(
            b,
            h,
            at[k],
            depth(ev, k),
            inside(ev, k, ascii("memory"@)) || inside(ev, k, ascii("memory@80000000"@)),
            a,
            s,
            out,
        ) == dtb::regions_of(
            memory_pairs(ev, k, each),
            memory_pairs(ev, k, each).len() as int,
            out,
        ),
    decreases ev.len() - k,
{
    law_names();
    lemma_names_are_texts();
    let (m1, m2) = (ascii("memory"@), ascii("memory@80000000"@));
    if k == ev.len() {
        lemma_finish(b, h, at, ev);
        assert(at[k] == at.last());
    } else {
        assert(stands(b, h, at[k], ev[k], at[k + 1]));
        lemma_token(b, h, at[k], ev[k], at[k + 1]);
        lemma_inside_next(ev, k, m1);
        lemma_inside_next(ev, k, m2);
        assert(depth(ev, k) >= 1);
        let rest = memory_pairs(ev, k + 1, each);
        let more = if is_memory(ev, k) {
            dtb::regions_of(each[k], each[k].len() as int, out)
        } else {
            out
        };
        law_memory_is_what_is_meant(b, h, at, ev, k + 1, a, s, each, more);
        match ev[k] {
            Event::Begin(name) => {
                lemma_one_text(b, at[k] + 4, name, m1);
                lemma_one_text(b, at[k] + 4, name, m2);
            },
            Event::End => {},
            Event::Prop(name, value) => {
                if is_memory(ev, k) {
                    law_pairs_are_read(b, h, at[k] + 12, value, a, s, each[k], 0, Seq::empty());
                    assert(Seq::<(u64, u64)>::empty() + each[k].skip(0) =~= each[k]);
                    lemma_regions_in_parts(each[k], rest, rest.len() as int, out);
                }
            },
        }
    }
}

/// The places and lengths of the properties that are meant, from event `k` on.
pub open spec fn places(
    at: Seq<int>,
    ev: Seq<Event>,
    k: int,
    node: Seq<u8>,
    prop: Seq<u8>,
) -> Seq<(u64, u32)>
    decreases ev.len() - k,
{
    if k >= ev.len() {
        Seq::empty()
    } else if is_meant(ev, k, node, prop) {
        seq![((at[k] + 12) as u64, (ev[k]->Prop_1).len() as u32)] + places(
            at,
            ev,
            k + 1,
            node,
            prop,
        )
    } else {
        places(at, ev, k + 1, node, prop)
    }
}

/// A walk through a tree gives the place and the length of every property that is meant.
pub proof fn law_properties_are_found(
    b: Seq<u8>,
    h: FdtHeader,
    at: Seq<int>,
    ev: Seq<Event>,
    k: int,
    node: Seq<u8>,
    prop: Seq<u8>,
    out: Seq<(u64, u32)>,
)
    requires
        written(b, h, at, ev),
        nested(ev),
        is_text(node),
        is_text(prop),
        0 <= k <= ev.len(),
    ensures
        dtb::props_from(b, h, at[k], depth(ev, k), inside(ev, k, node), node, prop, out) == (
            out + places(at, ev, k, node, prop),
            true,
        ),
    decreases ev.len() - k,
{
    if k == ev.len() {
        lemma_finish(b, h, at, ev);
        assert(at[k] == at.last());
        assert(out + places(at, ev, k, node, prop) =~= out);
    } else {
        assert(stands(b, h, at[k], ev[k], at[k + 1]));
        lemma_token(b, h, at[k], ev[k], at[k + 1]);
        lemma_inside_next(ev, k, node);
        assert(depth(ev, k) >= 1);
        let more = if is_meant(ev, k, node, prop) {
            out.push(((at[k] + 12) as u64, (ev[k]->Prop_1).len() as u32))
        } else {
            out
        };
        law_properties_are_found(b, h, at, ev, k + 1, node, prop, more);
        assert(more + places(at, ev, k + 1, node, prop) =~= out + places(at, ev, k, node, prop));
        match ev[k] {
            Event::Begin(name) => {
                lemma_one_text(b, at[k] + 4, name, node);
            },
            Event::End => {},
            Event::Prop(name, value) => {},
        }
    }
}

/// The address of the firmware's tables is what the first property `acpi-rsdp` of `/chosen`
/// says that has four bytes or more: a number of 64 bits where it has eight, and else of 32.
pub proof fn law_first_table_address_counts(
    b: Seq<u8>,
    h: FdtHeader,
    at: Seq<int>,
    ev: Seq<Event>,
    k: int,
    j: int,
    address: int,
)
    requires
        written(b, h, at, ev),
        nested(ev),
        0 <= k <= j < ev.len(),
        is_meant(ev, j, ascii("chosen"@), ascii("acpi-rsdp"@)),
        (ev[j]->Prop_1).len() >= 4,
        holds_high_first(
            ev[j]->Prop_1,
            0,
            if (ev[j]->Prop_1).len() == 8 {
                8
            } else {
                4
            },
            address,
        ),
        forall|i: int| #![trigger ev[i]]
            k <= i < j && is_meant(ev, i, ascii("chosen"@), ascii("acpi-rsdp"@)) ==> (
            ev[i]->Prop_1).len() < 4,
    ensures
        dtb::rsdp_from(b, h, at[k], depth(ev, k), inside(ev, k, ascii("chosen"@))) == address,
    decreases j - k,
{
    law_names();
    lemma_names_are_texts();
    let node = ascii("chosen"@);
    let prop = ascii("acpi-rsdp"@);
    assert(stands(b, h, at[k], ev[k], at[k + 1]));
    lemma_token(b, h, at[k], ev[k], at[k + 1]);
    lemma_inside_next(ev, k, node);
    assert(depth(ev, k) >= 1);
    if k < j {
        law_first_table_address_counts(b, h, at, ev, k + 1, j, address);
        match ev[k] {
            Event::Begin(name) => {
                lemma_one_text(b, at[k] + 4, name, node);
            },
            Event::End => {},
            Event::Prop(name, value) => {
                assert(is_meant(ev, k, node, prop) ==> value.len() < 4);
            },
        }
    } else {
        let v = ev[j]->Prop_1;
        let val = at[k] + 12;
        let n: nat = if v.len() == 8 {
            8
        } else {
            4
        };
        assert(holds_high_first(b, val, n, address)) by {
            assert forall|i: nat| i < n implies b[val + n - 1 - i] == #[trigger] layout::byte_of(
                address,
                i,
            ) by {
                assert(v[0 + n - 1 - i] == layout::byte_of(address, i));
                assert(b[at[k] + 12 + (n - 1 - i)] == v[n - 1 - i]);
            }
        }
        layout::lemma_read_back(b, val, address);
    }
}

/// Where no property `acpi-rsdp` of `/chosen` has four bytes, there is no address.
pub proof fn law_no_table_address(
    b: Seq<u8>,
    h: FdtHeader,
    at: Seq<int>,
    ev: Seq<Event>,
    k: int,
)
    requires
        written(b, h, at, ev),
        nested(ev),
        0 <= k <= ev.len(),
        forall|i: int| #![trigger ev[i]]
            k <= i < ev.len() && is_meant(ev, i, ascii("chosen"@), ascii("acpi-rsdp"@)) ==> (
            ev[i]->Prop_1).len() < 4,
    ensures
        dtb::rsdp_from(b, h, at[k], depth(ev, k), inside(ev, k, ascii("chosen"@))) == 0,
    decreases ev.len() - k,
{
    law_names();
    lemma_names_are_texts();
    let node = ascii("chosen"@);
    if k == ev.len() {
        lemma_finish(b, h, at, ev);
        assert(at[k] == at.last());
    } else {
        assert(stands(b, h, at[k], ev[k], at[k + 1]));
        lemma_token(b, h, at[k], ev[k], at[k + 1]);
        lemma_inside_next(ev, k, node);
        assert(depth(ev, k) >= 1);
        law_no_table_address(b, h, at, ev, k + 1);
        match ev[k] {
            Event::Begin(name) => {
                lemma_one_text(b, at[k] + 4, name, node);
            },
            Event::End => {},
            Event::Prop(name, value) => {
                assert(is_meant(ev, k, node, ascii("acpi-rsdp"@)) ==> value.len() < 4);
            },
        }
    }
}

/// A blob that begins with D00DFEEDh, its length, and the places of its structure and of its
/// strings, all big-endian, has these; it is accepted where they lie in it.
pub proof fn law_header(b: Seq<u8>, total: int, structure: int, strings: int)
    requires
        b.len() >= 16,
        b[0] == 0xD0 && b[1] == 0x0D && b[2] == 0xFE && b[3] == 0xED,
        holds_high_first(b, 4, 4, total),
        holds_high_first(b, 8, 4, structure),
        holds_high_first(b, 12, 4, strings),
        16 <= total <= b.len(),
        structure + 4 <= total,
        strings + 4 <= total,
    ensures
        dtb::header_of(b) matches Some(h) && h.total_size == total && h.off_dt_struct == structure
            && h.off_dt_strings == strings,
{
    layout::lemma_read_back(b, 4, total);
    layout::lemma_read_back(b, 8, structure);
    layout::lemma_read_back(b, 12, strings);
    layout::lemma_powers();
}

/// Where the root node begins with the structure, its contents begin behind its name.
pub proof fn law_root(b: Seq<u8>, h: FdtHeader, name: Seq<u8>, next: int)
    requires
        h.total_size <= b.len(),
        stands(b, h, h.off_dt_struct as int, Event::Begin(name), next),
    ensures
        dtb::root_start(b, h) == Some(next),
{
    lemma_name_end(b, h, h.off_dt_struct + 4, name, 0);
    lemma_aligned(h.off_dt_struct + 4 + name.len() + 1, next);
}

/// The number in the last property of that name, from event `k` up to event `m`, or `known`
/// where there is none.
pub open spec fn last_number(
    ev: Seq<Event>,
    k: int,
    m: int,
    name: Seq<u8>,
    numbers: Seq<u32>,
    known: u32,
) -> u32
    decreases m - k,
{
    if k >= m {
        known
    } else if ev[k] matches Event::Prop(x, _) && x == name {
        last_number(ev, k + 1, m, name, numbers, numbers[k])
    } else {
        last_number(ev, k + 1, m, name, numbers, known)
    }
}

/// The numbers of words of an address and of a size are those in the last properties
/// `#address-cells` and `#size-cells` of the root before its first node; `numbers` are the
/// numbers in such properties.
pub proof fn law_cells_of_the_root(
    b: Seq<u8>,
    h: FdtHeader,
    at: Seq<int>,
    ev: Seq<Event>,
    k: int,
    m: int,
    numbers: Seq<u32>,
    a: u32,
    s: u32,
)
    requires
        written(b, h, at, ev),
        0 <= k <= m < ev.len(),
        !(ev[m] is Prop),
        forall|i: int| #![trigger ev[i]]
            k <= i < m ==> (ev[i] matches Event::Prop(name, value) && (name == ascii(
                "#address-cells"@,
            ) || name == ascii("#size-cells"@) ==> value.len() >= 4 && holds_high_first(
                value,
                0,
                4,
                numbers[i] as int,
            ))),
    ensures
        dtb::cells_from(b, h, at[k], a, s) == Some(
            (
                last_number(ev, k, m, ascii("#address-cells"@), numbers, a),
                last_number(ev, k, m, ascii("#size-cells"@), numbers, s),
                at[m],
            ),
        ),
    decreases m - k,
{
    law_names();
    lemma_names_are_texts();
    assert(stands(b, h, at[k], ev[k], at[k + 1]));
    lemma_token(b, h, at[k], ev[k], at[k + 1]);
    if k == m {
        match ev[m] {
            Event::Begin(_) => {
                layout::lemma_read_back(b, at[k], 1);
            },
            Event::End => {
                layout::lemma_read_back(b, at[k], 2);
            },
            Event::Prop(_, _) => {},
        }
    } else {
        let (name, value) = (ev[k]->Prop_0, ev[k]->Prop_1);
        layout::lemma_read_back(b, at[k], 3);
        layout::lemma_read_back(b, at[k] + 4, value.len() as int);
        lemma_aligned(value.len() as int, at[k + 1] - at[k] - 12);
        let (an, sn) = (ascii("#address-cells"@), ascii("#size-cells"@));
        let off = crate::bytes::be32(b, at[k] + 8);
        assert(dtb::token_at(b, h, at[k])->Prop_nameoff == off);
        assert(dtb::is_prop_named(b, h, off, an) <==> name == an);
        assert(dtb::is_prop_named(b, h, off, sn) <==> name == sn);
        assert(an.len() == 14 && sn.len() == 11) by {
            assert(dtb::ADDRESS_CELLS@.len() == 14);
            assert(dtb::SIZE_CELLS@.len() == 11);
        }
        if name == an || name == sn {
            let val = at[k] + 12;
            assert(holds_high_first(b, val, 4, numbers[k] as int)) by {
                assert forall|i: nat| i < 4 implies b[val + 4 - 1 - i]
                    == #[trigger] layout::byte_of(numbers[k] as int, i) by {
                    assert(value[0 + 4 - 1 - i] == layout::byte_of(numbers[k] as int, i));
                    assert(b[at[k] + 12 + (4 - 1 - i)] == value[4 - 1 - i]);
                }
            }
            layout::lemma_read_back(b, val, numbers[k] as int);
        }
        law_cells_of_the_root(
            b,
            h,
            at,
            ev,
            k + 1,
            m,
            numbers,
            if name == an {
                numbers[k]
            } else {
                a
            },
            if name == sn {
                numbers[k]
            } else {
                s
            },
        );
    }
}

/// The frequency is the number in the last property that has one, of the first `n`.
pub proof fn law_last_frequency_counts(b: Seq<u8>, props: Seq<(u64, u32)>, n: int, j: int, hz: int)
    requires
        0 <= j < n <= props.len(),
        props[j].1 >= 4,
        props[j].0 + 4 <= b.len(),
        holds_high_first(b, props[j].0 as int, 4, hz),
        forall|i: int| #![trigger props[i]] j < i < n ==> props[i].1 < 4,
    ensures
        dtb::hz_of(b, props, n) == hz,
    decreases n,
{
    if n - 1 > j {
        assert(props[n - 1].1 < 4);
        law_last_frequency_counts(b, props, n - 1, j, hz);
    } else {
        layout::lemma_read_back(b, props[j].0 as int, hz);
    }
}

/// A property of a processor's node says one thing of it: `reg` its number, `status` that it
/// is enabled where it is `okay`, and `device_type` that it is a processor where that begins
/// with `cpu`. A property of another name says nothing.
pub proof fn law_processor_is_described(
    b: Seq<u8>,
    h: FdtHeader,
    c: CpuNode,
    at: int,
    name: Seq<u8>,
    value: Seq<u8>,
    next: int,
    nameoff: int,
)
    requires
        h.total_size <= b.len(),
        stands(b, h, at, Event::Prop(name, value), next),
        holds_high_first(b, at + 8, 4, nameoff),
    ensures
        ({
            let d = dtb::cpu_with(b, h, c, nameoff, at + 12, value.len() as int);
            &&& name == ascii("reg"@) && value.len() >= 4 ==> holds_high_first(
                value,
                0,
                4,
                d.hart_id as int,
            )
            &&& name != ascii("reg"@) ==> d.hart_id == c.hart_id
            &&& name == ascii("status"@) && value == ascii("okay"@).push(0) ==> d.enabled
            &&& name == ascii("status"@) && value.len() > 0 && is_text(value.drop_last())
                && value.last() == 0 && value != ascii("okay"@).push(0) ==> !d.enabled
            &&& name != ascii("status"@) ==> d.enabled == c.enabled
            &&& name == ascii("device_type"@) && value.len() >= 3 ==> (d.is_cpu <==> value.take(3)
                == ascii("cpu"@))
            &&& name != ascii("device_type"@) ==> d.is_cpu == c.is_cpu
        }),
{
    law_names();
    reveal_strlit("cpu");
    lemma_names_are_texts();
    lemma_token(b, h, at, Event::Prop(name, value), next);
    layout::lemma_read_back(b, at + 8, nameoff);
    layout::lemma_read_back(b, at, 3);
    let val = at + 12;
    let d = dtb::cpu_with(b, h, c, nameoff, val, value.len() as int);
    assert(is_text(dtb::STATUS@) && is_text(dtb::DEVICE_TYPE@) && is_text(dtb::OKAY@));
    assert(dtb::REG@.len() == 3 && dtb::STATUS@.len() == 6 && dtb::DEVICE_TYPE@.len() == 11);
    assert(dtb::token_at(b, h, at)->Prop_nameoff == nameoff);
    assert(dtb::is_prop_named(b, h, nameoff, dtb::REG@) <==> name == dtb::REG@);
    assert(dtb::is_prop_named(b, h, nameoff, dtb::STATUS@) <==> name == dtb::STATUS@);
    assert(dtb::is_prop_named(b, h, nameoff, dtb::DEVICE_TYPE@) <==> name == dtb::DEVICE_TYPE@);
    if name == dtb::REG@ && value.len() >= 4 {
        layout::law_high_first_32(b, val);
        layout::lemma_powers();
        assert(d.hart_id == crate::bytes::be32(b, val));
        assert forall|i: nat| i < 4 implies value[0 + 4 - 1 - i] == #[trigger] layout::byte_of(
            d.hart_id as int,
            i,
        ) by {
            assert(b[val + 4 - 1 - i] == layout::byte_of(d.hart_id as int, i));
            assert(b[at + 12 + (4 - 1 - i)] == value[4 - 1 - i]);
        }
    }
    if name == dtb::STATUS@ && value.len() > 0 && value.last() == 0 && is_text(value.drop_last()) {
        let t = value.drop_last();
        assert(has_text(b, val, t)) by {
            assert forall|i: int| 0 <= i < t.len() implies #[trigger] t[i] != 0 && b[val + i]
                == t[i] by {
                assert(b[at + 12 + i] == value[i]);
            }
            assert(b[at + 12 + (value.len() - 1)] == value[value.len() - 1]);
        }
        lemma_one_text(b, val, t, dtb::OKAY@);
        assert(value =~= t.push(0));
    }
    if name == dtb::STATUS@ && value == dtb::OKAY@.push(0) {
        assert(value.drop_last() =~= dtb::OKAY@);
        assert(value.last() == 0);
    }
    if name == dtb::DEVICE_TYPE@ && value.len() >= 3 {
        assert(b[at + 12 + 0] == value[0] && b[at + 12 + 1] == value[1] && b[at + 12 + 2]
            == value[2]);
        let t = value.take(3);
        assert(t[0] == value[0] && t[1] == value[1] && t[2] == value[2]);
        if d.is_cpu {
            assert(t =~= ascii("cpu"@));
        } else {
            assert(ascii("cpu"@)[0] == 99 && ascii("cpu"@)[1] == 112 && ascii("cpu"@)[2] == 117);
        }
    }
}

/// What a property of the node of a processor says of it; `number` is the number in it.
pub open spec fn says(name: Seq<u8>, value: Seq<u8>, number: u32, c: CpuNode) -> CpuNode {
    CpuNode {
        hart_id: if name == ascii("reg"@) && value.len() >= 4 {
            number
        } else {
            c.hart_id
        },
        enabled: if name == ascii("status"@) && value.len() >= 1 {
            value == ascii("okay"@).push(0)
        } else {
            c.enabled
        },
        is_cpu: if name == ascii("device_type"@) && value.len() >= 3 {
            value.take(3) == ascii("cpu"@)
        } else {
            c.is_cpu
        },
    }
}

/// What the properties from event `j` on, up to one that is none, say of a processor.
pub open spec fn described(ev: Seq<Event>, j: int, numbers: Seq<u32>, c: CpuNode) -> CpuNode
    decreases ev.len() - j,
{
    if j >= ev.len() {
        c
    } else {
        match ev[j] {
            Event::Prop(name, value) => described(
                ev,
                j + 1,
                numbers,
                says(name, value, numbers[j], c),
            ),
            _ => c,
        }
    }
}

/// The first event from `j` on that is no property.
pub open spec fn behind_properties(ev: Seq<Event>, j: int) -> int
    decreases ev.len() - j,
{
    if j < ev.len() && ev[j] is Prop {
        behind_properties(ev, j + 1)
    } else {
        j
    }
}

/// The numbers are those in the properties `reg`, and the properties `status` are texts.
pub open spec fn are_numbers(ev: Seq<Event>, numbers: Seq<u32>) -> bool {
    forall|i: int| #![trigger ev[i]]
        0 <= i < ev.len() ==> (ev[i] matches Event::Prop(name, value) ==> {
            &&& name == ascii("reg"@) && value.len() >= 4 ==> holds_high_first(
                value,
                0,
                4,
                numbers[i] as int,
            )
            &&& name == ascii("status"@) && value.len() >= 1 ==> value.last() == 0 && is_text(
                value.drop_last(),
            )
        })
}

/// A processor is what the properties that stand first in its node say.
proof fn lemma_processor(
    b: Seq<u8>,
    h: FdtHeader,
    at: Seq<int>,
    ev: Seq<Event>,
    j: int,
    numbers: Seq<u32>,
    c: CpuNode,
)
    requires
        written(b, h, at, ev),
        are_numbers(ev, numbers),
        0 <= j <= ev.len(),
    ensures
        j <= behind_properties(ev, j) <= ev.len(),
        dtb::cpu_from(b, h, at[j], c) == (
            described(ev, j, numbers, c),
            at[behind_properties(ev, j)],
        ),
    decreases ev.len() - j,
{
    if j == ev.len() {
        layout::lemma_read_back(b, at.last(), 9);
        assert(at[j] == at.last());
    } else {
        assert(stands(b, h, at[j], ev[j], at[j + 1]));
        lemma_token(b, h, at[j], ev[j], at[j + 1]);
        match ev[j] {
            Event::Begin(_) => {
                layout::lemma_read_back(b, at[j], 1);
            },
            Event::End => {
                layout::lemma_read_back(b, at[j], 2);
            },
            Event::Prop(name, value) => {
                layout::lemma_read_back(b, at[j], 3);
                layout::lemma_read_back(b, at[j] + 4, value.len() as int);
                lemma_aligned(value.len() as int, at[j + 1] - at[j] - 12);
                let off = crate::bytes::be32(b, at[j] + 8);
                layout::law_high_first_32(b, at[j] + 8);
                let d = dtb::cpu_with(b, h, c, off, at[j] + 12, value.len() as int);
                law_processor_is_described(b, h, c, at[j], name, value, at[j + 1], off);
                lemma_says(b, h, at[j], name, value, at[j + 1], off, numbers[j], c);
                lemma_processor(b, h, at, ev, j + 1, numbers, d);
            },
        }
    }
}

proof fn lemma_says(
    b: Seq<u8>,
    h: FdtHeader,
    at: int,
    name: Seq<u8>,
    value: Seq<u8>,
    next: int,
    off: int,
    number: u32,
    c: CpuNode,
)
    requires
        h.total_size <= b.len(),
        stands(b, h, at, Event::Prop(name, value), next),
        holds_high_first(b, at + 8, 4, off),
        name == ascii("reg"@) && value.len() >= 4 ==> holds_high_first(value, 0, 4, number as int),
        name == ascii("status"@) && value.len() >= 1 ==> value.last() == 0 && is_text(
            value.drop_last(),
        ),
    ensures
        dtb::cpu_with(b, h, c, off, at + 12, value.len() as int) == says(name, value, number, c),
{
    law_names();
    lemma_names_are_texts();
    law_processor_is_described(b, h, c, at, name, value, next, off);
    let d = dtb::cpu_with(b, h, c, off, at + 12, value.len() as int);
    lemma_token(b, h, at, Event::Prop(name, value), next);
    assert(dtb::token_at(b, h, at)->Prop_nameoff == off) by {
        layout::lemma_read_back(b, at + 8, off);
        layout::lemma_read_back(b, at, 3);
    }
    assert(is_text(dtb::STATUS@) && is_text(dtb::DEVICE_TYPE@));
    assert(dtb::is_prop_named(b, h, off, dtb::REG@) <==> name == dtb::REG@);
    assert(dtb::is_prop_named(b, h, off, dtb::STATUS@) <==> name == dtb::STATUS@);
    assert(dtb::is_prop_named(b, h, off, dtb::DEVICE_TYPE@) <==> name == dtb::DEVICE_TYPE@);
    assert(dtb::REG@.len() == 3 && dtb::STATUS@.len() == 6 && dtb::DEVICE_TYPE@.len() == 11);
    if name == ascii("reg"@) && value.len() >= 4 {
        layout::lemma_read_back(value, 0, number as int);
        layout::lemma_read_back(value, 0, d.hart_id as int);
    }
}

/// The processors that the nodes under `/cpus` describe, from event `k` on. One is enabled
/// unless it says otherwise.
pub open spec fn processors(ev: Seq<Event>, k: int, numbers: Seq<u32>) -> Seq<(u32, bool)>
    decreases ev.len() - k,
{
    if k >= ev.len() {
        Seq::empty()
    } else if ev[k] is Begin && depth(ev, k) == 2 && inside(ev, k, ascii("cpus"@)) {
        let c = described(
            ev,
            k + 1,
            numbers,
            CpuNode { hart_id: 0, enabled: true, is_cpu: false },
        );
        if c.is_cpu {
            seq![(c.hart_id, c.enabled)] + processors(ev, k + 1, numbers)
        } else {
            processors(ev, k + 1, numbers)
        }
    } else {
        processors(ev, k + 1, numbers)
    }
}

/// Properties change neither the nodes that are open nor the processors behind them.
proof fn lemma_over_properties(ev: Seq<Event>, j: int, numbers: Seq<u32>)
    requires
        nested(ev),
        0 <= j <= ev.len(),
    ensures
        ({
            let m = behind_properties(ev, j);
            &&& j <= m <= ev.len()
            &&& depth(ev, m) == depth(ev, j)
            &&& inside(ev, m, ascii("cpus"@)) == inside(ev, j, ascii("cpus"@))
            &&& processors(ev, m, numbers) == processors(ev, j, numbers)
        }),
    decreases ev.len() - j,
{
    if j < ev.len() && ev[j] is Prop {
        lemma_inside_next(ev, j, ascii("cpus"@));
        lemma_over_properties(ev, j + 1, numbers);
    }
}

proof fn lemma_places_grow(b: Seq<u8>, h: FdtHeader, at: Seq<int>, ev: Seq<Event>, i: int, j: int)
    requires
        written(b, h, at, ev),
        0 <= i <= j <= ev.len(),
    ensures
        at[i] <= at[j],
        i < j ==> at[i] < at[j],
    decreases j - i,
{
    if i < j {
        assert(stands(b, h, at[j - 1], ev[j - 1], at[j]));
        lemma_places_grow(b, h, at, ev, i, j - 1);
    }
}

/// The processors of a machine are those that the nodes under `/cpus` describe, in order.
pub proof fn law_processors(
    b: Seq<u8>,
    h: FdtHeader,
    at: Seq<int>,
    ev: Seq<Event>,
    k: int,
    numbers: Seq<u32>,
    out: Seq<(u32, bool)>,
)
    requires
        written(b, h, at, ev),
        nested(ev),
        are_numbers(ev, numbers),
        0 <= k <= ev.len(),
    ensures
        dtb::cpus_from(b, h, at[k], depth(ev, k), inside(ev, k, ascii("cpus"@)), out) == out
            + processors(ev, k, numbers),
    decreases ev.len() - k,
{
    law_names();
    lemma_names_are_texts();
    let node = ascii("cpus"@);
    if k == ev.len() {
        lemma_finish(b, h, at, ev);
        assert(at[k] == at.last());
        assert(out + processors(ev, k, numbers) =~= out);
    } else {
        assert(stands(b, h, at[k], ev[k], at[k + 1]));
        lemma_token(b, h, at[k], ev[k], at[k + 1]);
        lemma_inside_next(ev, k, node);
        assert(depth(ev, k) >= 1);
        match ev[k] {
            Event::Begin(name) => {
                lemma_one_text(b, at[k] + 4, name, node);
                if depth(ev, k) == 2 && inside(ev, k, node) {
                    let first = CpuNode { hart_id: 0, enabled: true, is_cpu: false };
                    let c = described(ev, k + 1, numbers, first);
                    let m = behind_properties(ev, k + 1);
                    lemma_processor(b, h, at, ev, k + 1, numbers, first);
                    lemma_over_properties(ev, k + 1, numbers);
                    lemma_places_grow(b, h, at, ev, k, m);
                    let more = if c.is_cpu {
                        out.push((c.hart_id, c.enabled))
                    } else {
                        out
                    };
                    law_processors(b, h, at, ev, m, numbers, more);
                    assert(more + processors(ev, k + 1, numbers) =~= out + processors(
                        ev,
                        k,
                        numbers,
                    ));
                } else {
                    law_processors(b, h, at, ev, k + 1, numbers, out);
                }
            },
            Event::End => {
                law_processors(b, h, at, ev, k + 1, numbers, out);
            },
            Event::Prop(name, value) => {
                law_processors(b, h, at, ev, k + 1, numbers, out);
            },
        }
    }
}

/// The blob has the header, and the root node begins with the structure; its contents are the
/// events.
pub open spec fn is_blob(
    b: Seq<u8>,
    h: FdtHeader,
    name: Seq<u8>,
    at: Seq<int>,
    ev: Seq<Event>,
) -> bool {
    &&& b.len() >= 16
    &&& b[0] == 0xD0 && b[1] == 0x0D && b[2] == 0xFE && b[3] == 0xED
    &&& h.magic == 0xD00D_FEED
    &&& holds_high_first(b, 4, 4, h.total_size as int)
    &&& holds_high_first(b, 8, 4, h.off_dt_struct as int)
    &&& holds_high_first(b, 12, 4, h.off_dt_strings as int)
    &&& 16 <= h.total_size <= b.len()
    &&& h.off_dt_struct + 4 <= h.total_size
    &&& h.off_dt_strings + 4 <= h.total_size
    &&& written(b, h, at, ev)
    &&& nested(ev)
    &&& stands(b, h, h.off_dt_struct as int, Event::Begin(name), at[0])
}

proof fn lemma_blob(b: Seq<u8>, h: FdtHeader, name: Seq<u8>, at: Seq<int>, ev: Seq<Event>)
    requires
        is_blob(b, h, name, at, ev),
    ensures
        dtb::header_of(b) == Some(h),
        dtb::root_start(b, h) == Some(at[0]),
        depth(ev, 0) == 1,
        forall|node: Seq<u8>| !#[trigger] inside(ev, 0, node),
{
    law_header(b, h.total_size as int, h.off_dt_struct as int, h.off_dt_strings as int);
    law_root(b, h, name, at[0]);
}

/// What a blob says of the processors, of the firmware's tables and of the properties of a
/// node is what the contents of its root say.
pub proof fn law_blob(
    b: Seq<u8>,
    h: FdtHeader,
    name: Seq<u8>,
    at: Seq<int>,
    ev: Seq<Event>,
    numbers: Seq<u32>,
    node: Seq<u8>,
    prop: Seq<u8>,
)
    requires
        is_blob(b, h, name, at, ev),
        is_text(node),
        is_text(prop),
    ensures
        are_numbers(ev, numbers) ==> dtb::cpus_of(b) == processors(ev, 0, numbers),
        dtb::props_walked(b, node, prop) == (places(at, ev, 0, node, prop), true),
        dtb::rsdp_of(b) == dtb::rsdp_from(b, h, at[0], depth(ev, 0), inside(ev, 0, node)),
{
    lemma_blob(b, h, name, at, ev);
    let none = Seq::<(u64, u32)>::empty();
    assert(!inside(ev, 0, node));
    law_properties_are_found(b, h, at, ev, 0, node, prop, none);
    assert(none + places(at, ev, 0, node, prop) =~= places(at, ev, 0, node, prop));
    if are_numbers(ev, numbers) {
        let none = Seq::<(u32, bool)>::empty();
        assert(!inside(ev, 0, ascii("cpus"@)));
        law_processors(b, h, at, ev, 0, numbers, none);
        assert(none + processors(ev, 0, numbers) =~= processors(ev, 0, numbers));
    }
}

/// The memory that a blob describes is what the properties `reg` of its nodes `memory` and
/// `memory@80000000` say, with as many words for an address and a size as the root says, or two
/// of each.
pub proof fn law_memory_of_a_blob(
    b: Seq<u8>,
    h: FdtHeader,
    name: Seq<u8>,
    at: Seq<int>,
    ev: Seq<Event>,
    m: int,
    numbers: Seq<u32>,
    each: Seq<Seq<(u64, u64)>>,
)
    requires
        is_blob(b, h, name, at, ev),
        0 <= m < ev.len(),
        !(ev[m] is Prop),
        forall|i: int| #![trigger ev[i]]
            0 <= i < m ==> (ev[i] matches Event::Prop(x, value) && (x == ascii("#address-cells"@)
                || x == ascii("#size-cells"@) ==> value.len() >= 4 && holds_high_first(
                value,
                0,
                4,
                numbers[i] as int,
            ))),
        ({
            let a = last_number(ev, 0, m, ascii("#address-cells"@), numbers, 2);
            let s = last_number(ev, 0, m, ascii("#size-cells"@), numbers, 2);
            &&& 1 <= a <= 2
            &&& 1 <= s <= 2
            &&& forall|i: int| #![trigger ev[i]]
                m <= i < ev.len() && is_memory(ev, i) ==> are_pairs(
                    ev[i]->Prop_1,
                    a as int,
                    s as int,
                    each[i],
                )
        }),
    ensures
        dtb::described_memory(b) == dtb::regions_of(
            memory_pairs(ev, m, each),
            memory_pairs(ev, m, each).len() as int,
            Seq::empty(),
        ),
{
    let a = last_number(ev, 0, m, ascii("#address-cells"@), numbers, 2);
    let s = last_number(ev, 0, m, ascii("#size-cells"@), numbers, 2);
    lemma_blob(b, h, name, at, ev);
    law_cells_of_the_root(b, h, at, ev, 0, m, numbers, 2, 2);
    lemma_root_properties(ev, 0, m);
    law_memory_is_what_is_meant(b, h, at, ev, m, a as int, s as int, each, Seq::empty());
}

/// The properties of the root lie in no node.
proof fn lemma_root_properties(ev: Seq<Event>, k: int, m: int)
    requires
        nested(ev),
        0 <= k <= m <= ev.len(),
        depth(ev, k) == 1,
        forall|i: int| #![trigger ev[i]] k <= i < m ==> ev[i] is Prop,
    ensures
        depth(ev, m) == 1,
        forall|node: Seq<u8>| !#[trigger] inside(ev, m, node),
    decreases m - k,
{
    if k < m {
        assert(ev[k] is Prop);
        assert(depth(ev, k + 1) == 1);
        lemma_root_properties(ev, k + 1, m);
    } else {
        assert forall|node: Seq<u8>| !#[trigger] inside(ev, m, node) by {
            if inside(ev, m, node) {
                let j = choose|j: int|
                    0 <= j < m && ev[j] == Event::Begin(node) && depth(ev, j) == 1 && (forall|
                        x: int,
                    | j < x <= m ==> #[trigger] depth(ev, x) >= 2);
                assert(depth(ev, m) >= 2);
            }
        }
    }
}

/// No more than eight regions of memory are kept.
pub proof fn law_eight_regions()
    ensures
        MAX_MEMORY_REGIONS == 8,
{
}

} // verus!
