//! What holds of an NTFS volume, stated of its bytes.

use vstd::arithmetic::power::pow;
use vstd::prelude::*;

use crate::layout;
use crate::layout::{byte_of, holds_low_first, low_first};
use crate::ntfs::runs;
use crate::ntfs::runs::{Run, MAX_RUNS};

verus! {

proof fn lemma_pow256(k: nat)
    ensures
        runs::pow256(k) == pow(256, k),
    decreases k,
{
    layout::lemma_powers();
    if k > 0 {
        lemma_pow256((k - 1) as nat);
        layout::lemma_next_power((k - 1) as nat);
    }
}

/// The number of `k` bytes is the one below 256 to the power `k` that has these bytes, low
/// byte first.
pub proof fn law_number_has_its_bytes(s: Seq<u8>, pos: int, k: nat)
    ensures
        holds_low_first(s, pos, k, runs::le_num(s, pos, k)),
    decreases k,
{
    layout::lemma_powers();
    if k > 0 {
        law_number_has_its_bytes(s, pos + 1, (k - 1) as nat);
        layout::lemma_low_longer(s, pos, (k - 1) as nat, runs::le_num(s, pos + 1, (k - 1) as nat));
    }
}

/// The signed number of `k` bytes lies from minus to plus half of 256 to the power `k`, and
/// differs from the number that has these bytes by a multiple of that power: by none or by
/// one. It is negative exactly where the highest bit of the last byte is set.
pub proof fn law_signed_number(s: Seq<u8>, pos: int, k: nat, unsigned: int)
    requires
        k >= 1,
        holds_low_first(s, pos, k, unsigned),
    ensures
        -pow(256, k) <= 2 * runs::signed_num(s, pos, k) < pow(256, k),
        runs::signed_num(s, pos, k) == unsigned || runs::signed_num(s, pos, k) == unsigned - pow(
            256,
            k,
        ),
        runs::signed_num(s, pos, k) < 0 <==> s[pos + k - 1] >= 0x80,
{
    let n = (k - 1) as nat;
    lemma_pow256(k);
    law_number_has_its_bytes(s, pos, k);
    layout::lemma_low_unique(s, pos, k, unsigned, runs::le_num(s, pos, k));
    layout::lemma_next_power(n);
    let p = pow(256, n);
    assert(s[pos + n] == byte_of(unsigned, n));
    assert(unsigned / p < 256) by (nonlinear_arith)
        requires
            0 <= unsigned < 256 * p,
            p > 0,
    ;
    assert(unsigned / p >= 0) by (nonlinear_arith)
        requires
            0 <= unsigned,
            p > 0,
    ;
    vstd::arithmetic::div_mod::lemma_fundamental_div_mod(unsigned, p);
    let q = unsigned / p;
    if q >= 128 {
        assert(p * q >= p * 128) by (nonlinear_arith)
            requires
                q >= 128,
                p > 0,
        ;
    } else {
        assert(p * q + p <= p * 128) by (nonlinear_arith)
            requires
                q + 1 <= 128,
                p > 0,
        ;
    }
}

/// The mapping pairs of `list`, whose run before it starts at cluster `lcn`: for each run a
/// byte with the widths of its two numbers, its length, and, unless it is a hole, how far it
/// starts from the run before it that is none. A zero ends them. `widths` are the widths
/// that the numbers are given.
pub open spec fn pairs_for(list: Seq<Run>, widths: Seq<(nat, nat)>, lcn: int) -> Seq<u8>
    decreases list.len(),
{
    if list.len() == 0 {
        seq![0u8]
    } else {
        let (a, b) = widths[0];
        if list[0].lcn < 0 {
            seq![a as u8] + low_first(list[0].len as int, a) + pairs_for(
                list.skip(1),
                widths.skip(1),
                lcn,
            )
        } else {
            seq![(a + 16 * b) as u8] + low_first(list[0].len as int, a) + low_first(
                (list[0].lcn - lcn) % pow(256, b),
                b,
            ) + pairs_for(list.skip(1), widths.skip(1), list[0].lcn as int)
        }
    }
}

/// The runs can be written as mapping pairs of these widths: they follow one another from
/// cluster `vcn` of the attribute on, whose first cluster is `base`, and every number fits
/// its width.
pub open spec fn is_writable(
    list: Seq<Run>,
    widths: Seq<(nat, nat)>,
    vcn: int,
    lcn: int,
    base: int,
) -> bool
    decreases list.len(),
{
    list.len() == 0 || {
        let (a, b) = widths[0];
        &&& 1 <= a <= 8
        &&& 1 <= b <= 8
        &&& 0 < list[0].len < pow(256, a)
        &&& list[0].vcn == base + vcn
        &&& vcn + list[0].len <= i64::MAX
        &&& base + vcn + list[0].len <= u64::MAX
        &&& list[0].lcn >= -1
        &&& list[0].lcn >= 0 ==> -pow(256, b) <= 2 * (list[0].lcn - lcn) < pow(256, b)
        &&& is_writable(
            list.skip(1),
            widths.skip(1),
            vcn + list[0].len,
            if list[0].lcn < 0 {
                lcn
            } else {
                list[0].lcn as int
            },
            base,
        )
    }
}

/// Where the lowest bytes of a number stand, they are its bytes.
proof fn lemma_holds(d: Seq<u8>, at: int, k: nat, v: int)
    requires
        0 <= v < pow(256, k),
        forall|j: int| 0 <= j < k ==> d[at + j] == #[trigger] low_first(v, k)[j],
    ensures
        holds_low_first(d, at, k, v),
{
    assert forall|j: nat| j < k implies d[at + j] == #[trigger] byte_of(v, j) by {
        assert(low_first(v, k)[j as int] == byte_of(v, j) as u8);
    }
}

/// Runs that are written as mapping pairs, behind `pos` bytes and `n` runs, are read back.
pub proof fn law_pairs_round_trip_from(
    d: Seq<u8>,
    pos: int,
    list: Seq<Run>,
    widths: Seq<(nat, nat)>,
    vcn: int,
    lcn: int,
    base: int,
    n: nat,
)
    requires
        is_writable(list, widths, vcn, lcn, base),
        0 <= pos,
        pos + pairs_for(list, widths, lcn).len() <= d.len(),
        forall|j: int|
            0 <= j < pairs_for(list, widths, lcn).len() ==> d[pos + j] == #[trigger] pairs_for(
                list,
                widths,
                lcn,
            )[j],
        n + list.len() < MAX_RUNS,
        vcn >= 0,
        base >= 0,
        0 <= lcn <= i64::MAX,
    ensures
        runs::runs_from(d, pos, vcn, lcn, base, n) == Some(list),
    decreases list.len(),
{
    let e = pairs_for(list, widths, lcn);
    if list.len() == 0 {
        assert(d[pos + 0] == e[0]);
        assert(list =~= Seq::empty());
    } else {
        let (a, b) = widths[0];
        let r = list[0];
        let hole = r.lcn < 0;
        let ob: nat = if hole {
            0
        } else {
            b
        };
        let next = if hole {
            lcn
        } else {
            r.lcn as int
        };
        let rest = pairs_for(list.skip(1), widths.skip(1), next);
        let len_bytes = low_first(r.len as int, a);
        assert(d[pos + 0] == e[0]);
        assert(d[pos] % 16 == a && d[pos] / 16 == ob);
        assert forall|j: int| 0 <= j < a implies d[pos + 1 + j] == #[trigger] len_bytes[j] by {
            assert(e[1 + j] == len_bytes[j]);
            assert(d[pos + (1 + j)] == e[1 + j]);
        }
        lemma_holds(d, pos + 1, a, r.len as int);
        law_number_has_its_bytes(d, pos + 1, a);
        layout::lemma_low_unique(d, pos + 1, a, r.len as int, runs::le_num(d, pos + 1, a));
        if !hole {
            let p = pow(256, b);
            let delta = r.lcn - lcn;
            let raw = delta % p;
            layout::lemma_next_power(b);
            let off_bytes = low_first(raw, b);
            assert(0 <= raw < p) by {
                vstd::arithmetic::div_mod::lemma_mod_bound(delta, p);
            }
            assert forall|j: int| 0 <= j < b implies d[pos + 1 + a + j]
                == #[trigger] off_bytes[j] by {
                assert(e[1 + a + j] == off_bytes[j]);
                assert(d[pos + (1 + a + j)] == e[1 + a + j]);
            }
            lemma_holds(d, pos + 1 + a, b, raw);
            law_signed_number(d, pos + 1 + a, b, raw);
            if delta >= 0 {
                vstd::arithmetic::div_mod::lemma_small_mod(delta as nat, p as nat);
            } else {
                vstd::arithmetic::div_mod::lemma_mod_add_multiples_vanish(delta, p);
                vstd::arithmetic::div_mod::lemma_small_mod((delta + p) as nat, p as nat);
            }
            assert(runs::pair_lcn(d, pos, lcn) == r.lcn);
        }
        let at = pos + 1 + a + ob;
        assert(e.len() == 1 + a + ob + rest.len());
        assert forall|j: int| 0 <= j < rest.len() implies d[at + j] == #[trigger] rest[j] by {
            assert(e[1 + a + ob + j] == rest[j]);
            assert(d[pos + (1 + a + ob + j)] == e[1 + a + ob + j]);
        }
        law_pairs_round_trip_from(
            d,
            at,
            list.skip(1),
            widths.skip(1),
            vcn + r.len,
            next,
            base,
            n + 1,
        );
        assert(runs::pair_end(d, pos) == at);
        assert(runs::pair_run(d, pos, vcn, lcn, base) == r);
        assert(seq![r] + list.skip(1) =~= list);
    }
}

/// Decoding mapping pairs gives back the runs that they were written for, whatever widths
/// their numbers were given and whatever stands behind them.
pub proof fn law_pairs_round_trip(
    list: Seq<Run>,
    widths: Seq<(nat, nat)>,
    base: u64,
    behind: Seq<u8>,
)
    requires
        is_writable(list, widths, 0, 0, base as int),
        list.len() < MAX_RUNS,
    ensures
        runs::runs_of(pairs_for(list, widths, 0) + behind, base) == Some(list),
{
    let e = pairs_for(list, widths, 0);
    law_pairs_round_trip_from(e + behind, 0, list, widths, 0, 0, base as int, 0);
}

} // verus!
