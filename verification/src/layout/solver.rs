//! The size solver: how a container's extent along its axis is divided among
//! children that ask for a fixed size, a share, or a part of what is left.
//!
//! Fixed sizes are granted first. Shares are taken of what the fixed sizes
//! leave; where the shares add up to more than the whole, every share is cut by
//! the same amount, the excess divided by their number and rounded up. What is
//! then left is divided evenly among the `Fill` children, the first of them in
//! child order taking one cell more where the division leaves a remainder.

use crate::layout::geometry::{saturate, Axis, Constraint, Rect, FULL_SHARE};
use vstd::prelude::*;

verus! {

/// The fixed size that `c` asks for; 0 where it asks for none.
pub open spec fn fixed_part(c: Constraint) -> nat {
    match c {
        Constraint::Fixed(n) => n as nat,
        _ => 0,
    }
}

/// The share that `c` asks for; 0 where it asks for none.
pub open spec fn share_part(c: Constraint) -> nat {
    match c {
        Constraint::Percentage(p) => p as nat,
        _ => 0,
    }
}

/// The sum of the fixed sizes among the first `n` constraints.
pub open spec fn fixed_upto(cs: Seq<Constraint>, n: nat) -> nat
    decreases n,
{
    if n == 0 || n > cs.len() {
        0
    } else {
        fixed_upto(cs, (n - 1) as nat) + fixed_part(cs[n - 1])
    }
}

/// The sum of the shares among the first `n` constraints.
pub open spec fn share_upto(cs: Seq<Constraint>, n: nat) -> nat
    decreases n,
{
    if n == 0 || n > cs.len() {
        0
    } else {
        share_upto(cs, (n - 1) as nat) + share_part(cs[n - 1])
    }
}

/// How many of the first `n` constraints are shares.
pub open spec fn shares_upto(cs: Seq<Constraint>, n: nat) -> nat
    decreases n,
{
    if n == 0 || n > cs.len() {
        0
    } else {
        shares_upto(cs, (n - 1) as nat) + if cs[n - 1] is Percentage {
            1nat
        } else {
            0nat
        }
    }
}

/// How many of the first `n` constraints are `Fill`.
pub open spec fn fills_upto(cs: Seq<Constraint>, n: nat) -> nat
    decreases n,
{
    if n == 0 || n > cs.len() {
        0
    } else {
        fills_upto(cs, (n - 1) as nat) + if cs[n - 1] is Fill {
            1nat
        } else {
            0nat
        }
    }
}

/// The sum of all fixed sizes.
pub open spec fn fixed_total(cs: Seq<Constraint>) -> nat {
    fixed_upto(cs, cs.len())
}

/// The sum of all shares, before any cut.
pub open spec fn share_total(cs: Seq<Constraint>) -> nat {
    share_upto(cs, cs.len())
}

/// The number of shares.
pub open spec fn share_count(cs: Seq<Constraint>) -> nat {
    shares_upto(cs, cs.len())
}

/// The number of `Fill` children.
pub open spec fn fill_count(cs: Seq<Constraint>) -> nat {
    fills_upto(cs, cs.len())
}

/// What is taken off every share: nothing while the shares add up to at most
/// the whole, else the excess divided by the number of shares, rounded up.
pub open spec fn share_cut(cs: Seq<Constraint>) -> nat {
    if share_total(cs) > FULL_SHARE {
        ((share_total(cs) - FULL_SHARE + share_count(cs) - 1) / (share_count(cs) as int)) as nat
    } else {
        0
    }
}

/// A share after the cut; a share smaller than the cut comes to nothing.
pub open spec fn cut_share(share: nat, cut: nat) -> nat {
    if share > cut {
        (share - cut) as nat
    } else {
        0
    }
}

/// The cells that a share of `room` comes to, rounded to the nearest cell, a
/// half rounded up.
pub open spec fn share_cells(share: nat, cut: nat, room: nat) -> nat {
    ((2 * cut_share(share, cut) * room + FULL_SHARE) / (2 * FULL_SHARE)) as nat
}

/// What the fixed sizes leave of `extent`.
pub open spec fn room_after_fixed(extent: nat, cs: Seq<Constraint>) -> nat {
    if fixed_total(cs) >= extent {
        0
    } else {
        (extent - fixed_total(cs)) as nat
    }
}

/// The size of a share child.
pub open spec fn share_size(extent: nat, cs: Seq<Constraint>, c: Constraint) -> usize {
    saturate(share_cells(share_part(c), share_cut(cs), room_after_fixed(extent, cs)) as int)
}

/// The sum of the sizes of the share children among the first `n` children.
pub open spec fn share_sizes_upto(extent: nat, cs: Seq<Constraint>, n: nat) -> nat
    decreases n,
{
    if n == 0 || n > cs.len() {
        0
    } else {
        share_sizes_upto(extent, cs, (n - 1) as nat) + if cs[n - 1] is Percentage {
            share_size(extent, cs, cs[n - 1]) as nat
        } else {
            0nat
        }
    }
}

/// The sum of the sizes of all share children.
pub open spec fn share_sizes_total(extent: nat, cs: Seq<Constraint>) -> nat {
    share_sizes_upto(extent, cs, cs.len())
}

/// What fixed sizes and shares leave of `extent`.
pub open spec fn room_after_shares(extent: nat, cs: Seq<Constraint>) -> nat {
    if share_sizes_total(extent, cs) >= room_after_fixed(extent, cs) {
        0
    } else {
        (room_after_fixed(extent, cs) - share_sizes_total(extent, cs)) as nat
    }
}

/// The size of the `rank`-th of `count` `Fill` children that divide `room`.
pub open spec fn fill_cells(rank: nat, room: nat, count: nat) -> nat {
    if count == 0 {
        0
    } else {
        (room / count + if rank < room % count {
            1nat
        } else {
            0nat
        }) as nat
    }
}

/// The size of child `i` of a container that is `extent` cells long and whose
/// children ask for `cs`.
pub open spec fn size_of(extent: nat, cs: Seq<Constraint>, i: int) -> usize {
    match cs[i] {
        Constraint::Fixed(n) => n,
        Constraint::Percentage(_) => share_size(extent, cs, cs[i]),
        Constraint::Fill => fill_cells(
            fills_upto(cs, i as nat),
            room_after_shares(extent, cs),
            fill_count(cs),
        ) as usize,
    }
}

/// The sizes of all children, in child order.
pub open spec fn solved(extent: nat, cs: Seq<Constraint>) -> Seq<usize> {
    Seq::new(cs.len(), |i: int| size_of(extent, cs, i))
}

/// The sum of the first `n` of `sizes`.
pub open spec fn sum_upto(sizes: Seq<usize>, n: nat) -> nat
    decreases n,
{
    if n == 0 || n > sizes.len() {
        0
    } else {
        sum_upto(sizes, (n - 1) as nat) + sizes[n - 1] as nat
    }
}

/// The rectangle of child `i` in a container that occupies `bounds`, arranges
/// its children along `axis` and gives them `sizes`: the children follow one
/// another from the container's origin, each starting where the one before
/// ends, and each spans the container across the axis.
pub open spec fn child_rect(bounds: Rect, axis: Axis, sizes: Seq<usize>, i: int) -> Rect {
    bounds.slice_along(axis, sum_upto(sizes, i as nat) as int, sizes[i])
}

/// The sum of the cut shares among the first `n` constraints.
pub open spec fn cut_share_upto(cs: Seq<Constraint>, cut: nat, n: nat) -> nat
    decreases n,
{
    if n == 0 || n > cs.len() {
        0
    } else {
        cut_share_upto(cs, cut, (n - 1) as nat) + if cs[n - 1] is Percentage {
            cut_share(share_part(cs[n - 1]), cut)
        } else {
            0nat
        }
    }
}

/// What the first `m` of `count` `Fill` children take of `room` together.
pub open spec fn fill_cells_upto(m: nat, room: nat, count: nat) -> nat {
    if count == 0 {
        0
    } else {
        m * (room / count) + if m < room % count {
            m
        } else {
            room % count
        }
    }
}

/// A `Fill` child never takes more than there is, and all of them together
/// take exactly what there is.
proof fn lemma_fill_cells(rank: nat, room: nat, count: nat)
    requires
        count > 0,
    ensures
        fill_cells(rank, room, count) <= room,
        fill_cells_upto(0, room, count) == 0,
        fill_cells_upto(rank + 1, room, count) == fill_cells_upto(rank, room, count) + fill_cells(
            rank,
            room,
            count,
        ),
        fill_cells_upto(count, room, count) == room,
{
    let base = room / count;
    let extra = room % count;
    assert(base * count + extra == room) by {
        vstd::arithmetic::div_mod::lemma_fundamental_div_mod(room as int, count as int);
        vstd::arithmetic::mul::lemma_mul_is_commutative(base as int, count as int);
    }
    assert(0 <= extra < count) by {
        vstd::arithmetic::div_mod::lemma_mod_bound(room as int, count as int);
    }
    assert(base * count >= base) by (nonlinear_arith)
        requires
            count >= 1,
            base >= 0,
    ;
    assert((rank + 1) * base == rank * base + base) by (nonlinear_arith);
    assert(0 * base == 0);
    assert(count * base == base * count) by (nonlinear_arith);
}

/// The sizes of the first `n` children add up to the fixed sizes, the shares
/// and the parts of the `Fill` children among them.
proof fn lemma_fill_prefix(cs: Seq<Constraint>, extent: nat, n: nat)
    requires
        n <= cs.len(),
        extent <= usize::MAX,
    ensures
        fills_upto(cs, n) <= fill_count(cs),
        sum_upto(solved(extent, cs), n) == fixed_upto(cs, n) + share_sizes_upto(extent, cs, n)
            + fill_cells_upto(fills_upto(cs, n), room_after_shares(extent, cs), fill_count(cs)),
    decreases n,
{
    lemma_fills_monotone(cs, n, cs.len());
    let room = room_after_shares(extent, cs);
    let count = fill_count(cs);
    if n > 0 {
        lemma_fill_prefix(cs, extent, (n - 1) as nat);
        lemma_fills_monotone(cs, (n - 1) as nat, n);
        let m = fills_upto(cs, (n - 1) as nat);
        let sizes = solved(extent, cs);
        assert(sizes[n - 1] == size_of(extent, cs, n - 1));
        assert(sum_upto(sizes, n) == sum_upto(sizes, (n - 1) as nat) + sizes[n - 1]);
        match cs[n - 1] {
            Constraint::Fixed(v) => {
                assert(fills_upto(cs, n) == m);
            },
            Constraint::Percentage(_) => {
                assert(fills_upto(cs, n) == m);
            },
            Constraint::Fill => {
                assert(fills_upto(cs, n) == m + 1);
                assert(count > 0);
                lemma_fill_cells(m, room, count);
                assert(sizes[n - 1] == fill_cells(m, room, count));
            },
        }
    } else {
        if count > 0 {
            lemma_fill_cells(0, room, count);
        }
    }
}

/// The count of `Fill` children grows with the prefix.
proof fn lemma_fills_monotone(cs: Seq<Constraint>, a: nat, b: nat)
    requires
        a <= b <= cs.len(),
    ensures
        fills_upto(cs, a) <= fills_upto(cs, b),
    decreases b,
{
    if a < b {
        lemma_fills_monotone(cs, a, (b - 1) as nat);
    }
}

/// Conservation: the sizes of the children add up to exactly the extent of the
/// container, whenever fixed sizes and shares together ask for no more than the
/// extent and, where they ask for less, there is a `Fill` child to take the rest.
pub proof fn lemma_sizes_fill_the_extent(extent: nat, cs: Seq<Constraint>)
    requires
        extent <= usize::MAX,
        fixed_total(cs) + share_sizes_total(extent, cs) <= extent,
        fill_count(cs) > 0 || fixed_total(cs) + share_sizes_total(extent, cs) == extent,
    ensures
        sum_upto(solved(extent, cs), cs.len()) == extent,
{
    lemma_fill_prefix(cs, extent, cs.len());
    let room = room_after_shares(extent, cs);
    let count = fill_count(cs);
    if count > 0 {
        lemma_fill_cells(0, room, count);
    }
}

/// Every child starts where the one before it ends: no gap and no overlap.
pub proof fn lemma_children_abut(sizes: Seq<usize>, i: int)
    requires
        0 <= i,
        i + 1 < sizes.len(),
    ensures
        sum_upto(sizes, (i + 1) as nat) == sum_upto(sizes, i as nat) + sizes[i],
{
}

/// Without a share smaller than the cut, the cut shares are the shares less one
/// cut for each.
proof fn lemma_cut_share_sum(cs: Seq<Constraint>, cut: nat, n: nat)
    requires
        n <= cs.len(),
        forall|i: int| 0 <= i < cs.len() && cs[i] is Percentage ==> share_part(#[trigger] cs[i]) >= cut,
    ensures
        cut_share_upto(cs, cut, n) + shares_upto(cs, n) * cut == share_upto(cs, n),
    decreases n,
{
    if n > 0 {
        lemma_cut_share_sum(cs, cut, (n - 1) as nat);
        let k = shares_upto(cs, (n - 1) as nat);
        assert((k + 1) * cut == k * cut + cut) by (nonlinear_arith);
        if cs[n - 1] is Percentage {
            assert(share_part(cs[n - 1]) >= cut);
            assert(shares_upto(cs, n) == k + 1);
            assert(cut_share_upto(cs, cut, n) == cut_share_upto(cs, cut, (n - 1) as nat)
                + share_part(cs[n - 1]) - cut);
        } else {
            assert(shares_upto(cs, n) == k);
        }
    } else {
        assert(shares_upto(cs, 0) * cut == 0) by (nonlinear_arith)
            requires
                shares_upto(cs, 0) == 0,
        ;
    }
}

/// Shares that add up to more than the whole are cut back to the whole: where
/// no share is smaller than the cut, the cut shares add up to at most
/// `FULL_SHARE`, and fall short of it by less than their number.
pub proof fn lemma_cut_shares_fit(cs: Seq<Constraint>)
    requires
        share_total(cs) > FULL_SHARE,
        forall|i: int|
            0 <= i < cs.len() && cs[i] is Percentage ==> share_part(#[trigger] cs[i]) >= share_cut(
                cs,
            ),
    ensures
        cut_share_upto(cs, share_cut(cs), cs.len()) <= FULL_SHARE,
        cut_share_upto(cs, share_cut(cs), cs.len()) + share_count(cs) > FULL_SHARE,
{
    let cut = share_cut(cs);
    let n = share_count(cs);
    let excess = (share_total(cs) - FULL_SHARE) as nat;
    lemma_cut_share_sum(cs, cut, cs.len());
    lemma_share_count_positive(cs, cs.len());
    assert(n > 0);
    let q = (excess + n - 1) / (n as int);
    let r = (excess + n - 1) % (n as int);
    assert(cut == q);
    assert(n * q + r == excess + n - 1) by {
        vstd::arithmetic::div_mod::lemma_fundamental_div_mod((excess + n - 1) as int, n as int);
    }
    assert(0 <= r < n) by {
        vstd::arithmetic::div_mod::lemma_mod_bound((excess + n - 1) as int, n as int);
    }
    assert(n * cut == n * q);
    assert(n * cut >= excess);
    assert(n * cut < excess + n);
}

/// Where the shares add up to something, there is a share.
proof fn lemma_share_count_positive(cs: Seq<Constraint>, n: nat)
    requires
        n <= cs.len(),
    ensures
        share_upto(cs, n) > 0 ==> shares_upto(cs, n) > 0,
    decreases n,
{
    if n > 0 {
        lemma_share_count_positive(cs, (n - 1) as nat);
    }
}

/// A share comes to at most as many cells as its rounding allows.
proof fn lemma_share_cells_bound(share: nat, cut: nat, room: nat)
    requires
        share <= u32::MAX,
        room <= usize::MAX,
    ensures
        2 * cut_share(share, cut) * room + FULL_SHARE <= u128::MAX,
        2 * cut_share(share, cut) * room >= 0,
{
    let s = cut_share(share, cut);
    assert(s <= 0xffff_ffff);
    assert(room <= 0xffff_ffff_ffff_ffff);
    assert(2 * s * room <= 2 * 0xffff_ffff * 0xffff_ffff_ffff_ffff) by (nonlinear_arith)
        requires
            s <= 0xffff_ffff,
            room <= 0xffff_ffff_ffff_ffff,
    ;
}

/// Divides `extent` cells among children that ask for `sizes`.
pub fn compute_sizes(extent: usize, sizes: &Vec<Constraint>) -> (out: Vec<usize>)
    ensures
        out@ == solved(extent as nat, sizes@),
{
    let n: usize = sizes.len();
    let ghost cs = sizes@;
    let ghost ext = extent as nat;
    // The totals of what is asked for.
    let mut fixed: usize = 0;
    let mut shares: u128 = 0;
    let mut share_n: usize = 0;
    let mut fill_n: usize = 0;
    let mut i: usize = 0;
    while i < n
        invariant
            i <= n,
            n == sizes.len(),
            cs == sizes@,
            fixed == saturate(fixed_upto(cs, i as nat) as int),
            shares == share_upto(cs, i as nat),
            shares <= i * 0xffff_ffff,
            share_n == shares_upto(cs, i as nat),
            share_n <= i,
            fill_n == fills_upto(cs, i as nat),
            fill_n <= i,
        decreases n - i,
    {
        match sizes[i] {
            Constraint::Fixed(k) => {
                fixed = fixed.saturating_add(k);
            },
            Constraint::Percentage(p) => {
                assert((i + 1) * 0xffff_ffff == i * 0xffff_ffff + 0xffff_ffff) by (nonlinear_arith);
                shares = shares + p as u128;
                share_n = share_n + 1;
            },
            Constraint::Fill => {
                fill_n = fill_n + 1;
            },
        }
        assert((i + 1) * 0xffff_ffff == i * 0xffff_ffff + 0xffff_ffff) by (nonlinear_arith);
        i = i + 1;
    }
    let cut: u128 = if shares > FULL_SHARE as u128 {
        proof {
            lemma_share_count_positive(cs, n as nat);
        }
        (shares - FULL_SHARE as u128 + share_n as u128 - 1) / (share_n as u128)
    } else {
        0
    };
    assert(cut == share_cut(cs));
    let room: usize = extent.saturating_sub(fixed);
    assert(room == room_after_fixed(ext, cs));
    // What the shares take.
    let mut taken: usize = 0;
    let mut j: usize = 0;
    while j < n
        invariant
            j <= n,
            n == sizes.len(),
            cs == sizes@,
            ext == extent,
            cut == share_cut(cs),
            room == room_after_fixed(ext, cs),
            taken == saturate(share_sizes_upto(ext, cs, j as nat) as int),
        decreases n - j,
    {
        if let Constraint::Percentage(p) = sizes[j] {
            let cells = share_of(p, cut, room);
            taken = taken.saturating_add(cells);
        }
        j = j + 1;
    }
    let left: usize = room.saturating_sub(taken);
    assert(left == room_after_shares(ext, cs));
    // The sizes, in child order.
    let mut out: Vec<usize> = Vec::with_capacity(n);
    let mut rank: usize = 0;
    let mut k: usize = 0;
    while k < n
        invariant
            k <= n,
            n == sizes.len(),
            cs == sizes@,
            ext == extent,
            cut == share_cut(cs),
            room == room_after_fixed(ext, cs),
            left == room_after_shares(ext, cs),
            fill_n == fill_count(cs),
            rank == fills_upto(cs, k as nat),
            rank <= k,
            out.len() == k,
            forall|m: int| 0 <= m < k ==> out[m] == size_of(ext, cs, m),
        decreases n - k,
    {
        let size: usize = match sizes[k] {
            Constraint::Fixed(v) => v,
            Constraint::Percentage(p) => share_of(p, cut, room),
            Constraint::Fill => {
                proof {
                    lemma_fills_monotone(cs, (k + 1) as nat, n as nat);
                    lemma_fill_cells(rank as nat, left as nat, fill_n as nat);
                }
                let part = left / fill_n + if rank < left % fill_n {
                    1
                } else {
                    0
                };
                rank = rank + 1;
                part
            },
        };
        out.push(size);
        k = k + 1;
    }
    assert(out@ =~= solved(ext, cs));
    out
}

/// The cells that the share `p`, cut by `cut`, takes of `room`.
fn share_of(p: u32, cut: u128, room: usize) -> (cells: usize)
    ensures
        cells == saturate(share_cells(p as nat, cut as nat, room as nat) as int),
{
    let share: u128 = if p as u128 > cut {
        p as u128 - cut
    } else {
        0
    };
    proof {
        lemma_share_cells_bound(p as nat, cut as nat, room as nat);
        assert(share == cut_share(p as nat, cut as nat));
        assert(2 * share * (room as int) == 2 * cut_share(p as nat, cut as nat) * (room as nat));
    }
    let doubled: u128 = 2 * share;
    let wide: u128 = (doubled * room as u128 + FULL_SHARE as u128) / (2 * FULL_SHARE as u128);
    if wide > usize::MAX as u128 {
        usize::MAX
    } else {
        wide as usize
    }
}

/// Lays the children of a container out along `axis` within `bounds`, giving
/// child `i` the size `sizes[i]`.
pub fn place_children(bounds: &Rect, axis: Axis, sizes: &Vec<usize>) -> (out: Vec<Rect>)
    ensures
        out.len() == sizes.len(),
        forall|i: int| 0 <= i < out.len() ==> out[i] == child_rect(*bounds, axis, sizes@, i),
{
    let n: usize = sizes.len();
    let mut out: Vec<Rect> = Vec::with_capacity(n);
    let mut current: usize = bounds.origin(axis);
    let mut i: usize = 0;
    while i < n
        invariant
            i <= n,
            n == sizes.len(),
            out.len() == i,
            current == saturate(bounds.origin_along(axis) + sum_upto(sizes@, i as nat)),
            forall|m: int| 0 <= m < i ==> out[m] == child_rect(*bounds, axis, sizes@, m),
        decreases n - i,
    {
        let size: usize = sizes[i];
        let rect = match axis {
            Axis::Horizontal => Rect {
                x: current,
                y: bounds.y,
                width: size,
                height: bounds.height,
            },
            Axis::Vertical => Rect { x: bounds.x, y: current, width: bounds.width, height: size },
        };
        out.push(rect);
        current = current.saturating_add(size);
        i = i + 1;
    }
    out
}

} // verus!
