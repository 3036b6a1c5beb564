//! What holds of every overlay that is generated from a stock device tree.

use crate::blob::{found, root_of, value_of};
use crate::bytes::{be32, be_word, lemma_be_round_trip};
use crate::custom_laws::{nodes, nodes_all};
use crate::dtb_to_overlay::{
    child_starting, description, first_with, first_with_in, grid, init_lines, last_default,
    last_highest, mode_text, numbers, overlay_tree, panel_node, panel_source, reaches, size_of,
    sized, source_of, stretched, text_list, timing_of, timings_of, total, widened, Axis, PanelSize, SourceView, Timing,
};
use crate::panel_config::{search, search_all};
use crate::text::{decimal, hex_bytes, hexadecimal, joined, starts};
use crate::tree::{header_fault, BlobFault, Node, Prop};
use vstd::prelude::*;
use vstd::utf8::*;

verus! {

// ---------------------------------------------------------------------------
// Init sequences
// ---------------------------------------------------------------------------

/// A command of an init sequence.
pub ghost struct Command {
    pub kind: u8,
    pub wait: u8,
    pub data: Seq<u8>,
}

/// The bytes of commands one after the other: the kind, the wait, the length
/// and the data of each.
pub open spec fn command_bytes(cs: Seq<Command>) -> Seq<u8>
    decreases cs.len(),
{
    if cs.len() == 0 {
        Seq::empty()
    } else {
        let c = cs[0];
        seq![c.kind, c.wait, c.data.len() as u8] + c.data + command_bytes(cs.skip(1))
    }
}

/// Every complete command of an init sequence gives one line, in order and
/// whatever its kind: its data, and its wait where it has one. What is left
/// over at the end gives none.
pub proof fn lemma_init_commands(cs: Seq<Command>, rest: Seq<u8>)
    requires
        forall|i: int| 0 <= i < cs.len() ==> (#[trigger] cs[i]).data.len() <= 255,
        rest.len() < 3 || rest.len() < 3 + rest[2],
    ensures
        ({
            let lines = init_lines(command_bytes(cs) + rest, 0);
            &&& lines.len() == cs.len()
            &&& forall|i: int|
                0 <= i < cs.len() ==> {
                    &&& cs[i].wait == 0 ==> #[trigger] lines[i] == "I seq="@ + hex_bytes(cs[i].data)
                    &&& cs[i].wait > 0 ==> lines[i] == "I seq="@ + hex_bytes(cs[i].data) + " wait="@
                        + decimal(cs[i].wait as nat)
                }
        }),
{
    let b = command_bytes(cs) + rest;
    assert(b.skip(0) =~= b);
    lemma_commands_from(b, 0, cs, rest);
}

proof fn lemma_commands_from(b: Seq<u8>, pos: int, cs: Seq<Command>, rest: Seq<u8>)
    requires
        forall|i: int| 0 <= i < cs.len() ==> (#[trigger] cs[i]).data.len() <= 255,
        rest.len() < 3 || rest.len() < 3 + rest[2],
        0 <= pos <= b.len(),
        b.skip(pos) == command_bytes(cs) + rest,
    ensures
        ({
            let lines = init_lines(b, pos);
            &&& lines.len() == cs.len()
            &&& forall|i: int|
                0 <= i < cs.len() ==> {
                    &&& cs[i].wait == 0 ==> #[trigger] lines[i] == "I seq="@ + hex_bytes(cs[i].data)
                    &&& cs[i].wait > 0 ==> lines[i] == "I seq="@ + hex_bytes(cs[i].data) + " wait="@
                        + decimal(cs[i].wait as nat)
                }
        }),
    decreases cs.len(),
{
    let lines = init_lines(b, pos);
    let tail = b.skip(pos);
    if cs.len() == 0 {
        assert(tail =~= rest);
        if rest.len() >= 3 {
            assert(b[pos + 2] == rest[2]);
        }
    } else {
        let c = cs[0];
        let n = c.data.len() as int;
        let more = cs.skip(1);
        let head = seq![c.kind, c.wait, n as u8];
        assert(tail =~= head + c.data + (command_bytes(more) + rest));
        assert(b[pos + 1] == tail[1]);
        assert(b[pos + 2] == tail[2]);
        let end = pos + 3 + n;
        assert(b.subrange(pos + 3, end) =~= c.data) by {
            assert forall|k: int| 0 <= k < n implies b.subrange(pos + 3, end)[k] == c.data[k] by {
                assert(b[pos + 3 + k] == tail[3 + k]);
            }
        }
        assert(b.skip(end) =~= command_bytes(more) + rest) by {
            assert forall|k: int| 0 <= k < b.skip(end).len() implies b.skip(end)[k] == (command_bytes(
                more,
            ) + rest)[k] by {
                assert(b[end + k] == tail[3 + n + k]);
            }
        }
        assert forall|i: int| 0 <= i < more.len() implies (#[trigger] more[i]).data.len() <= 255 by {
            assert(more[i] == cs[i + 1]);
        }
        lemma_commands_from(b, end, more, rest);
        let next = init_lines(b, end);
        assert forall|i: int| 0 <= i < cs.len() implies {
            &&& cs[i].wait == 0 ==> #[trigger] lines[i] == "I seq="@ + hex_bytes(cs[i].data)
            &&& cs[i].wait > 0 ==> lines[i] == "I seq="@ + hex_bytes(cs[i].data) + " wait="@
                + decimal(cs[i].wait as nat)
        } by {
            if i > 0 {
                assert(lines[i] == next[i - 1]);
                assert(more[i - 1] == cs[i]);
            } else {
                let seq_part = "I seq="@ + hex_bytes(c.data);
                assert(seq_part + Seq::<char>::empty() =~= seq_part);
                assert(seq_part + (" wait="@ + decimal(c.wait as nat)) =~= seq_part + " wait="@
                    + decimal(c.wait as nat));
            }
        }
    }
}

// ---------------------------------------------------------------------------
// Properties
// ---------------------------------------------------------------------------

/// The first four bytes of a property are the number.
pub open spec fn holds(t: Node, name: Seq<char>, n: u32) -> bool {
    value_of(t.props, name) matches Some(v) && v.len() >= 4 && v.take(4) == be32(n)
}

/// A property is missing or too short for a number.
pub open spec fn lacks(t: Node, name: Seq<char>) -> bool {
    value_of(t.props, name) is None || value_of(t.props, name)->0.len() < 4
}

proof fn lemma_first_word(v: Seq<u8>)
    requires
        v.len() >= 4,
    ensures
        v.take(4) == be32(be_word(v, 0)),
{
    let a = v[0] as int;
    let b = v[1] as int;
    let c = v[2] as int;
    let d = v[3] as int;
    let n = a * 0x1000000 + b * 0x10000 + c * 0x100 + d;
    assert(be_word(v, 0) == n);
    assert(n / 0x1000000 == a);
    assert(n / 0x10000 == a * 0x100 + b);
    assert(n / 0x100 == a * 0x10000 + b * 0x100 + c);
    assert(v.take(4) =~= be32(be_word(v, 0)));
}

proof fn lemma_holds(t: Node, name: Seq<char>, n: u32)
    ensures
        !lacks(t, name) ==> (holds(t, name, n) <==> n == be_word(value_of(t.props, name)->0, 0)),
{
    if !lacks(t, name) {
        let v = value_of(t.props, name)->0;
        lemma_first_word(v);
        if v.take(4) == be32(n) {
            lemma_be_round_trip(n);
            lemma_be_round_trip(be_word(v, 0));
        }
    }
}

/// The value of a property that stands in a list, behind others with other
/// names.
pub proof fn lemma_value_stands(before: Seq<Prop>, p: Prop, after: Seq<
    Prop,
>)
    requires
        forall|i: int| 0 <= i < before.len() ==> (#[trigger] before[i]).name != p.name,
    ensures
        value_of(before + seq![p] + after, p.name) == Some(p.value),
        value_of(before, p.name) is None,
    decreases before.len(),
{
    let all = before + seq![p] + after;
    if before.len() == 0 {
        assert(all[0] == p);
    } else {
        assert(all[0] == before[0]);
        assert(all.skip(1) =~= before.skip(1) + seq![p] + after);
        assert forall|i: int| 0 <= i < before.skip(1).len() implies (#[trigger] before.skip(
            1,
        )[i]).name != p.name by {
            assert(before.skip(1)[i] == before[i + 1]);
        }
        lemma_value_stands(before.skip(1), p, after);
    }
}

// ---------------------------------------------------------------------------
// Display modes
// ---------------------------------------------------------------------------

/// The properties that every display mode needs, in the order in which they
/// are missed.
pub open spec fn needed_of_a_mode() -> Seq<Seq<char>> {
    seq![
        "clock-frequency"@,
        "hactive"@,
        "hfront-porch"@,
        "hsync-len"@,
        "hback-porch"@,
        "vactive"@,
        "vfront-porch"@,
        "vsync-len"@,
        "vback-porch"@,
    ]
}

/// A display mode is read exactly if it has all the numbers it needs, each
/// from the property of its own; else the first that is missing is named. It
/// is the default exactly if the native mode is the one with its handle.
#[verifier::rlimit(40)]
pub proof fn lemma_timing(t: Node, native: Option<u32>)
    ensures
        timing_of(t, native) matches Ok(x) ==> {
            &&& holds(t, "clock-frequency"@, x.clock_hz)
            &&& holds(t, "hactive"@, x.hor.active)
            &&& holds(t, "hfront-porch"@, x.hor.front_porch)
            &&& holds(t, "hsync-len"@, x.hor.sync_len)
            &&& holds(t, "hback-porch"@, x.hor.back_porch)
            &&& holds(t, "vactive"@, x.ver.active)
            &&& holds(t, "vfront-porch"@, x.ver.front_porch)
            &&& holds(t, "vsync-len"@, x.ver.sync_len)
            &&& holds(t, "vback-porch"@, x.ver.back_porch)
            &&& x.is_default <==> native is Some && (holds(t, "phandle"@, native->0) || lacks(
                t,
                "phandle"@,
            ) && native->0 == 0)
        },
        timing_of(t, native) matches Err(e) ==> exists|k: int|
            0 <= k < 9 && lacks(t, #[trigger] needed_of_a_mode()[k]) && e == "Missing property: "@
                + needed_of_a_mode()[k] && forall|j: int|
                0 <= j < k ==> !lacks(t, #[trigger] needed_of_a_mode()[j]),
{
    let w = needed_of_a_mode();
    let num = |n: Seq<char>| be_word(value_of(t.props, n)->0, 0);
    assert(w.len() == 9);
    lemma_holds(t, w[0], num(w[0]));
    lemma_holds(t, w[1], num(w[1]));
    lemma_holds(t, w[2], num(w[2]));
    lemma_holds(t, w[3], num(w[3]));
    lemma_holds(t, w[4], num(w[4]));
    lemma_holds(t, w[5], num(w[5]));
    lemma_holds(t, w[6], num(w[6]));
    lemma_holds(t, w[7], num(w[7]));
    lemma_holds(t, w[8], num(w[8]));
    if native is Some {
        lemma_holds(t, "phandle"@, native->0);
    }
    let first: int = if lacks(t, w[0]) {
        0
    } else if lacks(t, w[1]) {
        1
    } else if lacks(t, w[2]) {
        2
    } else if lacks(t, w[3]) {
        3
    } else if lacks(t, w[4]) {
        4
    } else if lacks(t, w[5]) {
        5
    } else if lacks(t, w[6]) {
        6
    } else if lacks(t, w[7]) {
        7
    } else {
        8
    };
    if timing_of(t, native) is Err {
        assert(lacks(t, w[first]));
        assert(timing_of(t, native)->Err_0 == "Missing property: "@ + w[first]);
        assert forall|j: int| 0 <= j < first implies !lacks(t, #[trigger] w[j]) by {
            assert(j == 0 || j == 1 || j == 2 || j == 3 || j == 4 || j == 5 || j == 6 || j == 7);
        }
    }
}

/// All display modes are read, in order, or the message is that of the first
/// that cannot be.
pub proof fn lemma_timings(ts: Seq<Node>, native: Option<u32>)
    ensures
        match timings_of(ts, native) {
            Ok(xs) => xs.len() == ts.len() && forall|i: int|
                0 <= i < ts.len() ==> timing_of(#[trigger] ts[i], native) == Ok::<Timing, Seq<char>>(
                    xs[i],
                ),
            Err(e) => exists|k: int|
                0 <= k < ts.len() && timing_of(#[trigger] ts[k], native) == Err::<Timing, Seq<char>>(
                    e,
                ) && forall|j: int| 0 <= j < k ==> timing_of(#[trigger] ts[j], native) is Ok,
        },
    decreases ts.len(),
{
    if ts.len() > 0 {
        let pre = ts.drop_last();
        let n = pre.len() as int;
        lemma_timings(pre, native);
        assert(forall|i: int| 0 <= i < n ==> #[trigger] ts[i] == pre[i]);
        match timings_of(pre, native) {
            Ok(ys) => {
                assert forall|j: int| 0 <= j < n implies timing_of(#[trigger] ts[j], native)
                    is Ok by {
                    assert(pre[j] == ts[j]);
                }
                if timings_of(ts, native) is Ok {
                    let xs = timings_of(ts, native)->Ok_0;
                    assert forall|i: int| 0 <= i < ts.len() implies timing_of(
                        #[trigger] ts[i],
                        native,
                    ) == Ok::<Timing, Seq<char>>(xs[i]) by {
                        if i < n {
                            assert(pre[i] == ts[i]);
                        }
                    }
                } else {
                    assert(timing_of(ts[n], native) is Err);
                }
            },
            Err(e) => {
                let k = choose|k: int|
                    0 <= k < pre.len() && timing_of(#[trigger] pre[k], native) == Err::<
                        Timing,
                        Seq<char>,
                    >(e) && forall|j: int| 0 <= j < k ==> timing_of(#[trigger] pre[j], native) is Ok;
                assert(timing_of(ts[k], native) == Err::<Timing, Seq<char>>(e));
                assert forall|j: int| 0 <= j < k implies timing_of(#[trigger] ts[j], native)
                    is Ok by {
                    assert(pre[j] == ts[j]);
                }
            },
        }
    }
}

/// The default mode is the last that is one.
pub proof fn lemma_last_default(ts: Seq<Timing>)
    ensures
        match last_default(ts) {
            Some(i) => 0 <= i < ts.len() && ts[i].is_default && forall|j: int|
                i < j < ts.len() ==> !(#[trigger] ts[j]).is_default,
            None => forall|j: int| 0 <= j < ts.len() ==> !(#[trigger] ts[j]).is_default,
        },
    decreases ts.len(),
{
    if ts.len() > 0 && !ts.last().is_default {
        let pre = ts.drop_last();
        lemma_last_default(pre);
        assert(forall|i: int| 0 <= i < pre.len() ==> #[trigger] ts[i] == pre[i]);
    }
}

/// Where no rate reaches the target, the mode to start from is the last of
/// those with the highest rate.
pub proof fn lemma_highest(rates: Seq<Option<u64>>)
    requires
        rates.len() > 0,
        forall|j: int| 0 <= j < rates.len() ==> (#[trigger] rates[j]) is Some,
    ensures
        ({
            let m = last_highest(rates);
            &&& 0 <= m < rates.len()
            &&& forall|j: int| 0 <= j < rates.len() ==> (#[trigger] rates[j])->0 <= rates[m]->0
            &&& forall|j: int| m < j < rates.len() ==> (#[trigger] rates[j])->0 < rates[m]->0
        }),
    decreases rates.len(),
{
    if rates.len() > 1 {
        let pre = rates.drop_last();
        assert forall|j: int| 0 <= j < pre.len() implies (#[trigger] pre[j]) is Some by {
            assert(pre[j] == rates[j]);
        }
        lemma_highest(pre);
        assert(forall|j: int| 0 <= j < pre.len() ==> #[trigger] rates[j] == pre[j]);
        assert(rates[rates.len() - 1] is Some);
    }
}

/// A rate reaches a target exactly if it is at least as high.
pub proof fn lemma_reaches(a: u64, b: u64)
    ensures
        reaches(Some(a), Some(b)) <==> a >= b,
        !reaches(None, Some(b)),
        !reaches(Some(a), None),
{
}

/// A frame may be stretched by a quarter.
pub proof fn lemma_stretched(lines: u32)
    ensures
        lines <= stretched(lines) <= u32::MAX,
        4 * stretched(lines) <= 5 * lines,
        stretched(lines) < u32::MAX ==> 4 * (stretched(lines) + 1) > 5 * lines,
{
}

/// The candidates of a search are the pairs of a clock in steps of ten and a
/// line count, all of them, each once, the line counts in order and for each
/// the clocks in order.
pub proof fn lemma_candidates(first: u32, last: u32, lines: int, vtotal: u32, c: u32, vt: u32)
    requires
        lines <= u32::MAX,
    ensures
        grid(first, last, lines, first as int, vtotal as int).contains((c, vt)) <==> vtotal <= vt
            <= lines && first <= c <= last && (c - first) % 10 == 0,
        ({
            let g = grid(first, last, lines, first as int, vtotal as int);
            forall|i: int, j: int|
                0 <= i < j < g.len() ==> (#[trigger] g[i]).1 <= (#[trigger] g[j]).1 && (g[i].1
                    == g[j].1 ==> g[i].0 < g[j].0)
        }),
{
    lemma_grid(first, last, lines, first as int, vtotal as int, c, vt);
}

proof fn lemma_grid(first: u32, last: u32, lines: int, at: int, row: int, c: u32, vt: u32)
    requires
        lines <= u32::MAX,
        first <= at,
        (at - first) % 10 == 0,
        0 <= row,
    ensures
        ({
            let g = grid(first, last, lines, at, row);
            &&& g.contains((c, vt)) <==> vt <= lines && c <= last && (c - first) % 10 == 0 && (vt
                == row && at <= c || vt > row && first <= c)
            &&& forall|i: int, j: int|
                0 <= i < j < g.len() ==> (#[trigger] g[i]).1 <= (#[trigger] g[j]).1 && (g[i].1
                    == g[j].1 ==> g[i].0 < g[j].0)
            &&& forall|i: int|
                0 <= i < g.len() ==> row <= (#[trigger] g[i]).1 && (g[i].1 == row ==> at <= g[i].0)
        }),
    decreases lines + 1 - row, last + 10 - at,
{
    let g = grid(first, last, lines, at, row);
    if row > lines {
    } else if at > last {
        lemma_grid(first, last, lines, first as int, row + 1, c, vt);
    } else {
        let rest = grid(first, last, lines, at + 10, row);
        lemma_grid(first, last, lines, at + 10, row, c, vt);
        assert(g =~= seq![(at as u32, row as u32)] + rest);
        assert(g[0] == (at as u32, row as u32));
        assert forall|i: int, j: int| 0 <= i < j < g.len() implies (#[trigger] g[i]).1 <= (
        #[trigger] g[j]).1 && (g[i].1 == g[j].1 ==> g[i].0 < g[j].0) by {
            assert(g[j] == rest[j - 1]);
            if i > 0 {
                assert(g[i] == rest[i - 1]);
            }
        }
        if rest.contains((c, vt)) {
            let k = choose|k: int| 0 <= k < rest.len() && rest[k] == (c, vt);
            assert(g[k + 1] == (c, vt));
        }
        if g.contains((c, vt)) {
            let k = choose|k: int| 0 <= k < g.len() && g[k] == (c, vt);
            if k > 0 {
                assert(rest[k - 1] == (c, vt));
            }
        }
        assert forall|i: int| 0 <= i < g.len() implies row <= (#[trigger] g[i]).1 && (g[i].1 == row
            ==> at <= g[i].0) by {
            if i > 0 {
                assert(g[i] == rest[i - 1]);
            }
        }
    }
}

/// A mode that is stretched keeps its visible part and its porches; the sync
/// pulse grows until the sum is the one wanted, and never shrinks.
pub proof fn lemma_widened(a: Axis, to: u32)
    requires
        a.active + a.front_porch + a.sync_len + a.back_porch <= u32::MAX,
    ensures
        ({
            let w = widened(a, to);
            let sum = a.active + a.front_porch + a.sync_len + a.back_porch;
            &&& w.len() == 4
            &&& w[0] == a.active && w[1] == a.front_porch && w[3] == a.back_porch
            &&& w[2] >= a.sync_len
            &&& w[0] + w[1] + w[2] + w[3] == (if to > sum {
                to as int
            } else {
                sum
            })
        }),
{
    assert(total(a) == a.active + a.front_porch + a.sync_len + a.back_porch);
}

/// Four numbers with commas between them.
pub open spec fn four(a: u32, b: u32, c: u32, d: u32) -> Seq<char> {
    decimal(a as nat) + ","@ + decimal(b as nat) + ","@ + decimal(c as nat) + ","@ + decimal(
        d as nat,
    )
}

proof fn lemma_four(a: u32, b: u32, c: u32, d: u32)
    ensures
        joined(numbers(seq![a, b, c, d]), ","@) == four(a, b, c, d),
{
    let n = numbers(seq![a, b, c, d]);
    let one = seq![decimal(a as nat)];
    let two = one.push(decimal(b as nat));
    let three = two.push(decimal(c as nat));
    assert(n =~= three.push(decimal(d as nat)));
    assert(n.drop_last() =~= three);
    assert(three.drop_last() =~= two);
    assert(two.drop_last() =~= one);
    assert(joined(one, ","@) == decimal(a as nat));
    assert(joined(two, ","@) == joined(one, ","@) + ","@ + decimal(b as nat));
    assert(joined(three, ","@) == joined(two, ","@) + ","@ + decimal(c as nat));
}

/// The line of a mode gives its clock, its four numbers across and down, the
/// third of each lengthened to the sums wanted, and whether it is the default.
pub proof fn lemma_mode_line(t: Timing, clock: u32, htotal: u32, vtotal: u32)
    requires
        t.hor.active + t.hor.front_porch + t.hor.sync_len + t.hor.back_porch <= htotal,
        t.ver.active + t.ver.front_porch + t.ver.sync_len + t.ver.back_porch <= vtotal,
    ensures
        ({
            let hs = htotal - t.hor.active - t.hor.front_porch - t.hor.back_porch;
            let vs = vtotal - t.ver.active - t.ver.front_porch - t.ver.back_porch;
            let line = "M clock="@ + decimal(clock as nat) + " horizontal="@ + four(
                t.hor.active,
                t.hor.front_porch,
                hs as u32,
                t.hor.back_porch,
            ) + " vertical="@ + four(t.ver.active, t.ver.front_porch, vs as u32, t.ver.back_porch);
            &&& mode_text(t, clock, htotal, vtotal, false) == line
            &&& mode_text(t, clock, htotal, vtotal, true) == line + " default=1"@
        }),
{
    let hs = htotal - t.hor.active - t.hor.front_porch - t.hor.back_porch;
    let vs = vtotal - t.ver.active - t.ver.front_porch - t.ver.back_porch;
    lemma_four(t.hor.active, t.hor.front_porch, hs as u32, t.hor.back_porch);
    lemma_four(t.ver.active, t.ver.front_porch, vs as u32, t.ver.back_porch);
    assert(widened(t.hor, htotal) =~= seq![
        t.hor.active,
        t.hor.front_porch,
        hs as u32,
        t.hor.back_porch,
    ]);
    assert(widened(t.ver, vtotal) =~= seq![
        t.ver.active,
        t.ver.front_porch,
        vs as u32,
        t.ver.back_porch,
    ]);
    reveal_strlit("");
    assert(""@ =~= Seq::<char>::empty());
    let line = mode_text(t, clock, htotal, vtotal, false);
    assert(line =~= "M clock="@ + decimal(clock as nat) + " horizontal="@ + four(
        t.hor.active,
        t.hor.front_porch,
        hs as u32,
        t.hor.back_porch,
    ) + " vertical="@ + four(t.ver.active, t.ver.front_porch, vs as u32, t.ver.back_porch));
}

// ---------------------------------------------------------------------------
// The panel
// ---------------------------------------------------------------------------

/// What a panel node says of its panel is read from the property of that
/// name: lanes, flags, to which the low-power bit is added, the delays, which
/// are fifty where they are not given, and the pixel format.
#[verifier::rlimit(40)]
pub proof fn lemma_source(t: Node)
    requires
        source_of(t) is Ok,
    ensures
        ({
            let s = source_of(t)->Ok_0;
            &&& holds(t, "dsi,lanes"@, s.lanes)
            &&& exists|f: u32| #[trigger] holds(t, "dsi,flags"@, f) && s.flags == f | 0x400
            &&& s.delays.len() == 5
            &&& holds(t, "prepare-delay-ms"@, s.delays[0]) || lacks(t, "prepare-delay-ms"@)
                && s.delays[0] == 50
            &&& holds(t, "reset-delay-ms"@, s.delays[1]) || lacks(t, "reset-delay-ms"@)
                && s.delays[1] == 50
            &&& holds(t, "init-delay-ms"@, s.delays[2]) || lacks(t, "init-delay-ms"@)
                && s.delays[2] == 50
            &&& holds(t, "enable-delay-ms"@, s.delays[3]) || lacks(t, "enable-delay-ms"@)
                && s.delays[3] == 50
            &&& s.delays[4] == 20
            &&& holds(t, "dsi,format"@, 1) ==> s.format == "rgb666"@
            &&& holds(t, "dsi,format"@, 2) ==> s.format == "rgb666_packed"@
            &&& holds(t, "dsi,format"@, 3) ==> s.format == "rgb565"@
            &&& !holds(t, "dsi,format"@, 1) && !holds(t, "dsi,format"@, 2) && !holds(
                t,
                "dsi,format"@,
                3,
            ) ==> s.format == "rgb888"@
            &&& value_of(t.props, "panel-init-sequence"@) matches Some(b) && s.init == init_lines(b, 0)
        }),
{
    let num = |n: Seq<char>| be_word(value_of(t.props, n)->0, 0);
    lemma_holds(t, "dsi,lanes"@, num("dsi,lanes"@));
    lemma_holds(t, "dsi,flags"@, num("dsi,flags"@));
    lemma_holds(t, "prepare-delay-ms"@, num("prepare-delay-ms"@));
    lemma_holds(t, "reset-delay-ms"@, num("reset-delay-ms"@));
    lemma_holds(t, "init-delay-ms"@, num("init-delay-ms"@));
    lemma_holds(t, "enable-delay-ms"@, num("enable-delay-ms"@));
    lemma_holds(t, "dsi,format"@, 1);
    lemma_holds(t, "dsi,format"@, 2);
    lemma_holds(t, "dsi,format"@, 3);
    assert(holds(t, "dsi,flags"@, num("dsi,flags"@)));
}

/// A panel node is read exactly if it has lanes, flags, an init sequence and
/// a child whose name starts with "display-timings" and of which every mode
/// can be read.
pub proof fn lemma_source_read(t: Node, k: int, native: Option<u32>)
    requires
        0 <= k < t.children.len(),
        starts(t.children[k].name, "display-timings"@),
        forall|j: int|
            0 <= j < k ==> !starts(
                (#[trigger] t.children[j]).name,
                "display-timings"@,
            ),
        match native {
            Some(n) => holds(t.children[k], "native-mode"@, n),
            None => lacks(t.children[k], "native-mode"@),
        },
    ensures
        source_of(t) is Ok <==> !lacks(t, "dsi,lanes"@) && !lacks(t, "dsi,flags"@) && value_of(
            t.props,
            "panel-init-sequence"@,
        ) is Some && forall|i: int|
            0 <= i < t.children[k].children.len() ==> timing_of(
                #[trigger] t.children[k].children[i],
                native,
            ) is Ok,
        source_of(t) matches Ok(s) ==> s.timings.len() == t.children[k].children.len() && forall|i: int|
            0 <= i < s.timings.len() ==> timing_of(
                #[trigger] t.children[k].children[i],
                native,
            ) == Ok::<Timing, Seq<char>>(s.timings[i]),
{
    lemma_child(t.children, k);
    let ts = t.children[k];
    if native is Some {
        lemma_holds(ts, "native-mode"@, native->0);
    }
    lemma_timings(ts.children, native);
}

proof fn lemma_child(ts: Seq<Node>, k: int)
    requires
        0 <= k < ts.len(),
        starts(ts[k].name, "display-timings"@),
        forall|j: int|
            0 <= j < k ==> !starts((#[trigger] ts[j]).name, "display-timings"@),
    ensures
        child_starting(ts, "display-timings"@) == Some(ts[k]),
    decreases k,
{
    if k > 0 {
        assert(!starts(ts[0].name, "display-timings"@));
        let rest = ts.skip(1);
        assert(rest[k - 1] == ts[k]);
        assert forall|j: int| 0 <= j < k - 1 implies !starts(
            (#[trigger] rest[j]).name,
            "display-timings"@,
        ) by {
            assert(rest[j] == ts[j + 1]);
        }
        lemma_child(rest, k - 1);
    }
}

/// What a panel node lacks is said in its order: the lanes, the flags, the
/// modes, the init sequence.
pub proof fn lemma_source_missing(t: Node)
    ensures
        lacks(t, "dsi,lanes"@) ==> source_of(t) == Err::<SourceView, Seq<char>>(
            "Missing property: dsi,lanes"@,
        ),
        !lacks(t, "dsi,lanes"@) && lacks(t, "dsi,flags"@) ==> source_of(t) == Err::<
            SourceView,
            Seq<char>,
        >("Missing property: dsi,flags"@),
        !lacks(t, "dsi,lanes"@) && !lacks(t, "dsi,flags"@) && t.children.len() == 0 ==> source_of(t)
            == Err::<SourceView, Seq<char>>("No display-timings node found"@),
{
    reveal_strlit("Missing property: ");
    reveal_strlit("dsi,lanes");
    reveal_strlit("dsi,flags");
    reveal_strlit("Missing property: dsi,lanes");
    reveal_strlit("Missing property: dsi,flags");
    assert("Missing property: "@ + "dsi,lanes"@ =~= "Missing property: dsi,lanes"@);
    assert("Missing property: "@ + "dsi,flags"@ =~= "Missing property: dsi,flags"@);
}

/// A size that is given is used; else the panel's resolution in its first
/// mode, and 640 by 480 where that is not given either.
pub proof fn lemma_size(t: Node, w: u32, h: u32)
    ensures
        holds(t, "width-mm"@, w) && holds(t, "height-mm"@, h) && w > 0 && h > 0 ==> size_of(t)
            == PanelSize::Known(w, h),
        (lacks(t, "width-mm"@) || lacks(t, "height-mm"@) || holds(t, "width-mm"@, 0) || holds(
            t,
            "height-mm"@,
            0,
        )) && t.children.len() > 0 && starts(t.children[0].name, "display-timings"@)
            && t.children[0].children.len() > 0 && holds(
            t.children[0].children[0],
            "hactive"@,
            w,
        ) && holds(t.children[0].children[0], "vactive"@, h) ==> size_of(t)
            == PanelSize::FromResolution(w, h),
        (lacks(t, "width-mm"@) || lacks(t, "height-mm"@)) && t.children.len() == 0 ==> size_of(t)
            == PanelSize::FromResolution(640, 480),
        sized(PanelSize::Known(w, h), (640, 480)) == (w, h),
        sized(PanelSize::FromResolution(640, 480), (w, h)) == (w, h),
{
    lemma_holds(t, "width-mm"@, w);
    lemma_holds(t, "height-mm"@, h);
    lemma_holds(t, "width-mm"@, 0);
    lemma_holds(t, "height-mm"@, 0);
    if t.children.len() > 0 && t.children[0].children.len() > 0 {
        lemma_holds(t.children[0].children[0], "hactive"@, w);
        lemma_holds(t.children[0].children[0], "vactive"@, h);
    }
}

/// The panel is the node at the first usual path that leads anywhere, then at
/// the second, and else the first node with an init sequence.
pub proof fn lemma_panel_node(data: Seq<u8>)
    ensures
        found(data, "/dsi@ff450000/panel@0"@) matches Some(n) ==> panel_node(data) == Ok::<
            Node,
            Seq<char>,
        >(n),
        found(data, "/dsi@ff450000/panel@0"@) is None ==> (found(data, "/dsi@fe060000/panel@0"@)
            matches Some(n) ==> panel_node(data) == Ok::<Node, Seq<char>>(n)),
        found(data, "/dsi@ff450000/panel@0"@) is None && found(data, "/dsi@fe060000/panel@0"@)
            is None ==> (panel_node(data) matches Ok(n) ==> root_of(data) is Some && value_of(
            n.props,
            "panel-init-sequence"@,
        ) is Some && value_of(n.props, "panel-init-sequence"@) == search(
            root_of(data)->0,
            "panel-init-sequence"@,
        )),
        found(data, "/dsi@ff450000/panel@0"@) is None && found(data, "/dsi@fe060000/panel@0"@)
            is None ==> (panel_node(data) is Ok <==> root_of(data) is Some && search(
            root_of(data)->0,
            "panel-init-sequence"@,
        ) is Some),
{
    if root_of(data) is Some {
        lemma_first_with(root_of(data)->0, "panel-init-sequence"@);
    }
}

/// The first node with a property is the one whose value a search finds.
pub proof fn lemma_first_with(t: Node, name: Seq<char>)
    ensures
        match first_with(t, name) {
            Some(n) => value_of(n.props, name) is Some && search(t, name) == value_of(n.props, name),
            None => search(t, name) is None,
        },
    decreases t, 0int,
{
    if value_of(t.props, name) is None {
        lemma_first_with_in(t.children, name);
    }
}

proof fn lemma_first_with_in(ts: Seq<Node>, name: Seq<char>)
    ensures
        match first_with_in(ts, name) {
            Some(n) => value_of(n.props, name) is Some && search_all(ts, name) == value_of(
                n.props,
                name,
            ),
            None => search_all(ts, name) is None,
        },
    decreases ts, ts.len(),
{
    if ts.len() > 0 {
        lemma_first_with(ts[0], name);
        lemma_first_with_in(ts.subrange(1, ts.len() as int), name);
    }
}

// ---------------------------------------------------------------------------
// The description
// ---------------------------------------------------------------------------

/// The description is a line with what holds for all modes, then the modes,
/// then the init sequence, each in its order.
pub proof fn lemma_description(s: SourceView, estimate: (u32, u32), modes: Seq<Seq<char>>)
    requires
        s.delays.len() == 5,
    ensures
        ({
            let d = description(s, estimate, modes);
            let (w, h) = match s.size {
                PanelSize::Known(w, h) => (w, h),
                _ => estimate,
            };
            &&& d.len() == 1 + modes.len() + s.init.len()
            &&& d[0] == "G size="@ + decimal(w as nat) + ","@ + decimal(h as nat) + " delays="@ + four(
                s.delays[0],
                s.delays[1],
                s.delays[2],
                s.delays[3],
            ) + ","@ + decimal(s.delays[4] as nat) + " format="@ + s.format + " lanes="@ + decimal(
                s.lanes as nat,
            ) + " flags=0x"@ + hexadecimal(s.flags as nat)
            &&& forall|i: int| 0 <= i < modes.len() ==> #[trigger] d[1 + i] == modes[i]
            &&& forall|i: int|
                0 <= i < s.init.len() ==> #[trigger] d[1 + modes.len() + i] == s.init[i]
        }),
{
    let d = s.delays;
    let n = numbers(d);
    lemma_four(d[0], d[1], d[2], d[3]);
    assert(n.drop_last() =~= numbers(seq![d[0], d[1], d[2], d[3]]));
    assert(n.last() == decimal(d[4] as nat));
    assert(joined(n, ","@) == four(d[0], d[1], d[2], d[3]) + ","@ + decimal(d[4] as nat));
    let (w, h) = sized(s.size, estimate);
    assert(description(s, estimate, modes)[0] =~= "G size="@ + decimal(w as nat) + ","@ + decimal(
        h as nat,
    ) + " delays="@ + four(d[0], d[1], d[2], d[3]) + ","@ + decimal(d[4] as nat) + " format="@
        + s.format + " lanes="@ + decimal(s.lanes as nat) + " flags=0x"@ + hexadecimal(
        s.flags as nat,
    ));
}

/// Lines are stored one after the other, each ended by a zero byte.
pub proof fn lemma_text_list(a: Seq<Seq<char>>, b: Seq<Seq<char>>, line: Seq<char>)
    ensures
        text_list(a + b) == text_list(a) + text_list(b),
        text_list(seq![line]) == encode_utf8(line).push(0),
        text_list(Seq::<Seq<char>>::empty()) == Seq::<u8>::empty(),
    decreases b.len(),
{
    let one = seq![line];
    assert(one.drop_last() =~= Seq::<Seq<char>>::empty());
    assert(text_list(one.drop_last()) =~= Seq::<u8>::empty());
    assert(text_list(one) =~= encode_utf8(line).push(0));
    if b.len() == 0 {
        assert(a + b =~= a);
        assert(text_list(a + b) =~= text_list(a) + text_list(b));
    } else {
        assert((a + b).drop_last() =~= a + b.drop_last());
        assert((a + b).last() == b.last());
        lemma_text_list(a, b.drop_last(), line);
        assert(text_list(a + b) =~= text_list(a) + text_list(b));
    }
}

/// A generated overlay has one fragment, for the root of the tree, and in it
/// the panel of the first DSI controller for the generic driver.
pub proof fn lemma_overlay_shape(lines: Seq<Seq<char>>)
    ensures
        ({
            let root = overlay_tree(lines);
            let fragment = root.children[0];
            let over = fragment.children[0];
            let dsi = over.children[0];
            let panel = dsi.children[0];
            &&& root.name == ""@ && root.props.len() == 0 && root.children.len() == 1
            &&& fragment.name == "fragment@0"@ && fragment.children.len() == 1
            &&& fragment.props.len() == 1
            &&& value_of(fragment.props, "target-path"@) == Some(encode_utf8("/"@).push(0))
            &&& over.name == "__overlay__"@ && over.props.len() == 0 && over.children.len() == 1
            &&& dsi.name == "dsi@ff450000"@ && dsi.props.len() == 0 && dsi.children.len() == 1
            &&& panel.name == "panel@0"@ && panel.props.len() == 2 && panel.children.len() == 0
            &&& value_of(panel.props, "compatible"@) == Some(
                encode_utf8("archr,generic-dsi"@).push(0),
            )
            &&& value_of(panel.props, "panel_description"@) == Some(text_list(lines))
        }),
{
    reveal_strlit("compatible");
    reveal_strlit("panel_description");
    let panel = overlay_tree(lines).children[0].children[0].children[0].children[0];
    assert(panel.props[0].name == "compatible"@);
    assert("compatible"@.len() != "panel_description"@.len());
    assert(panel.props.skip(1)[0] == panel.props[1]);
    assert(value_of(panel.props.skip(1), "panel_description"@) == Some(text_list(lines)));
}

// ---------------------------------------------------------------------------
// Where things are found
// ---------------------------------------------------------------------------

/// The first of the nodes that has the property.
pub open spec fn first_having(ts: Seq<Node>, name: Seq<char>, r: Option<Node>) -> bool {
    match r {
        Some(n) => exists|k: int|
            0 <= k < ts.len() && #[trigger] ts[k] == n && value_of(n.props, name) is Some && forall|
                j: int,
            |
                0 <= j < k ==> value_of((#[trigger] ts[j]).props, name) is None,
        None => forall|k: int| 0 <= k < ts.len() ==> value_of((#[trigger] ts[k]).props, name) is None,
    }
}

proof fn lemma_first_having_joined(
    a: Seq<Node>,
    b: Seq<Node>,
    name: Seq<char>,
    r: Option<Node>,
    s: Option<Node>,
)
    requires
        first_having(a, name, r),
        first_having(b, name, s),
    ensures
        first_having(a + b, name, if r is Some { r } else { s }),
{
    let all = a + b;
    if r is Some {
        let k = choose|k: int|
            0 <= k < a.len() && #[trigger] a[k] == r->0 && value_of(r->0.props, name) is Some
                && forall|j: int|
                0 <= j < k ==> value_of((#[trigger] a[j]).props, name) is None;
        assert(all[k] == a[k]);
        assert forall|j: int| 0 <= j < k implies value_of((#[trigger] all[j]).props, name) is None by {
            assert(all[j] == a[j]);
        }
    } else {
        assert forall|j: int| 0 <= j < a.len() implies value_of((#[trigger] all[j]).props, name) is
            None by {
            assert(all[j] == a[j]);
        }
        if s is Some {
            let k = choose|k: int|
                0 <= k < b.len() && #[trigger] b[k] == s->0 && value_of(s->0.props, name) is Some
                    && forall|j: int|
                    0 <= j < k ==> value_of((#[trigger] b[j]).props, name) is None;
            let m = k + a.len();
            assert(all[m] == b[k]);
            assert forall|j: int| 0 <= j < m implies value_of((#[trigger] all[j]).props, name) is
                None by {
                if j >= a.len() {
                    assert(all[j] == b[j - a.len()]);
                }
            }
        } else {
            assert forall|j: int| 0 <= j < all.len() implies value_of(
                (#[trigger] all[j]).props,
                name,
            ) is None by {
                if j >= a.len() {
                    assert(all[j] == b[j - a.len()]);
                }
            }
        }
    }
}

/// The panel node that is found by its init sequence is the first in the
/// order of the tree that has one.
pub proof fn lemma_first_node(t: Node, name: Seq<char>)
    ensures
        first_having(nodes(t), name, first_with(t, name)),
    decreases t, 0int,
{
    let one = seq![t];
    let r: Option<Node> = if value_of(t.props, name) is Some {
        Some(t)
    } else {
        None
    };
    lemma_first_node_in(t.children, name);
    assert(one[0] == t);
    assert(first_having(one, name, r));
    lemma_first_having_joined(
        one,
        nodes_all(t.children),
        name,
        r,
        first_with_in(t.children, name),
    );
}

proof fn lemma_first_node_in(ts: Seq<Node>, name: Seq<char>)
    ensures
        first_having(nodes_all(ts), name, first_with_in(ts, name)),
    decreases ts, ts.len(),
{
    if ts.len() > 0 {
        let rest = ts.subrange(1, ts.len() as int);
        lemma_first_node(ts[0], name);
        lemma_first_node_in(rest, name);
        lemma_first_having_joined(
            nodes(ts[0]),
            nodes_all(rest),
            name,
            first_with(ts[0], name),
            first_with_in(rest, name),
        );
    }
}

/// What is told where no panel is found: nothing opens, there is no root
/// node, or no node has an init sequence.
pub proof fn lemma_no_panel(data: Seq<u8>)
    requires
        found(data, "/dsi@ff450000/panel@0"@) is None,
        found(data, "/dsi@fe060000/panel@0"@) is None,
    ensures
        root_of(data) is None ==> panel_node(data) == Err::<Node, Seq<char>>("No root node"@),
        root_of(data) matches Some(root) ==> {
            let ts = nodes(root);
            let name = "panel-init-sequence"@;
            &&& panel_node(data) matches Ok(n) ==> first_having(ts, name, Some(n))
            &&& panel_node(data) matches Err(e) ==> first_having(ts, name, None) && e
                == "No MIPI panel node found. The DTB must contain a panel-init-sequence property."@
        },
{
    if root_of(data) is Some {
        lemma_first_node(root_of(data)->0, "panel-init-sequence"@);
    }
}

/// The panel of a blob is what its panel node says, if the blob opens.
pub proof fn lemma_panel_source(data: Seq<u8>)
    ensures
        header_fault(data) == Some(BlobFault::BadMagic) ==> panel_source(data) == Err::<
            SourceView,
            Seq<char>,
        >("Invalid DTB: BadMagic"@),
        header_fault(data) == Some(BlobFault::BufferTooSmall) ==> panel_source(data) == Err::<
            SourceView,
            Seq<char>,
        >("Invalid DTB: BufferTooSmall"@),
        header_fault(data) is None ==> (panel_node(data) matches Ok(t) ==> panel_source(data)
            == source_of(t)),
        header_fault(data) is None ==> (panel_node(data) matches Err(e) ==> panel_source(data)
            == Err::<SourceView, Seq<char>>(e)),
{
    reveal_strlit("Invalid DTB: ");
    reveal_strlit("BadMagic");
    reveal_strlit("BufferTooSmall");
    reveal_strlit("Invalid DTB: BadMagic");
    reveal_strlit("Invalid DTB: BufferTooSmall");
    assert("Invalid DTB: "@ + "BadMagic"@ =~= "Invalid DTB: BadMagic"@);
    assert("Invalid DTB: "@ + "BufferTooSmall"@ =~= "Invalid DTB: BufferTooSmall"@);
}

proof fn lemma_no_child(ts: Seq<Node>)
    requires
        forall|j: int| 0 <= j < ts.len() ==> !starts((#[trigger] ts[j]).name, "display-timings"@),
    ensures
        child_starting(ts, "display-timings"@) is None,
    decreases ts.len(),
{
    if ts.len() > 0 {
        assert(!starts(ts[0].name, "display-timings"@));
        assert forall|j: int| 0 <= j < ts.skip(1).len() implies !starts(
            (#[trigger] ts.skip(1)[j]).name,
            "display-timings"@,
        ) by {
            assert(ts.skip(1)[j] == ts[j + 1]);
        }
        lemma_no_child(ts.skip(1));
    }
}

/// The size of a panel that does not say it follows from the resolution of
/// its first mode, wherever its modes stand; what that does not say is 640 by
/// 480.
pub proof fn lemma_size_from_mode(t: Node, k: int, w: u32, h: u32)
    requires
        0 <= k < t.children.len(),
        starts(t.children[k].name, "display-timings"@),
        forall|j: int|
            0 <= j < k ==> !starts((#[trigger] t.children[j]).name, "display-timings"@),
        lacks(t, "width-mm"@) || lacks(t, "height-mm"@) || holds(t, "width-mm"@, 0) || holds(
            t,
            "height-mm"@,
            0,
        ),
    ensures
        ({
            let modes = t.children[k].children;
            &&& modes.len() == 0 ==> size_of(t) == PanelSize::FromResolution(640, 480)
            &&& modes.len() > 0 && (holds(modes[0], "hactive"@, w) || lacks(modes[0], "hactive"@)
                && w == 640) && (holds(modes[0], "vactive"@, h) || lacks(modes[0], "vactive"@) && h
                == 480) ==> size_of(t) == PanelSize::FromResolution(w, h)
        }),
{
    lemma_child(t.children, k);
    lemma_holds(t, "width-mm"@, 0);
    lemma_holds(t, "height-mm"@, 0);
    let modes = t.children[k].children;
    if modes.len() > 0 {
        lemma_holds(modes[0], "hactive"@, w);
        lemma_holds(modes[0], "vactive"@, h);
    }
}

/// Without modes the size is that of 640 by 480.
pub proof fn lemma_size_without_modes(t: Node)
    requires
        forall|j: int|
            0 <= j < t.children.len() ==> !starts(
                (#[trigger] t.children[j]).name,
                "display-timings"@,
            ),
        lacks(t, "width-mm"@) || lacks(t, "height-mm"@) || holds(t, "width-mm"@, 0) || holds(
            t,
            "height-mm"@,
            0,
        ),
    ensures
        size_of(t) == PanelSize::FromResolution(640, 480),
{
    lemma_no_child(t.children);
    lemma_holds(t, "width-mm"@, 0);
    lemma_holds(t, "height-mm"@, 0);
}

/// A panel without modes, or without an init sequence, is refused, with a
/// message that says which; a mode that lacks a number is told first.
#[verifier::rlimit(40)]
pub proof fn lemma_source_refused(t: Node, k: int, native: Option<u32>)
    requires
        !lacks(t, "dsi,lanes"@),
        !lacks(t, "dsi,flags"@),
    ensures
        (forall|j: int|
            0 <= j < t.children.len() ==> !starts(
                (#[trigger] t.children[j]).name,
                "display-timings"@,
            )) ==> source_of(t) == Err::<SourceView, Seq<char>>("No display-timings node found"@),
        0 <= k < t.children.len() && starts(t.children[k].name, "display-timings"@) && (forall|
            j: int,
        |
            0 <= j < k ==> !starts((#[trigger] t.children[j]).name, "display-timings"@)) && (
        match native {
            Some(n) => holds(t.children[k], "native-mode"@, n),
            None => lacks(t.children[k], "native-mode"@),
        }) ==> {
            &&& timings_of(t.children[k].children, native) matches Err(e) ==> source_of(t) == Err::<
                SourceView,
                Seq<char>,
            >(e)
            &&& timings_of(t.children[k].children, native) is Ok && value_of(
                t.props,
                "panel-init-sequence"@,
            ) is None ==> source_of(t) == Err::<SourceView, Seq<char>>(
                "No panel-init-sequence property"@,
            )
        },
{
    if forall|j: int|
        0 <= j < t.children.len() ==> !starts(
            (#[trigger] t.children[j]).name,
            "display-timings"@,
        ) {
        lemma_no_child(t.children);
    }
    if 0 <= k < t.children.len() && starts(t.children[k].name, "display-timings"@) && (forall|
        j: int,
    |
        0 <= j < k ==> !starts((#[trigger] t.children[j]).name, "display-timings"@)) {
        lemma_child(t.children, k);
        match native {
            Some(n) => {
                lemma_holds(t.children[k], "native-mode"@, n);
            },
            None => {},
        }
    }
}

/// A rate that is no number is neither above nor below another: the later one
/// is taken.
pub proof fn lemma_highest_unknown(rates: Seq<Option<u64>>, x: Option<u64>)
    requires
        rates.len() > 0,
    ensures
        last_highest(rates.push(None)) == rates.len(),
        rates[last_highest(rates)] is None ==> last_highest(rates.push(x)) == rates.len(),
        last_highest(seq![x]) == 0,
{
    assert(rates.push(None).drop_last() =~= rates);
    assert(rates.push(x).drop_last() =~= rates);
    lemma_highest_in(rates);
    let m = last_highest(rates);
    assert(rates.push(x)[m] == rates[m]);
    assert(rates.push(None)[m] == rates[m]);
}

proof fn lemma_highest_in(rates: Seq<Option<u64>>)
    requires
        rates.len() > 0,
    ensures
        0 <= last_highest(rates) < rates.len(),
    decreases rates.len(),
{
    if rates.len() > 1 {
        lemma_highest_in(rates.drop_last());
    }
}

} // verus!
