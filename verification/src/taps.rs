//! Reading a column's history back from the netlist: from the column's
//! tap, wire by wire to the socket, the taps on the way tell the frames at
//! which the pixel changed.

use crate::chain::{base_bounds, chain_top, lemma_chain_top, lemma_fixed_wire_ends};
use crate::encode::{
    after_frames, at_boundary, back_wire, chunk_column, chunk_pass, compensated, connector,
    diff_pass, drive_wire, flip_column, flips, forced_delayer, forced_wire, frame_at, initial,
    listen_wire, pixel_delayer, source_index, Circuit,
};
use crate::layout::{lemma_room_for_boards, Layout};
use crate::numbers::{
    lemma_cell_in_grid, lemma_inside_grid, lemma_row_major, lemma_split_index,
};
use crate::parts::{ComponentKind, ComponentView};
use crate::soundness::{
    flip_cost, lemma_chunk_column_sound, lemma_chunk_pass_sound, lemma_diff_pass_sound,
    lemma_flip_column_sound, lemma_frame_sound, lemma_heard_in_use, lemma_room_for_frame,
    lemma_run_sound, sound,
};
use vstd::prelude::*;

verus! {

/// The highest address made before the first frame: that of the last socket.
pub open spec fn fixed_top(l: Layout) -> int {
    (l.base_address + l.fixed_components()) as int
}

/// The component with the address `a`.
pub open spec fn part(l: Layout, s: Circuit, a: int) -> ComponentView {
    s.components[a - l.base_address - 1]
}

/// Whether a component is a delay element that listens to a timing chain:
/// its input is bound to a cluster of a chain.
pub open spec fn listens(l: Layout, component: ComponentView) -> bool {
    &&& component.kind == ComponentKind::DelayElement
    &&& component.inputs.len() == 1
    &&& l.base_cluster < component.inputs[0] <= l.base_cluster + l.height * (l.depth() + 1)
}

/// The frame that a listening delay element marks: half its position on the chain.
pub open spec fn heard_frame(l: Layout, component: ComponentView) -> nat {
    (((component.inputs[0] - l.base_cluster - 1) % ((l.depth() + 1) as int)) / 2) as nat
}

/// Whether wire `j` carries a change: it leaves the output of a delay
/// element that was made for a frame and listens to a timing chain.
pub open spec fn is_driver(l: Layout, s: Circuit, j: int) -> bool {
    &&& !s.wires[j].start.is_input
    &&& fixed_top(l) < s.wires[j].start.component_address <= s.max_address
    &&& listens(l, part(l, s, s.wires[j].start.component_address as int))
}

/// Whether wire `j` carries a change to the input of the tap at `a`.
pub open spec fn drives(l: Layout, s: Circuit, j: int, a: int) -> bool {
    &&& 0 <= j < s.wires.len()
    &&& is_driver(l, s, j)
    &&& s.wires[j].end.is_input
    &&& s.wires[j].end.component_address == a
}

/// Whether some wire carries a change to the tap at `a`.
pub open spec fn driven(l: Layout, s: Circuit, a: int) -> bool {
    exists|j: int| drives(l, s, j, a)
}

/// The frame of the change that wire `j` carries.
pub open spec fn heard(l: Layout, s: Circuit, j: int) -> nat {
    heard_frame(l, part(l, s, s.wires[j].start.component_address as int))
}

/// Whether wire `j` leaves the component at `a`.
pub open spec fn leaves(s: Circuit, j: int, a: int) -> bool {
    0 <= j < s.wires.len() && s.wires[j].start.component_address == a
}

/// Whether some wire leaves the component at `a`.
pub open spec fn has_outgoing(s: Circuit, a: int) -> bool {
    exists|j: int| leaves(s, j, a)
}

/// The tap that the tap at `a` hangs on: where the wire that leaves it ends.
pub open spec fn earlier_tap(s: Circuit, a: int) -> int {
    s.wires[choose|j: int| leaves(s, j, a)].end.component_address as int
}

/// The frames at which a column's pixel changed, as the netlist tells them
/// from the tap at `a` back to the socket: the history of the tap that `a`
/// hangs on, and then the frame of the change that drives `a`, if one does.
pub open spec fn history(l: Layout, s: Circuit, a: int) -> Seq<nat>
    decreases a,
{
    if a <= fixed_top(l) {
        Seq::empty()
    } else {
        let b = earlier_tap(s, a);
        let earlier = if 0 <= b < a {
            history(l, s, b)
        } else {
            Seq::empty()
        };
        if driven(l, s, a) {
            earlier.push(heard(l, s, choose|j: int| drives(l, s, j, a)))
        } else {
            earlier
        }
    }
}

/// The frames up to `n` at which the pixel of column `c` changes in a video.
pub open spec fn flip_frames(l: Layout, video: Seq<Seq<bool>>, c: int, n: nat) -> Seq<nat>
    decreases n,
{
    if n == 0 {
        Seq::empty()
    } else {
        let earlier = flip_frames(l, video, c, (n - 1) as nat);
        if flips(l, frame_at(l, video, (n - 1) as nat), frame_at(l, video, n), c) {
            earlier.push(n)
        } else {
            earlier
        }
    }
}

/// The wiring can be followed back: wires touch only what exists, no two
/// wires leave the same component made for a frame, each such component
/// has a wire that leaves it, no two changes drive the same tap, and the
/// columns' taps are distinct.
pub open spec fn traced(l: Layout, s: Circuit) -> bool {
    &&& forall|j: int|
        0 <= j < s.wires.len() ==> (#[trigger] s.wires[j]).start.component_address
            <= s.max_address && s.wires[j].end.component_address <= s.max_address
            && s.wires[j].end.is_input
    &&& forall|i: int, j: int|
        0 <= i < j < s.wires.len() && (#[trigger] s.wires[i]).start.component_address > fixed_top(
            l,
        ) && (#[trigger] s.wires[j]).start.component_address > fixed_top(l)
            ==> s.wires[i].start.component_address < s.wires[j].start.component_address
    &&& forall|a: int| fixed_top(l) < a <= s.max_address ==> #[trigger] has_outgoing(s, a)
    &&& forall|i: int, j: int|
        0 <= i < j < s.wires.len() && #[trigger] is_driver(l, s, i) && #[trigger] is_driver(
            l,
            s,
            j,
        ) ==> s.wires[i].end.component_address != s.wires[j].end.component_address
    &&& forall|c: int|
        0 <= c < s.last_connector.len() ==> #[trigger] s.last_connector[c] <= s.max_address
    &&& forall|c: int, e: int|
        0 <= c < e < s.last_connector.len() ==> #[trigger] s.last_connector[c]
            != #[trigger] s.last_connector[e]
}

/// The circuit `t` comes from `s` by adding components and wires.
pub open spec fn grown(s: Circuit, t: Circuit) -> bool {
    &&& s.components.len() <= t.components.len()
    &&& s.wires.len() <= t.wires.len()
    &&& s.max_address <= t.max_address
    &&& forall|i: int| 0 <= i < s.components.len() ==> #[trigger] t.components[i] == s.components[i]
    &&& forall|j: int| 0 <= j < s.wires.len() ==> #[trigger] t.wires[j] == s.wires[j]
}

/// The circuit `t` comes from `s` by adding to it, and no added wire
/// disturbs what can be read from `s`: none leaves a component that `s`
/// made for a frame, and none drives a tap of `s`.
pub open spec fn extends(l: Layout, s: Circuit, t: Circuit) -> bool {
    &&& grown(s, t)
    &&& forall|j: int|
        s.wires.len() <= j < t.wires.len() ==> ((#[trigger] t.wires[j]).start.component_address
            <= fixed_top(l) || t.wires[j].start.component_address > s.max_address)
    &&& forall|j: int|
        s.wires.len() <= j < t.wires.len() && #[trigger] is_driver(l, t, j)
            ==> t.wires[j].end.component_address > s.max_address
}

/// A wire of `s` is a driver in an extension of `s` just when it is one in `s`.
pub proof fn lemma_driver_kept(l: Layout, s: Circuit, t: Circuit, j: int)
    requires
        sound(l, s),
        traced(l, s),
        grown(s, t),
        0 <= j < s.wires.len(),
    ensures
        is_driver(l, t, j) == is_driver(l, s, j),
        is_driver(l, s, j) ==> heard(l, t, j) == heard(l, s, j),
{
    assert(t.wires[j] == s.wires[j]);
    let a = s.wires[j].start.component_address as int;
    if fixed_top(l) < a {
        assert(a <= s.max_address);
        assert(t.components[a - l.base_address - 1] == s.components[a - l.base_address - 1]);
    }
}

/// Adding to a circuit without disturbing it leaves the history of each of
/// its taps as it was.
pub proof fn lemma_history_stable(l: Layout, s: Circuit, t: Circuit, a: int)
    requires
        sound(l, s),
        traced(l, s),
        extends(l, s, t),
        a <= s.max_address,
    ensures
        history(l, t, a) == history(l, s, a),
    decreases a,
{
    if a > fixed_top(l) {
        assert(has_outgoing(s, a));
        let js = choose|j: int| leaves(s, j, a);
        assert(leaves(t, js, a)) by {
            assert(t.wires[js] == s.wires[js]);
        }
        let jt = choose|j: int| leaves(t, j, a);
        assert(jt < s.wires.len());
        assert(t.wires[jt] == s.wires[jt]);
        assert(jt == js) by {
            if jt < js {
                assert(s.wires[jt].start.component_address < s.wires[js].start.component_address);
            }
            if js < jt {
                assert(s.wires[js].start.component_address < s.wires[jt].start.component_address);
            }
        }
        let b = earlier_tap(s, a);
        assert(earlier_tap(t, a) == b);
        if 0 <= b < a {
            lemma_history_stable(l, s, t, b);
        }
        assert forall|j: int| drives(l, t, j, a) == drives(l, s, j, a) by {
            if 0 <= j < s.wires.len() {
                lemma_driver_kept(l, s, t, j);
                assert(t.wires[j] == s.wires[j]);
            } else if 0 <= j < t.wires.len() {
                if is_driver(l, t, j) {
                    assert(t.wires[j].end.component_address > s.max_address);
                }
            }
        }
        if driven(l, s, a) {
            let ds = choose|j: int| drives(l, s, j, a);
            assert(drives(l, t, ds, a));
            let dt = choose|j: int| drives(l, t, j, a);
            assert(drives(l, s, dt, a));
            assert(ds == dt) by {
                if ds < dt {
                    assert(is_driver(l, s, ds) && is_driver(l, s, dt));
                }
                if dt < ds {
                    assert(is_driver(l, s, dt) && is_driver(l, s, ds));
                }
            }
            lemma_driver_kept(l, s, t, ds);
        } else {
            if driven(l, t, a) {
                let dt = choose|j: int| drives(l, t, j, a);
                assert(drives(l, s, dt, a));
            }
        }
    }
}

/// The circuit before the first frame can be followed back, and the
/// history of each socket is empty.
pub proof fn lemma_initial_traced(l: Layout)
    requires
        l.fits(),
        l.frames >= 1,
    ensures
        traced(l, initial(l)),
{
    let s = initial(l);
    lemma_chain_top(l);
    assert forall|j: int| 0 <= j < s.wires.len() implies (
    #[trigger] s.wires[j]).start.component_address <= chain_top(l)
        && s.wires[j].end.component_address <= chain_top(l) && s.wires[j].end.is_input by {
        lemma_fixed_wire_ends(l, j);
        let m = 2 * (l.frames as int);
        assert(base_bounds(l, j / m, j % m));
        assert(base_bounds(l, j / m, j % m + 1));
    }
    assert forall|i: int, j: int|
        0 <= i < j < s.wires.len() && #[trigger] is_driver(l, s, i) && #[trigger] is_driver(
            l,
            s,
            j,
        ) implies s.wires[i].end.component_address != s.wires[j].end.component_address by {
        assert(s.wires[i].start.component_address <= chain_top(l));
    }
}

/// How a column stands in the course of a frame.
pub enum Stage {
    /// Its tap is the one it had when the frame began.
    Untouched,
    /// It has a new tap that hangs on the old one, and no change drives it.
    Hung,
    /// It has a new tap that hangs on the old one, and the change of this
    /// frame drives it.
    Marked,
}

/// Column `c` of `s` has a tap newer than the circuit `s0`, from which a
/// wire leads to the tap that the column had in `s0`.
pub open spec fn advanced(s0: Circuit, s: Circuit, c: int) -> bool {
    &&& s0.max_address < s.last_connector[c] <= s.max_address
    &&& exists|j: int| #[trigger]
        leaves(s, j, s.last_connector[c] as int) && s.wires[j].end.component_address
            == s0.last_connector[c]
}

/// No change drives the tap at `a`.
pub open spec fn undriven(l: Layout, s: Circuit, a: int) -> bool {
    forall|j: int| !#[trigger] drives(l, s, j, a)
}

/// A change drives the tap at `a`, and each that does is of frame `f`.
pub open spec fn driven_at(l: Layout, s: Circuit, a: int, f: nat) -> bool {
    &&& driven(l, s, a)
    &&& forall|j: int| #[trigger] drives(l, s, j, a) ==> heard(l, s, j) == f
}

/// Column `c` stands at the given stage in `s`, in a frame `f` that began
/// with the circuit `s0`.
pub open spec fn column_at(l: Layout, s0: Circuit, s: Circuit, c: int, f: nat, stage: Stage)
    -> bool {
    match stage {
        Stage::Untouched => s.last_connector[c] == s0.last_connector[c],
        Stage::Hung => advanced(s0, s, c) && undriven(l, s, s.last_connector[c] as int),
        Stage::Marked => advanced(s0, s, c) && driven_at(l, s, s.last_connector[c] as int, f),
    }
}

/// A column that a step leaves alone stands where it stood: its tap is
/// the same, and no added wire drives it.
pub proof fn lemma_column_kept(
    l: Layout,
    s0: Circuit,
    s: Circuit,
    t: Circuit,
    c: int,
    f: nat,
    stage: Stage,
)
    requires
        sound(l, s),
        traced(l, s),
        grown(s, t),
        0 <= c < s.last_connector.len(),
        t.last_connector.len() == s.last_connector.len(),
        t.last_connector[c] == s.last_connector[c],
        forall|j: int|
            s.wires.len() <= j < t.wires.len() && #[trigger] is_driver(l, t, j)
                ==> t.wires[j].end.component_address != s.last_connector[c],
        column_at(l, s0, s, c, f, stage),
    ensures
        column_at(l, s0, t, c, f, stage),
{
    let x = s.last_connector[c] as int;
    assert forall|j: int| #[trigger] drives(l, t, j, x) implies drives(l, s, j, x) && heard(l, t, j) == heard(
        l,
        s,
        j,
    ) by {
        if j < s.wires.len() {
            lemma_driver_kept(l, s, t, j);
            assert(t.wires[j] == s.wires[j]);
        }
    }
    match stage {
        Stage::Untouched => {},
        Stage::Hung => {
            lemma_hanging_kept(s0, s, t, c);
            assert(undriven(l, t, x));
        },
        Stage::Marked => {
            lemma_hanging_kept(s0, s, t, c);
            let d = choose|j: int| drives(l, s, j, x);
            lemma_driver_kept(l, s, t, d);
            assert(t.wires[d] == s.wires[d]);
            assert(drives(l, t, d, x));
            assert(driven_at(l, t, x, f));
        },
    }
}

/// A new tap that hangs on the old one still does when the circuit grows.
pub proof fn lemma_hanging_kept(s0: Circuit, s: Circuit, t: Circuit, c: int)
    requires
        grown(s, t),
        0 <= c < s.last_connector.len(),
        t.last_connector.len() == s.last_connector.len(),
        t.last_connector[c] == s.last_connector[c],
        advanced(s0, s, c),
    ensures
        advanced(s0, t, c),
{
    let x = s.last_connector[c] as int;
    let j = choose|j: int| #[trigger]
        leaves(s, j, x) && s.wires[j].end.component_address == s0.last_connector[c];
    assert(t.wires[j] == s.wires[j]);
    assert(leaves(t, j, x) && t.wires[j].end.component_address == s0.last_connector[c]);
}

/// A circuit that can be followed back still can after a step that adds
/// wires which end at inputs of what exists, leave what the step made, in
/// rising order, one from each new component, and whose changes drive
/// taps that nothing drove; and that keeps the taps distinct.
pub proof fn lemma_traced_grows(l: Layout, s: Circuit, t: Circuit)
    requires
        sound(l, s),
        traced(l, s),
        grown(s, t),
        forall|j: int|
            s.wires.len() <= j < t.wires.len() ==> (#[trigger] t.wires[j]).start.component_address
                <= t.max_address && t.wires[j].end.component_address <= t.max_address
                && t.wires[j].end.is_input && (t.wires[j].start.component_address <= fixed_top(l)
                || t.wires[j].start.component_address > s.max_address),
        forall|i: int, j: int|
            s.wires.len() <= i < j < t.wires.len() && (
            #[trigger] t.wires[i]).start.component_address > fixed_top(l) && (
            #[trigger] t.wires[j]).start.component_address > fixed_top(l)
                ==> t.wires[i].start.component_address < t.wires[j].start.component_address,
        forall|a: int| s.max_address < a <= t.max_address ==> #[trigger] has_outgoing(t, a),
        forall|i: int, j: int|
            0 <= i < j < t.wires.len() && s.wires.len() <= j && #[trigger] is_driver(l, t, i)
                && #[trigger] is_driver(l, t, j) ==> t.wires[i].end.component_address
                != t.wires[j].end.component_address,
        forall|c: int|
            0 <= c < t.last_connector.len() ==> #[trigger] t.last_connector[c] <= t.max_address,
        forall|c: int, e: int|
            0 <= c < e < t.last_connector.len() ==> #[trigger] t.last_connector[c]
                != #[trigger] t.last_connector[e],
    ensures
        traced(l, t),
{
    assert forall|j: int| 0 <= j < t.wires.len() implies (
    #[trigger] t.wires[j]).start.component_address <= t.max_address
        && t.wires[j].end.component_address <= t.max_address && t.wires[j].end.is_input by {
        if j < s.wires.len() {
            assert(t.wires[j] == s.wires[j]);
        }
    }
    assert forall|i: int, j: int|
        0 <= i < j < t.wires.len() && (#[trigger] t.wires[i]).start.component_address > fixed_top(
            l,
        ) && (#[trigger] t.wires[j]).start.component_address > fixed_top(
            l,
        ) implies t.wires[i].start.component_address < t.wires[j].start.component_address by {
        if j < s.wires.len() {
            assert(t.wires[i] == s.wires[i]);
            assert(t.wires[j] == s.wires[j]);
        } else if i < s.wires.len() {
            assert(t.wires[i] == s.wires[i]);
        }
    }
    assert forall|a: int| fixed_top(l) < a <= t.max_address implies #[trigger] has_outgoing(
        t,
        a,
    ) by {
        if a <= s.max_address {
            assert(has_outgoing(s, a));
            let j = choose|j: int| leaves(s, j, a);
            assert(t.wires[j] == s.wires[j]);
            assert(leaves(t, j, a));
        }
    }
    assert forall|i: int, j: int|
        0 <= i < j < t.wires.len() && #[trigger] is_driver(l, t, i) && #[trigger] is_driver(
            l,
            t,
            j,
        ) implies t.wires[i].end.component_address != t.wires[j].end.component_address by {
        if j < s.wires.len() {
            lemma_driver_kept(l, s, t, i);
            lemma_driver_kept(l, s, t, j);
            assert(t.wires[i] == s.wires[i]);
            assert(t.wires[j] == s.wires[j]);
        }
    }
}

/// What was added to `s0` without disturbing it, and then grows by wires
/// that leave only what is newer than `s0` and whose changes drive only
/// what is newer than `s0`, was added to `s0` without disturbing it.
pub proof fn lemma_extends_grows(l: Layout, s0: Circuit, s: Circuit, t: Circuit)
    requires
        sound(l, s),
        traced(l, s),
        extends(l, s0, s),
        grown(s, t),
        forall|j: int|
            s.wires.len() <= j < t.wires.len() ==> ((#[trigger] t.wires[j]).start.component_address
                <= fixed_top(l) || t.wires[j].start.component_address > s0.max_address),
        forall|j: int|
            s.wires.len() <= j < t.wires.len() && #[trigger] is_driver(l, t, j)
                ==> t.wires[j].end.component_address > s0.max_address,
    ensures
        extends(l, s0, t),
{
    assert forall|i: int| 0 <= i < s0.components.len() implies #[trigger] t.components[i]
        == s0.components[i] by {
        assert(t.components[i] == s.components[i]);
    }
    assert forall|j: int| 0 <= j < s0.wires.len() implies #[trigger] t.wires[j] == s0.wires[j] by {
        assert(t.wires[j] == s.wires[j]);
    }
    assert forall|j: int| s0.wires.len() <= j < t.wires.len() implies ((
    #[trigger] t.wires[j]).start.component_address <= fixed_top(l)
        || t.wires[j].start.component_address > s0.max_address) by {
        if j < s.wires.len() {
            assert(t.wires[j] == s.wires[j]);
        }
    }
    assert forall|j: int|
        s0.wires.len() <= j < t.wires.len() && #[trigger] is_driver(
            l,
            t,
            j,
        ) implies t.wires[j].end.component_address > s0.max_address by {
        if j < s.wires.len() {
            lemma_driver_kept(l, s, t, j);
            assert(t.wires[j] == s.wires[j]);
        }
    }
}

/// In the course of a frame that began with `s0`, the circuit `s` has
/// been reached without disturbing `s0`, and both can be followed back.
pub open spec fn underway(l: Layout, s0: Circuit, s: Circuit) -> bool {
    &&& sound(l, s0)
    &&& traced(l, s0)
    &&& sound(l, s)
    &&& traced(l, s)
    &&& extends(l, s0, s)
}

/// The delay element made for a change at frame `f` listens to a timing
/// chain and marks frame `f`; a forced delay element does not listen.
pub proof fn lemma_who_listens(l: Layout, s: Circuit, f: nat, c: int)
    requires
        sound(l, s),
        0 <= c < l.columns(),
        1 <= f <= l.frames,
    ensures
        listens(l, pixel_delayer(l, s, f, c)),
        heard_frame(l, pixel_delayer(l, s, f, c)) == f,
        s.max_cluster < u32::MAX ==> !listens(l, forced_delayer(l, s, f, c)),
        !listens(l, connector(l, s, f, c)),
        l.base_address + l.height < l.chain_address(l.row_of(c), (2 * f) as int) <= chain_top(l),
        chain_top(l) <= fixed_top(l) <= s.max_address,
{
    let h = l.height as int;
    let d = l.depth() as int;
    lemma_room_for_boards(l);
    lemma_chain_top(l);
    lemma_heard_in_use(l, s);
    lemma_split_index(c, l.width as int, h);
    let y = l.row_of(c);
    lemma_inside_grid(y, 2 * (f as int), d + 1, h);
    lemma_inside_grid(y, 2 * (f as int), d, h);
    lemma_row_major(y, 2 * (f as int), d + 1);
    assert(0 <= h * (d + 1) && h * (d + 1) == (d + 1) * h) by (nonlinear_arith)
        requires
            0 <= h,
            0 <= d,
    ;
    let heard = l.chain_cluster(y, (2 * f) as int);
    assert(l.base_cluster < heard <= l.base_cluster + h * (d + 1));
    assert(pixel_delayer(l, s, f, c).inputs[0] == heard);
    assert(heard - l.base_cluster - 1 == y * (d + 1) + 2 * f);
    if s.max_cluster < u32::MAX {
        assert(forced_delayer(l, s, f, c).inputs[0] == s.max_cluster + 1);
    }
}

/// Chunk compensation of a column whose tap is still the one of the
/// frame's beginning hangs a new tap on it that nothing drives, and leaves
/// every other column where it stood.
pub proof fn lemma_force_step(l: Layout, s0: Circuit, s: Circuit, f: nat, c: int)
    requires
        underway(l, s0, s),
        0 <= c < l.columns(),
        1 <= f <= l.frames,
        s.max_address < u32::MAX,
        s.max_cluster < u32::MAX,
        column_at(l, s0, s, c, f, Stage::Untouched),
    ensures
        underway(l, s0, chunk_column(l, s, f, c)),
        column_at(l, s0, chunk_column(l, s, f, c), c, f, Stage::Hung),
        forall|e: int, stage: Stage|
            0 <= e < l.columns() && e != c && #[trigger] column_at(l, s0, s, e, f, stage)
                ==> column_at(l, s0, chunk_column(l, s, f, c), e, f, stage),
{
    let t = chunk_column(l, s, f, c);
    let w = s.wires.len() as int;
    let q: int = (s.max_address + 1) as int;
    lemma_chunk_column_sound(l, s, f, c);
    lemma_who_listens(l, s, f, c);
    assert(grown(s, t));
    assert(t.wires[w] == forced_wire(s, c));
    assert(s.last_connector[c] <= s.max_address);
    assert(part(l, t, q) == forced_delayer(l, s, f, c));
    assert(!is_driver(l, t, w));
    assert(has_outgoing(t, q)) by {
        assert(leaves(t, w, q));
    }
    assert forall|a: int, b: int|
        0 <= a < b < t.last_connector.len() implies #[trigger] t.last_connector[a]
        != #[trigger] t.last_connector[b] by {
        assert(s.last_connector[a] <= s.max_address);
        assert(s.last_connector[b] <= s.max_address);
    }
    assert forall|a: int| 0 <= a < t.last_connector.len() implies #[trigger] t.last_connector[a]
        <= t.max_address by {
        if a != c {
            assert(s.last_connector[a] <= s.max_address);
        }
    }
    lemma_traced_grows(l, s, t);
    lemma_extends_grows(l, s0, s, t);
    assert(advanced(s0, t, c)) by {
        assert(leaves(t, w, t.last_connector[c] as int) && t.wires[w].end.component_address
            == s0.last_connector[c]);
    }
    assert forall|j: int| !#[trigger] drives(l, t, j, q) by {
        if 0 <= j < w {
            assert(t.wires[j] == s.wires[j]);
            assert(s.wires[j].end.component_address <= s.max_address);
        }
    }
    assert forall|e: int, stage: Stage|
        0 <= e < l.columns() && e != c && #[trigger] column_at(
            l,
            s0,
            s,
            e,
            f,
            stage,
        ) implies column_at(l, s0, t, e, f, stage) by {
        lemma_column_kept(l, s0, s, t, e, f, stage);
    }
}

/// At a chunk boundary a change of a column drives the forced delay
/// element that is the column's tap, and leaves every other column where
/// it stood.
pub proof fn lemma_flip_step_boundary(l: Layout, s0: Circuit, s: Circuit, f: nat, c: int)
    requires
        underway(l, s0, s),
        0 <= c < l.columns(),
        1 <= f <= l.frames,
        at_boundary(f),
        s.max_address + flip_cost(f) <= u32::MAX,
        column_at(l, s0, s, c, f, Stage::Hung),
    ensures
        underway(l, s0, flip_column(l, s, f, c)),
        column_at(l, s0, flip_column(l, s, f, c), c, f, Stage::Marked),
        forall|e: int, stage: Stage|
            0 <= e < l.columns() && e != c && #[trigger] column_at(l, s0, s, e, f, stage)
                ==> column_at(l, s0, flip_column(l, s, f, c), e, f, stage),
{
    let t = flip_column(l, s, f, c);
    let w = s.wires.len() as int;
    let p: int = (s.max_address + 1) as int;
    let tap = s.last_connector[c] as int;
    lemma_flip_column_sound(l, s, f, c);
    lemma_who_listens(l, s, f, c);
    assert(grown(s, t));
    assert(tap <= s.max_address);
    assert(t.wires[w] == listen_wire(l, s, f, c));
    assert(part(l, t, p) == pixel_delayer(l, s, f, c));
    assert(!is_driver(l, t, w));
    assert(is_driver(l, t, w + 1));
    assert(heard(l, t, w + 1) == f);
    assert(has_outgoing(t, p)) by {
        assert(leaves(t, w + 1, p));
    }
    assert forall|a: int, b: int|
        0 <= a < b < t.last_connector.len() implies #[trigger] t.last_connector[a]
        != #[trigger] t.last_connector[b] by {
        assert(s.last_connector[a] <= s.max_address);
        assert(s.last_connector[b] <= s.max_address);
    }
    assert forall|a: int| 0 <= a < t.last_connector.len() implies #[trigger] t.last_connector[a]
        <= t.max_address by {
        assert(s.last_connector[a] <= s.max_address);
    }
    assert(t.wires[w + 1] == drive_wire(s, c, tap));
    assert forall|i: int, j: int|
        0 <= i < j < t.wires.len() && s.wires.len() <= j && #[trigger] is_driver(l, t, i)
            && #[trigger] is_driver(
            l,
            t,
            j,
        ) implies t.wires[i].end.component_address != t.wires[j].end.component_address by {
        if i < w {
            lemma_driver_kept(l, s, t, i);
            assert(t.wires[i] == s.wires[i]);
            if s.wires[i].end.component_address == tap {
                assert(drives(l, s, i, tap));
            }
        }
    }
    lemma_traced_grows(l, s, t);
    lemma_extends_grows(l, s0, s, t);
    lemma_hanging_kept(s0, s, t, c);
    assert(drives(l, t, w + 1, tap));
    assert forall|j: int| #[trigger] drives(l, t, j, tap) implies heard(l, t, j) == f by {
        if j < w {
            lemma_driver_kept(l, s, t, j);
            assert(t.wires[j] == s.wires[j]);
            assert(drives(l, s, j, tap));
        }
    }
    assert forall|e: int, stage: Stage|
        0 <= e < l.columns() && e != c && #[trigger] column_at(
            l,
            s0,
            s,
            e,
            f,
            stage,
        ) implies column_at(l, s0, t, e, f, stage) by {
        if e < c {
            assert(s.last_connector[e] != s.last_connector[c]);
        } else {
            assert(s.last_connector[c] != s.last_connector[e]);
        }
        lemma_column_kept(l, s0, s, t, e, f, stage);
    }
}

/// Away from a chunk boundary a change of a column hangs a new connector
/// on the column's tap and drives it, and leaves every other column where
/// it stood.
pub proof fn lemma_flip_step_plain(l: Layout, s0: Circuit, s: Circuit, f: nat, c: int)
    requires
        underway(l, s0, s),
        0 <= c < l.columns(),
        1 <= f <= l.frames,
        !at_boundary(f),
        s.max_address + flip_cost(f) <= u32::MAX,
        column_at(l, s0, s, c, f, Stage::Untouched),
    ensures
        underway(l, s0, flip_column(l, s, f, c)),
        column_at(l, s0, flip_column(l, s, f, c), c, f, Stage::Marked),
        forall|e: int, stage: Stage|
            0 <= e < l.columns() && e != c && #[trigger] column_at(l, s0, s, e, f, stage)
                ==> column_at(l, s0, flip_column(l, s, f, c), e, f, stage),
{
    let t = flip_column(l, s, f, c);
    let w = s.wires.len() as int;
    let p: int = (s.max_address + 1) as int;
    let tap = s.last_connector[c] as int;
    lemma_flip_column_sound(l, s, f, c);
    lemma_who_listens(l, s, f, c);
    assert(grown(s, t));
    assert(tap <= s.max_address);
    assert(t.wires[w] == listen_wire(l, s, f, c));
    assert(part(l, t, p) == pixel_delayer(l, s, f, c));
    assert(!is_driver(l, t, w));
    assert(is_driver(l, t, w + 1));
    assert(heard(l, t, w + 1) == f);
    assert(has_outgoing(t, p)) by {
        assert(leaves(t, w + 1, p));
    }
    assert forall|a: int, b: int|
        0 <= a < b < t.last_connector.len() implies #[trigger] t.last_connector[a]
        != #[trigger] t.last_connector[b] by {
        assert(s.last_connector[a] <= s.max_address);
        assert(s.last_connector[b] <= s.max_address);
    }
    assert forall|a: int| 0 <= a < t.last_connector.len() implies #[trigger] t.last_connector[a]
        <= t.max_address by {
        assert(s.last_connector[a] <= s.max_address);
    }
    let x: int = (s.max_address + 2) as int;
    assert(t.wires[w + 1] == drive_wire(s, c, x));
    assert(t.wires[w + 2] == back_wire(s, c));
    assert(part(l, t, x) == connector(l, s, f, c));
    assert(!is_driver(l, t, w + 2));
    assert(has_outgoing(t, x)) by {
        assert(leaves(t, w + 2, x));
    }
    assert forall|i: int, j: int|
        0 <= i < j < t.wires.len() && s.wires.len() <= j && #[trigger] is_driver(l, t, i)
            && #[trigger] is_driver(
            l,
            t,
            j,
        ) implies t.wires[i].end.component_address != t.wires[j].end.component_address by {
        if i < w {
            assert(t.wires[i] == s.wires[i]);
            assert(s.wires[i].end.component_address <= s.max_address);
        }
    }
    assert forall|a: int| s.max_address < a <= t.max_address implies #[trigger] has_outgoing(
        t,
        a,
    ) by {
        assert(a == p || a == x);
    }
    lemma_traced_grows(l, s, t);
    lemma_extends_grows(l, s0, s, t);
    assert(advanced(s0, t, c)) by {
        assert(leaves(t, w + 2, t.last_connector[c] as int) && t.wires[w
            + 2].end.component_address == s0.last_connector[c]);
    }
    assert(drives(l, t, w + 1, x));
    assert forall|j: int| #[trigger] drives(l, t, j, x) implies heard(l, t, j) == f by {
        if j < w {
            assert(t.wires[j] == s.wires[j]);
            assert(s.wires[j].end.component_address <= s.max_address);
        }
    }
    assert forall|e: int, stage: Stage|
        0 <= e < l.columns() && e != c && #[trigger] column_at(
            l,
            s0,
            s,
            e,
            f,
            stage,
        ) implies column_at(l, s0, t, e, f, stage) by {
        assert(s.last_connector[e] <= s.max_address);
        lemma_column_kept(l, s0, s, t, e, f, stage);
    }
}

/// Where a column stands before the changes of frame `f` are entered: at a
/// chunk boundary on a forced delay element, elsewhere on its old tap.
pub open spec fn rest_stage(f: nat) -> Stage {
    if at_boundary(f) {
        Stage::Hung
    } else {
        Stage::Untouched
    }
}

/// Where column `c` stands when chunk compensation has reached the first
/// `n` columns.
pub open spec fn forced_stage(c: int, n: nat) -> Stage {
    if c < n {
        Stage::Hung
    } else {
        Stage::Untouched
    }
}

/// Where column `c` stands in frame `f` when the changes of the first `n`
/// columns have been entered.
pub open spec fn entered_stage(
    l: Layout,
    before: Seq<bool>,
    now: Seq<bool>,
    f: nat,
    c: int,
    n: nat,
) -> Stage {
    if c < n && flips(l, before, now, c) {
        Stage::Marked
    } else {
        rest_stage(f)
    }
}

/// A circuit that can be followed back stands at the beginning of its frame.
pub proof fn lemma_underway_begins(l: Layout, s0: Circuit)
    requires
        sound(l, s0),
        traced(l, s0),
    ensures
        underway(l, s0, s0),
{
}

/// Chunk compensation of the first `n` columns hangs a new tap on each of
/// them that nothing drives, and leaves the others untouched.
pub proof fn lemma_chunk_pass_traced(l: Layout, s0: Circuit, f: nat, n: nat)
    requires
        sound(l, s0),
        traced(l, s0),
        1 <= f <= l.frames,
        n <= l.columns(),
        s0.max_address + n <= u32::MAX,
        s0.max_cluster + n <= u32::MAX,
    ensures
        underway(l, s0, chunk_pass(l, s0, f, n)),
        forall|c: int|
            0 <= c < l.columns() ==> #[trigger] column_at(
                l,
                s0,
                chunk_pass(l, s0, f, n),
                c,
                f,
                forced_stage(c, n),
            ),
    decreases n,
{
    if n == 0 {
        lemma_underway_begins(l, s0);
    } else {
        let m = (n - 1) as nat;
        lemma_chunk_pass_traced(l, s0, f, m);
        lemma_chunk_pass_sound(l, s0, f, m);
        let s = chunk_pass(l, s0, f, m);
        assert(column_at(l, s0, s, m as int, f, forced_stage(m as int, m)));
        lemma_force_step(l, s0, s, f, m as int);
        let t = chunk_pass(l, s0, f, n);
        assert forall|c: int| 0 <= c < l.columns() implies #[trigger] column_at(
            l,
            s0,
            t,
            c,
            f,
            forced_stage(c, n),
        ) by {
            if c != m {
                assert(column_at(l, s0, s, c, f, forced_stage(c, m)));
            }
        }
    }
}

/// The changes of the first `n` columns mark each of them that changes,
/// and leave the others where they stood.
pub proof fn lemma_diff_pass_traced(
    l: Layout,
    s0: Circuit,
    s1: Circuit,
    before: Seq<bool>,
    now: Seq<bool>,
    f: nat,
    n: nat,
)
    requires
        underway(l, s0, s1),
        1 <= f <= l.frames,
        n <= l.columns(),
        s1.max_address + flip_cost(f) * n <= u32::MAX,
        forall|c: int| 0 <= c < l.columns() ==> #[trigger] column_at(l, s0, s1, c, f, rest_stage(f)),
    ensures
        underway(l, s0, diff_pass(l, s1, before, now, f, n)),
        forall|c: int|
            0 <= c < l.columns() ==> #[trigger] column_at(
                l,
                s0,
                diff_pass(l, s1, before, now, f, n),
                c,
                f,
                entered_stage(l, before, now, f, c, n),
            ),
    decreases n,
{
    if n > 0 {
        let m = (n - 1) as nat;
        let each = flip_cost(f);
        assert(each * n == each * m + each && 0 <= each * m) by (nonlinear_arith)
            requires
                1 <= each <= 2,
                n >= 1,
                m == n - 1,
        ;
        lemma_diff_pass_traced(l, s0, s1, before, now, f, m);
        lemma_diff_pass_sound(l, s1, before, now, f, m);
        let s = diff_pass(l, s1, before, now, f, m);
        let t = diff_pass(l, s1, before, now, f, n);
        if flips(l, before, now, m as int) {
            assert(column_at(l, s0, s, m as int, f, entered_stage(l, before, now, f, m as int, m)));
            if at_boundary(f) {
                lemma_flip_step_boundary(l, s0, s, f, m as int);
            } else {
                lemma_flip_step_plain(l, s0, s, f, m as int);
            }
            assert forall|c: int| 0 <= c < l.columns() implies #[trigger] column_at(
                l,
                s0,
                t,
                c,
                f,
                entered_stage(l, before, now, f, c, n),
            ) by {
                if c != m {
                    let stage = entered_stage(l, before, now, f, c, m);
                    assert(column_at(l, s0, s, c, f, stage));
                }
            }
        } else {
            assert forall|c: int| 0 <= c < l.columns() implies #[trigger] column_at(
                l,
                s0,
                t,
                c,
                f,
                entered_stage(l, before, now, f, c, n),
            ) by {
                let stage = entered_stage(l, before, now, f, c, m);
                assert(column_at(l, s0, s, c, f, stage));
            }
        }
    }
}

/// The history of a new tap is the history of the tap it hangs on, and
/// then the frame of the change if one drives it.
pub proof fn lemma_history_of_new_tap(
    l: Layout,
    s0: Circuit,
    s: Circuit,
    c: int,
    f: nat,
    stage: Stage,
)
    requires
        underway(l, s0, s),
        0 <= c < l.columns(),
        stage != Stage::Untouched,
        column_at(l, s0, s, c, f, stage),
    ensures
        history(l, s, s.last_connector[c] as int) == if stage == Stage::Marked {
            history(l, s0, s0.last_connector[c] as int).push(f)
        } else {
            history(l, s0, s0.last_connector[c] as int)
        },
{
    let x = s.last_connector[c] as int;
    let t0 = s0.last_connector[c] as int;
    lemma_chain_top(l);
    assert(t0 <= s0.max_address);
    assert(fixed_top(l) <= s0.max_address);
    assert(advanced(s0, s, c));
    let j = choose|j: int| #[trigger]
        leaves(s, j, x) && s.wires[j].end.component_address == s0.last_connector[c];
    let k = choose|j: int| leaves(s, j, x);
    assert(leaves(s, j, x));
    assert(k == j) by {
        if k < j {
            assert(s.wires[k].start.component_address < s.wires[j].start.component_address);
        }
        if j < k {
            assert(s.wires[j].start.component_address < s.wires[k].start.component_address);
        }
    }
    assert(earlier_tap(s, x) == t0);
    lemma_history_stable(l, s0, s, t0);
    if stage == Stage::Marked {
        assert(driven_at(l, s, x, f));
        let d = choose|j: int| drives(l, s, j, x);
        assert(drives(l, s, d, x));
    } else {
        assert(undriven(l, s, x));
        assert(!driven(l, s, x));
    }
}

/// After `n` frames of a run the circuit can be followed back, and the
/// history of each column's tap is the frames at which its pixel changed.
pub proof fn lemma_run_traced(l: Layout, video: Seq<Seq<bool>>, n: nat)
    requires
        l.fits(),
        l.frames >= 1,
        n <= l.frames,
    ensures
        sound(l, after_frames(l, video, n)),
        traced(l, after_frames(l, video, n)),
        forall|c: int|
            0 <= c < l.columns() ==> history(
                l,
                after_frames(l, video, n),
                #[trigger] after_frames(l, video, n).last_connector[c] as int,
            ) == flip_frames(l, video, c, n),
    decreases n,
{
    lemma_run_sound(l, video, n);
    if n == 0 {
        lemma_initial_traced(l);
        lemma_chain_top(l);
    } else {
        let m = (n - 1) as nat;
        lemma_run_traced(l, video, m);
        lemma_run_sound(l, video, m);
        let s0 = after_frames(l, video, m);
        let before = frame_at(l, video, m);
        let now = frame_at(l, video, n);
        lemma_room_for_frame(l, video, n);
        lemma_frame_sound(l, s0, before, now, n);
        let s1 = compensated(l, s0, n);
        if at_boundary(n) {
            lemma_chunk_pass_traced(l, s0, n, l.columns());
        } else {
            lemma_underway_begins(l, s0);
        }
        assert forall|c: int| 0 <= c < l.columns() implies #[trigger] column_at(
            l,
            s0,
            s1,
            c,
            n,
            rest_stage(n),
        ) by {
            if at_boundary(n) {
                assert(column_at(l, s0, s1, c, n, forced_stage(c, l.columns())));
            }
        }
        lemma_diff_pass_traced(l, s0, s1, before, now, n, l.columns());
        let s = after_frames(l, video, n);
        assert forall|c: int| 0 <= c < l.columns() implies history(
            l,
            s,
            #[trigger] s.last_connector[c] as int,
        ) == flip_frames(l, video, c, n) by {
            let stage = entered_stage(l, before, now, n, c, l.columns());
            assert(column_at(l, s0, s, c, n, stage));
            assert(history(l, s0, s0.last_connector[c] as int) == flip_frames(l, video, c, m));
            if stage == Stage::Untouched {
                assert(s0.last_connector[c] <= s0.max_address);
                lemma_history_stable(l, s0, s, s0.last_connector[c] as int);
            } else {
                lemma_history_of_new_tap(l, s0, s, c, n, stage);
            }
        }
    }
}

/// Following the wires back from a column's tap to its socket, one reads
/// the frames at which the column's pixel changed, each once and in order:
/// the history of the tap is the list of those frames.
pub proof fn lemma_taps_tell_changes(l: Layout, video: Seq<Seq<bool>>, n: nat, c: int)
    requires
        l.fits(),
        l.frames >= 1,
        n <= l.frames,
        0 <= c < l.columns(),
    ensures
        history(
            l,
            after_frames(l, video, n),
            after_frames(l, video, n).last_connector[c] as int,
        ) == flip_frames(l, video, c, n),
{
    lemma_run_traced(l, video, n);
    let s = after_frames(l, video, n);
    assert(history(l, s, s.last_connector[c] as int) == flip_frames(l, video, c, n));
}

/// The frames at which a pixel changed tell its value in every frame: it
/// is on just when it has changed an odd number of times since the dark
/// frame before the first.
pub proof fn lemma_changes_tell_pixel(l: Layout, video: Seq<Seq<bool>>, n: nat, c: int)
    requires
        0 <= c < l.columns(),
    ensures
        frame_at(l, video, n)[source_index(l, c)] == (flip_frames(l, video, c, n).len() % 2 == 1),
    decreases n,
{
    if n == 0 {
        lemma_split_index(c, l.width as int, l.height as int);
        lemma_cell_in_grid(
            l.x_of(c),
            l.height - 1 - l.row_of(c),
            l.width as int,
            l.height as int,
        );
    } else {
        lemma_changes_tell_pixel(l, video, (n - 1) as nat, c);
    }
}

} // verus!
