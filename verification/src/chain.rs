//! The timing chain of each row stays one unbranched line of delay
//! elements, whatever the frames add.

use crate::encode::{
    after_frames, at_boundary, chunk_column, chunk_pass, compensated, diff_pass, flip_column,
    flips, frame_at, initial, Circuit,
};
use crate::layout::{lemma_room_for_boards, Layout};
use crate::numbers::{lemma_inside_grid, lemma_row_major, lemma_split_index};
use crate::parts::{peg, ComponentKind, Payload, Wire};
use crate::soundness::{
    flip_cost, lemma_chunk_pass_sound, lemma_diff_pass_sound, lemma_frame_sound, lemma_room_for_frame, lemma_run_sound,
    sound,
};
use vstd::prelude::*;

verus! {

/// The highest address of a step of a timing chain.
pub open spec fn chain_top(l: Layout) -> int {
    (l.base_address + l.height + l.height * l.depth()) as int
}

/// A wire that keeps off the timing chains but for listening at an input:
/// it ends at an input pin beyond the chains, and if it starts at an
/// output pin, that too lies beyond the chains.
pub open spec fn off_chain(l: Layout, w: Wire) -> bool {
    &&& w.end.is_input
    &&& w.end.component_address > chain_top(l)
    &&& (w.start.is_input || w.start.component_address > chain_top(l))
}

/// Nothing made after the chains touches them but to listen: the later
/// wires keep off, the taps lie beyond the chains, and the later delay
/// elements all take one tick.
pub open spec fn unbranched(l: Layout, s: Circuit) -> bool {
    &&& forall|j: int| l.fixed_wires() <= j < s.wires.len() ==> off_chain(l, #[trigger] s.wires[j])
    &&& forall|c: int|
        0 <= c < s.last_connector.len() ==> #[trigger] s.last_connector[c] > chain_top(l)
    &&& forall|i: int|
        l.fixed_components() <= i < s.components.len() ==> (
        #[trigger] s.components[i]).kind == ComponentKind::Connector || s.components[i].extra
            == (Payload::Delay { ticks: 1 })
}

/// The chains end below the identifiers set aside, and every socket and
/// every later component lies beyond them.
pub proof fn lemma_chain_top(l: Layout)
    requires
        l.fits(),
    ensures
        l.base_address <= chain_top(l),
        chain_top(l) + l.columns() == l.base_address + l.fixed_components(),
        l.base_address + l.fixed_components() <= u32::MAX,
        0 <= l.height * l.depth(),
{
    lemma_room_for_boards(l);
    assert(0 <= l.height * l.depth()) by (nonlinear_arith);
}

proof fn lemma_initial_unbranched(l: Layout)
    requires
        l.fits(),
        l.frames >= 1,
    ensures
        unbranched(l, initial(l)),
{
    lemma_chain_top(l);
}

proof fn lemma_chunk_column_unbranched(l: Layout, s: Circuit, f: nat, c: int)
    requires
        sound(l, s),
        unbranched(l, s),
        0 <= c < l.columns(),
        s.max_address < u32::MAX,
        s.max_cluster < u32::MAX,
    ensures
        unbranched(l, chunk_column(l, s, f, c)),
{
    lemma_chain_top(l);
    let t = chunk_column(l, s, f, c);
    assert forall|j: int| l.fixed_wires() <= j < t.wires.len() implies off_chain(
        l,
        #[trigger] t.wires[j],
    ) by {
        if j < s.wires.len() {
            assert(t.wires[j] == s.wires[j]);
        } else {
            assert(s.last_connector[c] > chain_top(l));
        }
    }
    assert forall|k: int| 0 <= k < t.last_connector.len() implies #[trigger] t.last_connector[k]
        > chain_top(l) by {
        if k != c {
            assert(t.last_connector[k] == s.last_connector[k]);
        }
    }
    assert forall|i: int| l.fixed_components() <= i < t.components.len() implies (
    #[trigger] t.components[i]).kind == ComponentKind::Connector || t.components[i].extra == (
    Payload::Delay { ticks: 1 }) by {
        if i < s.components.len() {
            assert(t.components[i] == s.components[i]);
        }
    }
}

proof fn lemma_flip_column_unbranched(l: Layout, s: Circuit, f: nat, c: int)
    requires
        sound(l, s),
        unbranched(l, s),
        0 <= c < l.columns(),
        1 <= f <= l.frames,
        s.max_address + flip_cost(f) <= u32::MAX,
    ensures
        unbranched(l, flip_column(l, s, f, c)),
{
    lemma_chain_top(l);
    let t = flip_column(l, s, f, c);
    assert(s.last_connector[c] > chain_top(l));
    assert forall|j: int| l.fixed_wires() <= j < t.wires.len() implies off_chain(
        l,
        #[trigger] t.wires[j],
    ) by {
        if j < s.wires.len() {
            assert(t.wires[j] == s.wires[j]);
        }
    }
    assert forall|k: int| 0 <= k < t.last_connector.len() implies #[trigger] t.last_connector[k]
        > chain_top(l) by {
        if k != c {
            assert(t.last_connector[k] == s.last_connector[k]);
        }
    }
    assert forall|i: int| l.fixed_components() <= i < t.components.len() implies (
    #[trigger] t.components[i]).kind == ComponentKind::Connector || t.components[i].extra == (
    Payload::Delay { ticks: 1 }) by {
        if i < s.components.len() {
            assert(t.components[i] == s.components[i]);
        }
    }
}

proof fn lemma_chunk_pass_unbranched(l: Layout, s: Circuit, f: nat, n: nat)
    requires
        sound(l, s),
        unbranched(l, s),
        n <= l.columns(),
        s.max_address + n <= u32::MAX,
        s.max_cluster + n <= u32::MAX,
    ensures
        unbranched(l, chunk_pass(l, s, f, n)),
    decreases n,
{
    if n > 0 {
        lemma_chunk_pass_unbranched(l, s, f, (n - 1) as nat);
        lemma_chunk_pass_sound(l, s, f, (n - 1) as nat);
        lemma_chunk_column_unbranched(l, chunk_pass(l, s, f, (n - 1) as nat), f, n - 1);
    }
}

proof fn lemma_diff_pass_unbranched(
    l: Layout,
    s: Circuit,
    before: Seq<bool>,
    now: Seq<bool>,
    f: nat,
    n: nat,
)
    requires
        sound(l, s),
        unbranched(l, s),
        n <= l.columns(),
        1 <= f <= l.frames,
        s.max_address + flip_cost(f) * n <= u32::MAX,
    ensures
        unbranched(l, diff_pass(l, s, before, now, f, n)),
    decreases n,
{
    if n > 0 {
        let each = flip_cost(f);
        assert(each * n == each * (n - 1) + each && 0 <= each * (n - 1)) by (nonlinear_arith)
            requires
                1 <= each <= 2,
                n >= 1,
        ;
        lemma_diff_pass_unbranched(l, s, before, now, f, (n - 1) as nat);
        lemma_diff_pass_sound(l, s, before, now, f, (n - 1) as nat);
        if flips(l, before, now, n - 1) {
            lemma_flip_column_unbranched(
                l,
                diff_pass(l, s, before, now, f, (n - 1) as nat),
                f,
                n - 1,
            );
        }
    }
}

/// The circuit after any number of frames of a run is unbranched.
pub proof fn lemma_run_unbranched(l: Layout, video: Seq<Seq<bool>>, n: nat)
    requires
        l.fits(),
        l.frames >= 1,
        n <= l.frames,
    ensures
        unbranched(l, after_frames(l, video, n)),
    decreases n,
{
    if n == 0 {
        lemma_initial_unbranched(l);
    } else {
        lemma_run_unbranched(l, video, (n - 1) as nat);
        lemma_run_sound(l, video, (n - 1) as nat);
        let s = after_frames(l, video, (n - 1) as nat);
        lemma_room_for_frame(l, video, n);
        let before = frame_at(l, video, (n - 1) as nat);
        let now = frame_at(l, video, n);
        lemma_frame_sound(l, s, before, now, n);
        if at_boundary(n) {
            lemma_chunk_pass_unbranched(l, s, n, l.columns());
        }
        lemma_diff_pass_unbranched(l, compensated(l, s, n), before, now, n, l.columns());
    }
}

/// The timing chain of row `y` is one line of `2 F + 1` delay elements
/// without branches, as long as the run goes on. The element at position
/// `k`, counted from 1, takes 9 ticks if 400 divides `k` and 10 otherwise.
/// Its output is wired to the input of the element at position `k + 1`, and
/// no other wire is on its output. No wire ends at its input but the one
/// from the element before. Every delay element outside the chains takes
/// one tick.
pub proof fn lemma_timing_chain(l: Layout, video: Seq<Seq<bool>>, n: nat, y: int, k: int)
    requires
        l.fits(),
        l.frames >= 1,
        n <= l.frames,
        0 <= y < l.height,
        1 <= k <= l.depth(),
    ensures
        ({
            let s = after_frames(l, video, n);
            let at = l.height + y * l.depth() + (k - 1);
            let link = y * (2 * l.frames) + (k - 1);
            let element = l.chain_address(y, k - 1);
            &&& 0 <= at < s.components.len()
            &&& s.components[at] == l.chain_step(y, k - 1)
            &&& s.components[at].address == element
            &&& s.components[at].kind == ComponentKind::DelayElement
            &&& s.components[at].extra == (Payload::Delay {
                ticks: if k % 400 == 0 {
                    9u32
                } else {
                    10u32
                },
            })
            &&& k < l.depth() ==> 0 <= link < s.wires.len() && s.wires[link] == l.chain_link(y, k)
            &&& forall|j: int|
                0 <= j < s.wires.len() && ((#[trigger] s.wires[j]).start == peg(element, false, 0)
                    || s.wires[j].end == peg(element, false, 0)) ==> k < l.depth() && j == link
            &&& forall|j: int|
                0 <= j < s.wires.len() && (#[trigger] s.wires[j]).end == peg(element, true, 0)
                    ==> k >= 2 && j == link - 1
            &&& forall|i: int|
                0 <= i < s.components.len() && (#[trigger] s.components[i]).kind
                    == ComponentKind::DelayElement && s.components[i].extra != (Payload::Delay {
                    ticks: 1,
                }) ==> l.height <= i < l.height + l.height * l.depth()
        }),
{
    let s = after_frames(l, video, n);
    let h = l.height as int;
    let d = l.depth() as int;
    let m = 2 * (l.frames as int);
    let at = h + y * d + (k - 1);
    let link = y * m + (k - 1);
    let element = l.chain_address(y, k - 1);
    lemma_run_sound(l, video, n);
    lemma_run_unbranched(l, video, n);
    lemma_chain_top(l);
    lemma_inside_grid(y, k - 1, d, h);
    lemma_row_major(y, k - 1, d);
    assert(s.components[at] == l.fixed_component(at));
    assert(base_bounds(l, y, k - 1));
    if k < d {
        lemma_inside_grid(y, k - 1, m, h);
        lemma_row_major(y, k - 1, m);
        assert(s.wires[link] == l.fixed_wire(link));
    }
    assert forall|j: int|
        0 <= j < s.wires.len() && ((#[trigger] s.wires[j]).start == peg(element, false, 0)
            || s.wires[j].end == peg(element, false, 0)) implies k < d && j == link by {
        if j < l.fixed_wires() {
            lemma_fixed_wire_ends(l, j);
            let y2 = j / m;
            let k2 = j % m + 1;
            assert(s.wires[j] == l.fixed_wire(j));
            assert(l.chain_address(y2, k2 - 1) == element);
            lemma_row_major(y2, k2 - 1, d);
            assert(y2 * d + (k2 - 1) == y * d + (k - 1));
        } else {
            assert(off_chain(l, s.wires[j]));
        }
    }
    assert forall|j: int|
        0 <= j < s.wires.len() && (#[trigger] s.wires[j]).end == peg(
            element,
            true,
            0,
        ) implies k >= 2 && j == link - 1 by {
        if j < l.fixed_wires() {
            lemma_fixed_wire_ends(l, j);
            let y2 = j / m;
            let k2 = j % m + 1;
            assert(s.wires[j] == l.fixed_wire(j));
            assert(l.chain_address(y2, k2) == element);
            lemma_row_major(y2, k2, d);
            assert(y2 * d + k2 == y * d + (k - 1));
        } else {
            assert(off_chain(l, s.wires[j]));
        }
    }
    assert forall|i: int|
        0 <= i < s.components.len() && (#[trigger] s.components[i]).kind
            == ComponentKind::DelayElement && s.components[i].extra != (Payload::Delay {
            ticks: 1,
        }) implies h <= i < h + h * d by {
        if i < l.fixed_components() {
            assert(s.components[i] == l.fixed_component(i));
        }
    }
}

/// The address of step `k` of row `y` lies among the chains and fits.
pub open spec fn base_bounds(l: Layout, y: int, k: int) -> bool {
    l.base_address + l.height < l.chain_address(y, k) <= chain_top(l) <= u32::MAX
}

/// The `j`-th wire of the fixed part links two neighbouring steps of one
/// chain, whose addresses lie among the chains.
pub proof fn lemma_fixed_wire_ends(l: Layout, j: int)
    requires
        l.fits(),
        l.frames >= 1,
        0 <= j < l.fixed_wires(),
    ensures
        ({
            let m = 2 * (l.frames as int);
            let y = j / m;
            let k = j % m + 1;
            &&& 0 <= y < l.height
            &&& 1 <= k < l.depth()
            &&& j == y * m + (k - 1)
            &&& base_bounds(l, y, k - 1)
            &&& base_bounds(l, y, k)
        }),
{
    let h = l.height as int;
    let d = l.depth() as int;
    let m = 2 * (l.frames as int);
    lemma_chain_top(l);
    assert(h * m == m * h) by (nonlinear_arith);
    lemma_split_index(j, m, h);
    lemma_inside_grid(j / m, j % m, d, h);
    lemma_inside_grid(j / m, j % m + 1, d, h);
}

} // verus!
