//! What holds of every circuit that a run passes through: its components
//! are numbered without gaps, its clusters stay below the bound, and what
//! was made before the first frame stays in place.

use crate::encode::{
    after_frames, at_boundary, chunk_column, chunk_pass, compensated, diff_pass, encode_frame,
    flip_column, flips, frame_at, initial, Circuit,
};
use crate::layout::{lemma_room_for_boards, Layout};
use crate::numbers::{lemma_inside_grid, lemma_row_major, lemma_split_index};
use crate::parts::ComponentView;
use vstd::prelude::*;

verus! {

/// Each of a component's pins is bound to a cluster above `low` and not above `high`.
pub open spec fn pins_within(component: ComponentView, low: int, high: int) -> bool {
    &&& forall|p: int|
        0 <= p < component.inputs.len() ==> low < #[trigger] component.inputs[p] <= high
    &&& forall|p: int|
        0 <= p < component.outputs.len() ==> low < #[trigger] component.outputs[p] <= high
}

/// The components are numbered in the order they were made, from one above
/// the highest address of the target netlist, and the tables have an entry
/// for each column.
pub open spec fn numbered(l: Layout, s: Circuit) -> bool {
    &&& s.max_address == l.base_address + s.components.len()
    &&& s.max_address <= u32::MAX
    &&& forall|i: int|
        0 <= i < s.components.len() ==> (#[trigger] s.components[i]).address == l.base_address
            + 1 + i
    &&& s.last_connector.len() == l.columns()
    &&& s.last_cluster.len() == l.columns()
}

/// Every cluster id that the circuit mentions was handed out in this run:
/// it lies above the highest of the target netlist and not above the
/// highest in use.
pub open spec fn clustered(l: Layout, s: Circuit) -> bool {
    &&& l.base_cluster <= s.max_cluster <= u32::MAX
    &&& forall|i: int|
        0 <= i < s.components.len() ==> pins_within(
            #[trigger] s.components[i],
            l.base_cluster as int,
            s.max_cluster as int,
        )
    &&& forall|j: int|
        0 <= j < s.wires.len() ==> l.base_cluster < (#[trigger] s.wires[j]).cluster_id
            <= s.max_cluster
    &&& forall|c: int|
        0 <= c < s.last_cluster.len() ==> l.base_cluster < #[trigger] s.last_cluster[c]
            <= s.max_cluster
}

/// What was made before the first frame is still there, at the front.
pub open spec fn rooted(l: Layout, s: Circuit) -> bool {
    &&& s.components.len() >= l.fixed_components()
    &&& s.wires.len() >= l.fixed_wires()
    &&& forall|i: int|
        0 <= i < l.fixed_components() ==> #[trigger] s.components[i] == l.fixed_component(i)
    &&& forall|j: int| 0 <= j < l.fixed_wires() ==> #[trigger] s.wires[j] == l.fixed_wire(j)
}

/// The circuit is one that a run in this layout can pass through.
pub open spec fn sound(l: Layout, s: Circuit) -> bool {
    &&& l.fits()
    &&& l.frames >= 1
    &&& numbered(l, s)
    &&& clustered(l, s)
    &&& rooted(l, s)
}

/// Addresses and clusters that a change of a pixel at frame `f` takes.
pub open spec fn flip_cost(f: nat) -> int {
    if at_boundary(f) {
        1
    } else {
        2
    }
}

/// The chain step at index `i - height` of the fixed part has its row and
/// its place within range, and its clusters are those of the chain.
pub proof fn lemma_fixed_component_pins(l: Layout, i: int)
    requires
        l.fits(),
        l.frames >= 1,
        0 <= i < l.fixed_components(),
    ensures
        pins_within(
            l.fixed_component(i),
            l.base_cluster as int,
            (l.base_cluster + l.fixed_clusters()) as int,
        ),
        l.fixed_component(i).address == l.base_address + 1 + i,
{
    let h = l.height as int;
    let d = l.depth() as int;
    lemma_room_for_boards(l);
    assert(0 <= h * d && 0 <= h * (d + 1)) by (nonlinear_arith)
        requires
            0 <= h,
            0 <= d,
    ;
    if i < h {
    } else if i < h + h * d {
        assert(h * d == d * h) by (nonlinear_arith);
        lemma_split_index(i - h, d, h);
        let y = (i - h) / d;
        let k = (i - h) % d;
        lemma_inside_grid(y, k, d + 1, h);
        lemma_inside_grid(y, k + 1, d + 1, h);
        assert(h * (d + 1) == (d + 1) * h) by (nonlinear_arith);
        let step = l.chain_step(y, k);
        assert(step.inputs[0] == l.chain_cluster(y, k));
        assert(step.outputs[0] == l.chain_cluster(y, k + 1));
    } else {
        let c = i - h - h * d;
        let socket = l.socket(c);
        assert(socket.inputs[0] == l.socket_cluster(c));
    }
}

/// The circuit before the first frame is sound.
pub proof fn lemma_initial_sound(l: Layout)
    requires
        l.fits(),
        l.frames >= 1,
    ensures
        sound(l, initial(l)),
{
    let s = initial(l);
    let h = l.height as int;
    let d = l.depth() as int;
    lemma_room_for_boards(l);
    assert(0 <= h * (d + 1)) by (nonlinear_arith)
        requires
            0 <= h,
            0 <= d,
    ;
    assert forall|i: int| 0 <= i < s.components.len() implies (#[trigger] s.components[i]).address
        == l.base_address + 1 + i && pins_within(
        s.components[i],
        l.base_cluster as int,
        s.max_cluster as int,
    ) by {
        lemma_fixed_component_pins(l, i);
    }
    assert forall|j: int| 0 <= j < s.wires.len() implies l.base_cluster < (
    #[trigger] s.wires[j]).cluster_id <= s.max_cluster by {
        let m = 2 * (l.frames as int);
        assert(h * m == m * h) by (nonlinear_arith);
        lemma_split_index(j, m, h);
        lemma_inside_grid(j / m, j % m + 1, d + 1, h);
        assert(h * (d + 1) == (d + 1) * h) by (nonlinear_arith);
    }
}

/// Chunk compensation of a column keeps a circuit sound.
pub proof fn lemma_chunk_column_sound(l: Layout, s: Circuit, f: nat, c: int)
    requires
        sound(l, s),
        0 <= c < l.columns(),
        s.max_address < u32::MAX,
        s.max_cluster < u32::MAX,
    ensures
        sound(l, chunk_column(l, s, f, c)),
{
    let t = chunk_column(l, s, f, c);
    assert forall|i: int| 0 <= i < t.components.len() implies (#[trigger] t.components[i]).address
        == l.base_address + 1 + i && pins_within(
        t.components[i],
        l.base_cluster as int,
        t.max_cluster as int,
    ) by {
        if i < s.components.len() {
            assert(t.components[i] == s.components[i]);
            assert(pins_within(s.components[i], l.base_cluster as int, s.max_cluster as int));
        } else {
            assert(s.last_cluster[c] <= s.max_cluster);
        }
    }
    assert forall|j: int| 0 <= j < t.wires.len() implies l.base_cluster < (
    #[trigger] t.wires[j]).cluster_id <= t.max_cluster by {
        if j < s.wires.len() {
            assert(t.wires[j] == s.wires[j]);
        } else {
            assert(s.last_cluster[c] <= s.max_cluster);
        }
    }
    assert forall|k: int| 0 <= k < t.last_cluster.len() implies l.base_cluster
        < #[trigger] t.last_cluster[k] <= t.max_cluster by {
        if k != c {
            assert(t.last_cluster[k] == s.last_cluster[k]);
        }
    }
    assert forall|i: int| 0 <= i < l.fixed_components() implies #[trigger] t.components[i]
        == l.fixed_component(i) by {
        assert(t.components[i] == s.components[i]);
    }
    assert forall|j: int| 0 <= j < l.fixed_wires() implies #[trigger] t.wires[j] == l.fixed_wire(
        j,
    ) by {
        assert(t.wires[j] == s.wires[j]);
    }
}

/// A change of a pixel keeps a circuit sound.
pub proof fn lemma_flip_column_sound(l: Layout, s: Circuit, f: nat, c: int)
    requires
        sound(l, s),
        0 <= c < l.columns(),
        1 <= f <= l.frames,
        s.max_address + flip_cost(f) <= u32::MAX,
    ensures
        sound(l, flip_column(l, s, f, c)),
{
    let t = flip_column(l, s, f, c);
    let h = l.height as int;
    let d = l.depth() as int;
    lemma_room_for_boards(l);
    lemma_split_index(c, l.width as int, h);
    lemma_inside_grid(l.row_of(c), 2 * (f as int), d + 1, h);
    assert(0 <= h * (d + 1)) by (nonlinear_arith)
        requires
            0 <= h,
            0 <= d,
    ;
    let heard = l.chain_cluster(l.row_of(c), (2 * f) as int);
    assert(l.base_cluster < heard <= l.base_cluster + l.fixed_clusters());
    assert(s.max_cluster >= l.base_cluster + l.fixed_clusters()) by {
        lemma_heard_in_use(l, s);
    }
    assert(l.base_cluster < s.last_cluster[c] <= s.max_cluster);
    assert forall|i: int| 0 <= i < t.components.len() implies (#[trigger] t.components[i]).address
        == l.base_address + 1 + i && pins_within(
        t.components[i],
        l.base_cluster as int,
        t.max_cluster as int,
    ) by {
        if i < s.components.len() {
            assert(t.components[i] == s.components[i]);
            assert(pins_within(s.components[i], l.base_cluster as int, s.max_cluster as int));
        }
    }
    assert forall|j: int| 0 <= j < t.wires.len() implies l.base_cluster < (
    #[trigger] t.wires[j]).cluster_id <= t.max_cluster by {
        if j < s.wires.len() {
            assert(t.wires[j] == s.wires[j]);
        }
    }
    assert forall|i: int| 0 <= i < l.fixed_components() implies #[trigger] t.components[i]
        == l.fixed_component(i) by {
        assert(t.components[i] == s.components[i]);
    }
    assert forall|j: int| 0 <= j < l.fixed_wires() implies #[trigger] t.wires[j] == l.fixed_wire(
        j,
    ) by {
        assert(t.wires[j] == s.wires[j]);
    }
}

/// In a sound circuit every cluster of the timing chains and every socket's
/// cluster is in use.
pub proof fn lemma_heard_in_use(l: Layout, s: Circuit)
    requires
        sound(l, s),
    ensures
        s.max_cluster >= l.base_cluster + l.fixed_clusters(),
{
    let h = l.height as int;
    let d = l.depth() as int;
    let n = l.columns() as int;
    lemma_room_for_boards(l);
    assert(0 <= h * d && 0 <= h * (d + 1)) by (nonlinear_arith)
        requires
            0 <= h,
            0 <= d,
    ;
    if n > 0 {
        let i = l.fixed_components() - 1;
        assert(s.components[i] == l.fixed_component(i));
        assert(pins_within(s.components[i], l.base_cluster as int, s.max_cluster as int));
        assert(l.fixed_component(i) == l.socket(n - 1));
        assert(l.socket(n - 1).inputs[0] == l.socket_cluster(n - 1));
    } else if h > 0 {
        assert(l.width * l.height == 0);
        let i = l.fixed_components() - 1;
        assert(i == h + h * d - 1);
        assert(s.components[i] == l.fixed_component(i));
        assert(pins_within(s.components[i], l.base_cluster as int, s.max_cluster as int));
        lemma_inside_grid(h - 1, d - 1, d, h);
        lemma_row_major(h - 1, d - 1, d);
        assert(i - h == (h - 1) * d + (d - 1));
        assert(l.fixed_component(i) == l.chain_step(h - 1, d - 1));
        lemma_inside_grid(h - 1, d, d + 1, h);
        assert((h - 1) * (d + 1) + d + 1 == h * (d + 1)) by (nonlinear_arith);
        assert(l.chain_cluster(h - 1, d) == l.base_cluster + h * (d + 1));
        assert(l.chain_step(h - 1, d - 1).outputs[0] == l.chain_cluster(h - 1, d));
    } else {
        assert(h * (d + 1) == 0) by (nonlinear_arith)
            requires
                h == 0,
        ;
        assert(l.width * l.height == 0) by (nonlinear_arith)
            requires
                l.height == 0,
        ;
    }
}

/// Chunk compensation of the first `n` columns keeps a circuit sound and
/// takes one address and one cluster for each.
pub proof fn lemma_chunk_pass_sound(l: Layout, s: Circuit, f: nat, n: nat)
    requires
        sound(l, s),
        n <= l.columns(),
        s.max_address + n <= u32::MAX,
        s.max_cluster + n <= u32::MAX,
    ensures
        sound(l, chunk_pass(l, s, f, n)),
        chunk_pass(l, s, f, n).max_address == s.max_address + n,
        chunk_pass(l, s, f, n).max_cluster == s.max_cluster + n,
        chunk_pass(l, s, f, n).components.len() == s.components.len() + n,
        chunk_pass(l, s, f, n).wires.len() == s.wires.len() + n,
    decreases n,
{
    if n > 0 {
        lemma_chunk_pass_sound(l, s, f, (n - 1) as nat);
        lemma_chunk_column_sound(l, chunk_pass(l, s, f, (n - 1) as nat), f, n - 1);
    }
}

/// The changes of the first `n` columns keep a circuit sound, take no
/// cluster, and take at most `flip_cost(f)` addresses for each column.
pub proof fn lemma_diff_pass_sound(
    l: Layout,
    s: Circuit,
    before: Seq<bool>,
    now: Seq<bool>,
    f: nat,
    n: nat,
)
    requires
        sound(l, s),
        n <= l.columns(),
        1 <= f <= l.frames,
        s.max_address + flip_cost(f) * n <= u32::MAX,
    ensures
        sound(l, diff_pass(l, s, before, now, f, n)),
        s.max_address <= diff_pass(l, s, before, now, f, n).max_address <= s.max_address
            + flip_cost(f) * n,
        diff_pass(l, s, before, now, f, n).max_cluster == s.max_cluster,
        diff_pass(l, s, before, now, f, n).components.len() >= s.components.len(),
        diff_pass(l, s, before, now, f, n).wires.len() >= s.wires.len(),
    decreases n,
{
    if n > 0 {
        let each = flip_cost(f);
        assert(each * n == each * (n - 1) + each && 0 <= each * (n - 1)) by (nonlinear_arith)
            requires
                1 <= each <= 2,
                n >= 1,
        ;
        lemma_diff_pass_sound(l, s, before, now, f, (n - 1) as nat);
        let done = diff_pass(l, s, before, now, f, (n - 1) as nat);
        if flips(l, before, now, n - 1) {
            lemma_flip_column_sound(l, done, f, n - 1);
        }
    }
}

/// A frame keeps a circuit sound and takes at most two addresses for each
/// column, and one cluster for each at a chunk boundary, none elsewhere.
pub proof fn lemma_frame_sound(l: Layout, s: Circuit, before: Seq<bool>, now: Seq<bool>, f: nat)
    requires
        sound(l, s),
        1 <= f <= l.frames,
        s.max_address + 2 * l.columns() <= u32::MAX,
        at_boundary(f) ==> s.max_cluster + l.columns() <= u32::MAX,
    ensures
        sound(l, compensated(l, s, f)),
        sound(l, encode_frame(l, s, before, now, f)),
        compensated(l, s, f).max_address + flip_cost(f) * l.columns() <= s.max_address + 2
            * l.columns(),
        s.max_address <= encode_frame(l, s, before, now, f).max_address <= s.max_address + 2
            * l.columns(),
        encode_frame(l, s, before, now, f).max_cluster == s.max_cluster + if at_boundary(f) {
            l.columns()
        } else {
            0
        },
{
    let n = l.columns();
    if at_boundary(f) {
        lemma_chunk_pass_sound(l, s, f, n);
    }
    let mid = compensated(l, s, f);
    assert(flip_cost(f) * n == (if at_boundary(f) {
        n as int
    } else {
        2 * (n as int)
    })) by (nonlinear_arith)
        requires
            flip_cost(f) == (if at_boundary(f) {
                1int
            } else {
                2int
            }),
    ;
    lemma_diff_pass_sound(l, mid, before, now, f, n);
}

/// The circuit after any number of frames of a run is sound, and leaves
/// room for the frames to come.
pub proof fn lemma_run_sound(l: Layout, video: Seq<Seq<bool>>, n: nat)
    requires
        l.fits(),
        l.frames >= 1,
        n <= l.frames,
    ensures
        sound(l, after_frames(l, video, n)),
        after_frames(l, video, n).max_address + 2 * l.columns() * (l.frames - n) <= u32::MAX,
        after_frames(l, video, n).max_cluster + l.columns() * (l.frames / 200 - n / 200)
            <= u32::MAX,
    decreases n, 1nat,
{
    lemma_room_for_boards(l);
    if n == 0 {
        lemma_initial_sound(l);
    } else {
        lemma_run_sound(l, video, (n - 1) as nat);
        lemma_room_for_frame(l, video, n);
        let s = after_frames(l, video, (n - 1) as nat);
        lemma_frame_sound(
            l,
            s,
            frame_at(l, video, (n - 1) as nat),
            frame_at(l, video, n),
            n,
        );
        let columns = l.columns() as int;
        let left = l.frames - n;
        let due = l.frames / 200 - n / 200;
        assert(2 * columns * (left + 1) == 2 * columns + 2 * columns * left) by (nonlinear_arith);
        assert(columns * (due + 1) == columns + columns * due) by (nonlinear_arith);
    }
}

/// Before each frame of a run the circuit is sound and has room for what
/// the frame may take: two addresses for each column, and a cluster for
/// each if the frame is a chunk boundary.
pub proof fn lemma_room_for_frame(l: Layout, video: Seq<Seq<bool>>, n: nat)
    requires
        l.fits(),
        l.frames >= 1,
        1 <= n <= l.frames,
    ensures
        sound(l, after_frames(l, video, (n - 1) as nat)),
        after_frames(l, video, (n - 1) as nat).max_address + 2 * l.columns() <= u32::MAX,
        at_boundary(n) ==> after_frames(l, video, (n - 1) as nat).max_cluster + l.columns()
            <= u32::MAX,
    decreases n, 0nat,
{
    lemma_run_sound(l, video, (n - 1) as nat);
    let columns = l.columns() as int;
    let left = l.frames - (n - 1);
    let due = l.frames / 200 - (n - 1) / 200;
    assert(2 * columns * left == 2 * columns + 2 * columns * (left - 1) && 0 <= 2 * columns * (left
        - 1)) by (nonlinear_arith)
        requires
            left >= 1,
            columns >= 0,
    ;
    if at_boundary(n) {
        assert(columns * due == columns + columns * (due - 1) && 0 <= columns * (due - 1))
            by (nonlinear_arith)
            requires
                due >= 1,
                columns >= 0,
        ;
    }
}

/// In the circuit after any number of frames of a run that fits, no two
/// components share an address, every address lies above those of the
/// target netlist, and every cluster id on a pin or a wire lies above those
/// of the target netlist and below the bound `max_cluster + 1`.
pub proof fn lemma_identifiers_fresh(l: Layout, video: Seq<Seq<bool>>, n: nat)
    requires
        l.fits(),
        l.frames >= 1,
        n <= l.frames,
    ensures
        ({
            let s = after_frames(l, video, n);
            &&& forall|i: int, j: int|
                0 <= i < j < s.components.len() ==> (#[trigger] s.components[i]).address != (
                #[trigger] s.components[j]).address
            &&& forall|i: int|
                0 <= i < s.components.len() ==> l.base_address < (
                #[trigger] s.components[i]).address <= s.max_address
            &&& forall|i: int, p: int|
                0 <= i < s.components.len() && 0 <= p < s.components[i].inputs.len()
                    ==> l.base_cluster < #[trigger] s.components[i].inputs[p] < s.max_cluster + 1
            &&& forall|i: int, p: int|
                0 <= i < s.components.len() && 0 <= p < s.components[i].outputs.len()
                    ==> l.base_cluster < #[trigger] s.components[i].outputs[p] < s.max_cluster
                    + 1
            &&& forall|j: int|
                0 <= j < s.wires.len() ==> l.base_cluster < (#[trigger] s.wires[j]).cluster_id
                    < s.max_cluster + 1
        }),
{
    lemma_run_sound(l, video, n);
    let s = after_frames(l, video, n);
    assert forall|i: int, p: int|
        0 <= i < s.components.len() && 0 <= p < s.components[i].inputs.len()
            implies l.base_cluster < #[trigger] s.components[i].inputs[p] < s.max_cluster + 1 by {
        assert(pins_within(s.components[i], l.base_cluster as int, s.max_cluster as int));
    }
    assert forall|i: int, p: int|
        0 <= i < s.components.len() && 0 <= p < s.components[i].outputs.len()
            implies l.base_cluster < #[trigger] s.components[i].outputs[p] < s.max_cluster + 1 by {
        assert(pins_within(s.components[i], l.base_cluster as int, s.max_cluster as int));
    }
}

} // verus!
