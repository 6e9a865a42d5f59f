//! Every wire joins two pins that exist and are bound to the cluster the
//! wire carries, and every component that has a parent sits on a board.

use crate::chain::{chain_top, lemma_chain_top, lemma_fixed_wire_ends};
use crate::encode::{
    after_frames, at_boundary, back_wire, chunk_column, chunk_pass, compensated, connector,
    diff_pass, drive_wire, flip_column, flips, forced_delayer, forced_wire, frame_at, initial,
    listen_wire, pixel_delayer, Circuit,
};
use crate::layout::{lemma_room_for_boards, Layout};
use crate::numbers::{lemma_inside_grid, lemma_row_major, lemma_split_index};
use crate::parts::{pin_cluster, ComponentKind, ComponentView, PegAddress};
use crate::soundness::{
    flip_cost, lemma_chunk_column_sound, lemma_chunk_pass_sound, lemma_diff_pass_sound,
    lemma_flip_column_sound, lemma_frame_sound, lemma_initial_sound, lemma_room_for_frame,
    lemma_run_sound, sound,
};
use crate::taps::part;
use vstd::prelude::*;

verus! {

/// The pin is one of a component made in this run, and is bound to the cluster.
pub open spec fn bound_to(l: Layout, s: Circuit, pin: PegAddress, cluster: u32) -> bool {
    &&& l.base_address < pin.component_address <= s.max_address
    &&& pin_cluster(part(l, s, pin.component_address as int), pin.is_input, pin.port_index as int)
        == Some(cluster)
}

/// The component has no parent, or its parent is the board of a row.
pub open spec fn on_board(l: Layout, component: ComponentView) -> bool {
    component.parent matches Some(p) ==> l.base_address < p <= l.base_address + l.height
}

/// Every wire joins two pins bound to the cluster it carries; the tap of
/// each column has its input on the column's cluster; and what has a
/// parent sits on a row's board.
pub open spec fn threaded(l: Layout, s: Circuit) -> bool {
    &&& forall|j: int|
        0 <= j < s.wires.len() ==> bound_to(
            l,
            s,
            (#[trigger] s.wires[j]).start,
            s.wires[j].cluster_id,
        ) && bound_to(l, s, s.wires[j].end, s.wires[j].cluster_id)
    &&& forall|c: int|
        0 <= c < s.last_connector.len() ==> l.base_address < #[trigger] s.last_connector[c]
            <= s.max_address && pin_cluster(part(l, s, s.last_connector[c] as int), true, 0)
            == Some(s.last_cluster[c])
    &&& forall|i: int| 0 <= i < s.components.len() ==> on_board(l, #[trigger] s.components[i])
    &&& forall|y: int|
        0 <= y < l.height ==> (#[trigger] s.components[y]).kind == ComponentKind::Board
}

/// Step `k` of the chain of row `y` stands at its address, with its input
/// and its output on the clusters of the chain.
pub proof fn lemma_chain_step_there(l: Layout, s: Circuit, y: int, k: int)
    requires
        sound(l, s),
        0 <= y < l.height,
        0 <= k < l.depth(),
    ensures
        l.base_address < l.chain_address(y, k) <= chain_top(l) <= s.max_address,
        part(l, s, l.chain_address(y, k)) == l.chain_step(y, k),
        pin_cluster(l.chain_step(y, k), true, 0) == Some(l.chain_cluster(y, k) as u32),
        pin_cluster(l.chain_step(y, k), false, 0) == Some(l.chain_cluster(y, k + 1) as u32),
{
    let h = l.height as int;
    let d = l.depth() as int;
    lemma_chain_top(l);
    lemma_inside_grid(y, k, d, h);
    lemma_row_major(y, k, d);
    let i = h + y * d + k;
    assert(s.components[i] == l.fixed_component(i));
}

proof fn lemma_initial_threaded(l: Layout)
    requires
        l.fits(),
        l.frames >= 1,
    ensures
        threaded(l, initial(l)),
{
    let s = initial(l);
    let h = l.height as int;
    let d = l.depth() as int;
    let m = 2 * (l.frames as int);
    lemma_initial_sound(l);
    lemma_chain_top(l);
    lemma_room_for_boards(l);
    assert forall|j: int| 0 <= j < s.wires.len() implies bound_to(
        l,
        s,
        (#[trigger] s.wires[j]).start,
        s.wires[j].cluster_id,
    ) && bound_to(l, s, s.wires[j].end, s.wires[j].cluster_id) by {
        lemma_fixed_wire_ends(l, j);
        let y = j / m;
        let k = j % m + 1;
        lemma_chain_step_there(l, s, y, k - 1);
        lemma_chain_step_there(l, s, y, k);
    }
    assert forall|c: int| 0 <= c < s.last_connector.len() implies l.base_address
        < #[trigger] s.last_connector[c] <= s.max_address && pin_cluster(
        part(l, s, s.last_connector[c] as int),
        true,
        0,
    ) == Some(s.last_cluster[c]) by {
        let i = h + h * d + c;
        assert(s.components[i] == l.fixed_component(i));
        assert(l.socket(c).inputs[0] == l.socket_cluster(c) as u32);
    }
    assert forall|i: int| 0 <= i < s.components.len() implies on_board(
        l,
        #[trigger] s.components[i],
    ) by {
        if i < h {
        } else if i < h + h * d {
            assert(h * d == d * h) by (nonlinear_arith);
            lemma_split_index(i - h, d, h);
        } else {
            lemma_split_index(i - h - h * d, l.width as int, h);
        }
    }
}

/// A pin bound to a cluster stays bound to it when the circuit grows by
/// components at the end.
proof fn lemma_bound_kept(l: Layout, s: Circuit, t: Circuit, pin: PegAddress, cluster: u32)
    requires
        sound(l, s),
        bound_to(l, s, pin, cluster),
        s.components.len() <= t.components.len(),
        s.max_address <= t.max_address,
        forall|i: int| 0 <= i < s.components.len() ==> #[trigger] t.components[i] == s.components[i],
    ensures
        bound_to(l, t, pin, cluster),
{
    let i = pin.component_address - l.base_address - 1;
    assert(t.components[i] == s.components[i]);
}

proof fn lemma_chunk_column_threaded(l: Layout, s: Circuit, f: nat, c: int)
    requires
        sound(l, s),
        threaded(l, s),
        0 <= c < l.columns(),
        s.max_address < u32::MAX,
        s.max_cluster < u32::MAX,
    ensures
        threaded(l, chunk_column(l, s, f, c)),
{
    let t = chunk_column(l, s, f, c);
    let q: int = (s.max_address + 1) as int;
    lemma_chunk_column_sound(l, s, f, c);
    lemma_split_index(c, l.width as int, l.height as int);
    lemma_room_for_boards(l);
    assert(part(l, t, q) == forced_delayer(l, s, f, c));
    assert(forced_delayer(l, s, f, c).inputs[0] == (s.max_cluster + 1) as u32);
    assert(forced_delayer(l, s, f, c).outputs[0] == s.last_cluster[c]);
    assert forall|j: int| 0 <= j < t.wires.len() implies bound_to(
        l,
        t,
        (#[trigger] t.wires[j]).start,
        t.wires[j].cluster_id,
    ) && bound_to(l, t, t.wires[j].end, t.wires[j].cluster_id) by {
        if j < s.wires.len() {
            assert(t.wires[j] == s.wires[j]);
            lemma_bound_kept(l, s, t, s.wires[j].start, s.wires[j].cluster_id);
            lemma_bound_kept(l, s, t, s.wires[j].end, s.wires[j].cluster_id);
        } else {
            assert(t.wires[j] == forced_wire(s, c));
            assert(bound_to(l, s, t.wires[j].end, s.last_cluster[c]));
            lemma_bound_kept(l, s, t, t.wires[j].end, s.last_cluster[c]);
        }
    }
    assert forall|e: int| 0 <= e < t.last_connector.len() implies l.base_address
        < #[trigger] t.last_connector[e] <= t.max_address && pin_cluster(
        part(l, t, t.last_connector[e] as int),
        true,
        0,
    ) == Some(t.last_cluster[e]) by {
        if e != c {
            let pin = PegAddress {
                component_address: s.last_connector[e],
                is_input: true,
                port_index: 0,
            };
            assert(bound_to(l, s, pin, s.last_cluster[e]));
            lemma_bound_kept(l, s, t, pin, s.last_cluster[e]);
        }
    }
    assert forall|i: int| 0 <= i < t.components.len() implies on_board(
        l,
        #[trigger] t.components[i],
    ) by {
        if i < s.components.len() {
            assert(t.components[i] == s.components[i]);
        }
    }
    assert forall|y: int| 0 <= y < l.height implies (#[trigger] t.components[y]).kind
        == ComponentKind::Board by {
        assert(t.components[y] == s.components[y]);
    }
}

/// The old wires, the taps of the columns that a step leaves alone, and
/// the old components are as they were when the circuit grows at the end.
proof fn lemma_threaded_kept(l: Layout, s: Circuit, t: Circuit, c: int)
    requires
        sound(l, s),
        threaded(l, s),
        s.components.len() <= t.components.len(),
        s.wires.len() <= t.wires.len(),
        s.max_address <= t.max_address,
        forall|i: int| 0 <= i < s.components.len() ==> #[trigger] t.components[i] == s.components[i],
        forall|j: int| 0 <= j < s.wires.len() ==> #[trigger] t.wires[j] == s.wires[j],
        t.last_connector.len() == s.last_connector.len(),
        t.last_cluster.len() == s.last_cluster.len(),
        s.last_connector.len() == s.last_cluster.len(),
        forall|e: int|
            0 <= e < s.last_connector.len() && e != c ==> #[trigger] t.last_connector[e]
                == s.last_connector[e] && t.last_cluster[e] == s.last_cluster[e],
    ensures
        forall|j: int|
            0 <= j < s.wires.len() ==> bound_to(
                l,
                t,
                (#[trigger] t.wires[j]).start,
                t.wires[j].cluster_id,
            ) && bound_to(l, t, t.wires[j].end, t.wires[j].cluster_id),
        forall|e: int|
            0 <= e < t.last_connector.len() && e != c ==> l.base_address
                < #[trigger] t.last_connector[e] <= t.max_address && pin_cluster(
                part(l, t, t.last_connector[e] as int),
                true,
                0,
            ) == Some(t.last_cluster[e]),
        forall|i: int| 0 <= i < s.components.len() ==> on_board(l, #[trigger] t.components[i]),
        forall|y: int|
            0 <= y < l.height ==> (#[trigger] t.components[y]).kind == ComponentKind::Board,
{
    assert forall|j: int| 0 <= j < s.wires.len() implies bound_to(
        l,
        t,
        (#[trigger] t.wires[j]).start,
        t.wires[j].cluster_id,
    ) && bound_to(l, t, t.wires[j].end, t.wires[j].cluster_id) by {
        assert(t.wires[j] == s.wires[j]);
        lemma_bound_kept(l, s, t, s.wires[j].start, s.wires[j].cluster_id);
        lemma_bound_kept(l, s, t, s.wires[j].end, s.wires[j].cluster_id);
    }
    assert forall|e: int| 0 <= e < t.last_connector.len() && e != c implies l.base_address
        < #[trigger] t.last_connector[e] <= t.max_address && pin_cluster(
        part(l, t, t.last_connector[e] as int),
        true,
        0,
    ) == Some(t.last_cluster[e]) by {
        let pin = PegAddress {
            component_address: s.last_connector[e],
            is_input: true,
            port_index: 0,
        };
        assert(bound_to(l, s, pin, s.last_cluster[e]));
        lemma_bound_kept(l, s, t, pin, s.last_cluster[e]);
    }
    assert forall|i: int| 0 <= i < s.components.len() implies on_board(
        l,
        #[trigger] t.components[i],
    ) by {
        assert(t.components[i] == s.components[i]);
    }
    assert forall|y: int| 0 <= y < l.height implies (#[trigger] t.components[y]).kind
        == ComponentKind::Board by {
        assert(t.components[y] == s.components[y]);
    }
}

/// What a change of a column adds is wired to the clusters it is bound to.
proof fn lemma_flip_parts_bound(l: Layout, s: Circuit, f: nat, c: int)
    requires
        sound(l, s),
        threaded(l, s),
        0 <= c < l.columns(),
        1 <= f <= l.frames,
        s.max_address + flip_cost(f) <= u32::MAX,
    ensures
        ({
            let t = flip_column(l, s, f, c);
            let w = s.wires.len() as int;
            &&& forall|j: int|
                w <= j < t.wires.len() ==> bound_to(
                    l,
                    t,
                    (#[trigger] t.wires[j]).start,
                    t.wires[j].cluster_id,
                ) && bound_to(l, t, t.wires[j].end, t.wires[j].cluster_id)
            &&& l.base_address < t.last_connector[c] <= t.max_address
            &&& pin_cluster(part(l, t, t.last_connector[c] as int), true, 0) == Some(
                t.last_cluster[c],
            )
            &&& forall|i: int|
                s.components.len() <= i < t.components.len() ==> on_board(
                    l,
                    #[trigger] t.components[i],
                )
        }),
{
    let t = flip_column(l, s, f, c);
    let w = s.wires.len() as int;
    let p: int = (s.max_address + 1) as int;
    let y = l.row_of(c);
    lemma_flip_column_sound(l, s, f, c);
    lemma_split_index(c, l.width as int, l.height as int);
    lemma_room_for_boards(l);
    lemma_chain_step_there(l, s, y, 2 * (f as int));
    let delayer = pixel_delayer(l, s, f, c);
    assert(part(l, t, p) == delayer);
    assert(delayer.inputs[0] == l.chain_cluster(y, 2 * (f as int)) as u32);
    assert(delayer.outputs[0] == s.last_cluster[c]);
    assert(on_board(l, delayer));
    let tap = PegAddress { component_address: s.last_connector[c], is_input: true, port_index: 0 };
    assert(bound_to(l, s, tap, s.last_cluster[c]));
    lemma_bound_kept(l, s, t, tap, s.last_cluster[c]);
    let listened = listen_wire(l, s, f, c);
    assert(t.wires[w] == listened);
    assert(bound_to(l, s, listened.start, listened.cluster_id));
    lemma_bound_kept(l, s, t, listened.start, listened.cluster_id);
    assert(bound_to(l, t, listened.end, listened.cluster_id));
    if at_boundary(f) {
        let driving = drive_wire(s, c, s.last_connector[c] as int);
        assert(t.wires[w + 1] == driving);
        assert(bound_to(l, t, driving.start, driving.cluster_id));
        assert(driving.end == tap);
        assert(t.wires.len() == w + 2);
    } else {
        let x: int = (s.max_address + 2) as int;
        let hook = connector(l, s, f, c);
        assert(part(l, t, x) == hook);
        assert(hook.inputs[0] == s.last_cluster[c]);
        assert(on_board(l, hook));
        let driving = drive_wire(s, c, x);
        let backward = back_wire(s, c);
        assert(t.wires[w + 1] == driving);
        assert(t.wires[w + 2] == backward);
        assert(bound_to(l, t, driving.start, driving.cluster_id));
        assert(bound_to(l, t, driving.end, driving.cluster_id));
        assert(bound_to(l, t, backward.start, backward.cluster_id));
        assert(backward.end == tap);
        assert(t.wires.len() == w + 3);
    }
}

proof fn lemma_flip_column_threaded(l: Layout, s: Circuit, f: nat, c: int)
    requires
        sound(l, s),
        threaded(l, s),
        0 <= c < l.columns(),
        1 <= f <= l.frames,
        s.max_address + flip_cost(f) <= u32::MAX,
    ensures
        threaded(l, flip_column(l, s, f, c)),
{
    let t = flip_column(l, s, f, c);
    lemma_flip_column_sound(l, s, f, c);
    lemma_threaded_kept(l, s, t, c);
    lemma_flip_parts_bound(l, s, f, c);
    assert forall|e: int| 0 <= e < t.last_connector.len() implies l.base_address
        < #[trigger] t.last_connector[e] <= t.max_address && pin_cluster(
        part(l, t, t.last_connector[e] as int),
        true,
        0,
    ) == Some(t.last_cluster[e]) by {}
}

proof fn lemma_chunk_pass_threaded(l: Layout, s: Circuit, f: nat, n: nat)
    requires
        sound(l, s),
        threaded(l, s),
        n <= l.columns(),
        s.max_address + n <= u32::MAX,
        s.max_cluster + n <= u32::MAX,
    ensures
        threaded(l, chunk_pass(l, s, f, n)),
    decreases n,
{
    if n > 0 {
        lemma_chunk_pass_threaded(l, s, f, (n - 1) as nat);
        lemma_chunk_pass_sound(l, s, f, (n - 1) as nat);
        lemma_chunk_column_threaded(l, chunk_pass(l, s, f, (n - 1) as nat), f, n - 1);
    }
}

proof fn lemma_diff_pass_threaded(
    l: Layout,
    s: Circuit,
    before: Seq<bool>,
    now: Seq<bool>,
    f: nat,
    n: nat,
)
    requires
        sound(l, s),
        threaded(l, s),
        n <= l.columns(),
        1 <= f <= l.frames,
        s.max_address + flip_cost(f) * n <= u32::MAX,
    ensures
        threaded(l, diff_pass(l, s, before, now, f, n)),
    decreases n,
{
    if n > 0 {
        let each = flip_cost(f);
        assert(each * n == each * (n - 1) + each && 0 <= each * (n - 1)) by (nonlinear_arith)
            requires
                1 <= each <= 2,
                n >= 1,
        ;
        lemma_diff_pass_threaded(l, s, before, now, f, (n - 1) as nat);
        lemma_diff_pass_sound(l, s, before, now, f, (n - 1) as nat);
        if flips(l, before, now, n - 1) {
            lemma_flip_column_threaded(
                l,
                diff_pass(l, s, before, now, f, (n - 1) as nat),
                f,
                n - 1,
            );
        }
    }
}

/// In the circuit after any number of frames of a run that fits, every
/// wire joins two pins of components of the run that are bound to the
/// cluster the wire carries; each column's tap has its input on the
/// column's cluster; and every component but the boards is on the board of
/// a row.
pub proof fn lemma_wires_threaded(l: Layout, video: Seq<Seq<bool>>, n: nat)
    requires
        l.fits(),
        l.frames >= 1,
        n <= l.frames,
    ensures
        threaded(l, after_frames(l, video, n)),
    decreases n,
{
    if n == 0 {
        lemma_initial_threaded(l);
    } else {
        lemma_wires_threaded(l, video, (n - 1) as nat);
        lemma_run_sound(l, video, (n - 1) as nat);
        let s = after_frames(l, video, (n - 1) as nat);
        lemma_room_for_frame(l, video, n);
        let before = frame_at(l, video, (n - 1) as nat);
        let now = frame_at(l, video, n);
        lemma_frame_sound(l, s, before, now, n);
        if at_boundary(n) {
            lemma_chunk_pass_threaded(l, s, n, l.columns());
        }
        lemma_diff_pass_threaded(l, compensated(l, s, n), before, now, n, l.columns());
    }
}

} // verus!
