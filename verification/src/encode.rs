//! What encoding a video adds to a netlist, as mathematics: the circuit
//! before the first frame, and what each frame does to it.

use crate::layout::Layout;
use crate::parts::{peg, ComponentKind, ComponentView, Orientation, Payload, Position, Wire};
use vstd::prelude::*;

verus! {

/// A netlist under construction: what has been added so far, the highest
/// identifiers in use, and for each column the tap that the next change of
/// its pixel will hang on, with the cluster on that tap's input.
pub ghost struct Circuit {
    pub components: Seq<ComponentView>,
    pub wires: Seq<Wire>,
    pub max_address: nat,
    pub max_cluster: nat,
    pub last_connector: Seq<u32>,
    pub last_cluster: Seq<u32>,
}

/// The circuit before the first frame: a board for each row, its timing
/// chain, and a socket at the head of each column.
pub open spec fn initial(l: Layout) -> Circuit {
    Circuit {
        components: l.first_components(l.fixed_components()),
        wires: l.first_wires(l.fixed_wires()),
        max_address: l.base_address + l.fixed_components(),
        max_cluster: l.base_cluster + l.fixed_clusters(),
        last_connector: l.first_taps(l.columns()),
        last_cluster: l.first_clusters(l.columns()),
    }
}

/// Whether frame `f`, counted from 1, is a chunk boundary.
pub open spec fn at_boundary(f: nat) -> bool {
    f % 200 == 0
}

/// The delay element forced into column `c` at the boundary frame `f`: its
/// output joins the cluster of the column's tap, its input is a fresh one.
pub open spec fn forced_delayer(l: Layout, s: Circuit, f: nat, c: int) -> ComponentView {
    ComponentView {
        address: (s.max_address + 1) as u32,
        parent: Some(l.board_address(l.row_of(c)) as u32),
        kind: ComponentKind::DelayElement,
        position: Position {
            x: (900 * l.x_of(c) + 750) as i32,
            y: 150,
            z: (1200 * f - 450) as i32,
        },
        rotation: Orientation::Reversed,
        inputs: seq![(s.max_cluster + 1) as u32],
        outputs: seq![s.last_cluster[c]],
        extra: Payload::Delay { ticks: 1 },
    }
}

/// The wire from a forced delay element's output to the tap it precedes.
pub open spec fn forced_wire(s: Circuit, c: int) -> Wire {
    Wire {
        start: peg((s.max_address + 1) as int, false, 0),
        end: peg(s.last_connector[c] as int, true, 0),
        cluster_id: s.last_cluster[c],
        rotation: 0,
    }
}

/// Chunk compensation of column `c` at frame `f`: the forced delay element
/// becomes the column's tap, and its input cluster the column's cluster.
pub open spec fn chunk_column(l: Layout, s: Circuit, f: nat, c: int) -> Circuit {
    Circuit {
        components: s.components.push(forced_delayer(l, s, f, c)),
        wires: s.wires.push(forced_wire(s, c)),
        max_address: s.max_address + 1,
        max_cluster: s.max_cluster + 1,
        last_connector: s.last_connector.update(c, (s.max_address + 1) as u32),
        last_cluster: s.last_cluster.update(c, (s.max_cluster + 1) as u32),
    }
}

/// Chunk compensation of the first `n` columns at frame `f`.
pub open spec fn chunk_pass(l: Layout, s: Circuit, f: nat, n: nat) -> Circuit
    decreases n,
{
    if n == 0 {
        s
    } else {
        chunk_column(l, chunk_pass(l, s, f, (n - 1) as nat), f, n - 1)
    }
}

/// The delay element that marks a change of column `c` at frame `f`: it
/// listens at position `2 f` of the row's timing chain and drives the
/// column's cluster.
pub open spec fn pixel_delayer(l: Layout, s: Circuit, f: nat, c: int) -> ComponentView {
    ComponentView {
        address: (s.max_address + 1) as u32,
        parent: Some(l.board_address(l.row_of(c)) as u32),
        kind: ComponentKind::DelayElement,
        position: Position {
            x: (900 * l.x_of(c) - 450) as i32,
            y: 150,
            z: (1200 * f - 150) as i32,
        },
        rotation: Orientation::Reversed,
        inputs: seq![l.chain_cluster(l.row_of(c), (2 * f) as int) as u32],
        outputs: seq![s.last_cluster[c]],
        extra: Payload::Delay { ticks: 1 },
    }
}

/// The connector that becomes the tap of column `c` on a change at frame
/// `f` away from a chunk boundary.
pub open spec fn connector(l: Layout, s: Circuit, f: nat, c: int) -> ComponentView {
    ComponentView {
        address: (s.max_address + 2) as u32,
        parent: Some(l.board_address(l.row_of(c)) as u32),
        kind: ComponentKind::Connector,
        position: Position {
            x: (900 * l.x_of(c) + 750) as i32,
            y: 150,
            z: (1200 * f - 450) as i32,
        },
        rotation: Orientation::Upright,
        inputs: seq![s.last_cluster[c]],
        outputs: Seq::empty(),
        extra: Payload::Nothing,
    }
}

/// The wire that lets a pixel's delay element listen to the timing chain:
/// from the input of the chain step at position `2 f` to its own input.
pub open spec fn listen_wire(l: Layout, s: Circuit, f: nat, c: int) -> Wire {
    Wire {
        start: peg(l.chain_address(l.row_of(c), (2 * f) as int), true, 0),
        end: peg((s.max_address + 1) as int, true, 0),
        cluster_id: l.chain_cluster(l.row_of(c), (2 * f) as int) as u32,
        rotation: 0,
    }
}

/// The wire from a pixel's delay element to the tap at `tap`.
pub open spec fn drive_wire(s: Circuit, c: int, tap: int) -> Wire {
    Wire {
        start: peg((s.max_address + 1) as int, false, 0),
        end: peg(tap, true, 0),
        cluster_id: s.last_cluster[c],
        rotation: 0,
    }
}

/// The wire from a new connector back to the column's previous tap.
pub open spec fn back_wire(s: Circuit, c: int) -> Wire {
    Wire {
        start: peg((s.max_address + 2) as int, true, 0),
        end: peg(s.last_connector[c] as int, true, 0),
        cluster_id: s.last_cluster[c],
        rotation: 0,
    }
}

/// A change of column `c` at frame `f`. At a chunk boundary the forced
/// delay element is the tap; elsewhere a new connector takes over.
pub open spec fn flip_column(l: Layout, s: Circuit, f: nat, c: int) -> Circuit {
    if at_boundary(f) {
        Circuit {
            components: s.components.push(pixel_delayer(l, s, f, c)),
            wires: s.wires.push(listen_wire(l, s, f, c)).push(
                drive_wire(s, c, s.last_connector[c] as int),
            ),
            max_address: s.max_address + 1,
            ..s
        }
    } else {
        Circuit {
            components: s.components.push(pixel_delayer(l, s, f, c)).push(connector(l, s, f, c)),
            wires: s.wires.push(listen_wire(l, s, f, c)).push(
                drive_wire(s, c, (s.max_address + 2) as int),
            ).push(back_wire(s, c)),
            max_address: s.max_address + 2,
            last_connector: s.last_connector.update(c, (s.max_address + 2) as u32),
            ..s
        }
    }
}

/// Where the pixel of column `c` stands in a frame's pixels: rows of the
/// image run from the top, rows of boards from the bottom.
pub open spec fn source_index(l: Layout, c: int) -> int {
    (l.height - 1 - l.row_of(c)) * l.width + l.x_of(c)
}

/// Whether the pixel of column `c` differs between two frames.
pub open spec fn flips(l: Layout, before: Seq<bool>, now: Seq<bool>, c: int) -> bool {
    before[source_index(l, c)] != now[source_index(l, c)]
}

/// The changes of the first `n` columns from frame `before` to frame `now`,
/// the `f`-th frame.
pub open spec fn diff_pass(
    l: Layout,
    s: Circuit,
    before: Seq<bool>,
    now: Seq<bool>,
    f: nat,
    n: nat,
) -> Circuit
    decreases n,
{
    if n == 0 {
        s
    } else {
        let done = diff_pass(l, s, before, now, f, (n - 1) as nat);
        if flips(l, before, now, n - 1) {
            flip_column(l, done, f, n - 1)
        } else {
            done
        }
    }
}

/// The circuit after chunk compensation at frame `f`, if it is due.
pub open spec fn compensated(l: Layout, s: Circuit, f: nat) -> Circuit {
    if at_boundary(f) {
        chunk_pass(l, s, f, l.columns())
    } else {
        s
    }
}

/// Frame `f`, counted from 1: chunk compensation of every column if `f` is
/// a boundary, then the changes from the frame before.
pub open spec fn encode_frame(l: Layout, s: Circuit, before: Seq<bool>, now: Seq<bool>, f: nat) -> Circuit {
    diff_pass(l, compensated(l, s, f), before, now, f, l.columns())
}

/// The frame before the first: every pixel off.
pub open spec fn dark(l: Layout) -> Seq<bool> {
    Seq::new(l.columns(), |i: int| false)
}

/// Frame `f` of a video, counted from 1; frame 0 is dark.
pub open spec fn frame_at(l: Layout, video: Seq<Seq<bool>>, f: nat) -> Seq<bool> {
    if f == 0 {
        dark(l)
    } else {
        video[f - 1]
    }
}

/// The circuit after the first `n` frames of a video.
pub open spec fn after_frames(l: Layout, video: Seq<Seq<bool>>, n: nat) -> Circuit
    decreases n,
{
    if n == 0 {
        initial(l)
    } else {
        encode_frame(
            l,
            after_frames(l, video, (n - 1) as nat),
            frame_at(l, video, (n - 1) as nat),
            frame_at(l, video, n),
            n,
        )
    }
}

/// The circuit after `n` frames rests on the first `n` frames alone: two
/// videos that agree on them give the same circuit.
pub proof fn lemma_after_frames_of_prefix(
    l: Layout,
    video: Seq<Seq<bool>>,
    other: Seq<Seq<bool>>,
    n: nat,
)
    requires
        n <= video.len(),
        n <= other.len(),
        forall|i: int| 0 <= i < n ==> video[i] == other[i],
    ensures
        after_frames(l, video, n) == after_frames(l, other, n),
    decreases n,
{
    if n > 0 {
        lemma_after_frames_of_prefix(l, video, other, (n - 1) as nat);
    }
}

} // verus!
