//! Where everything goes: the addresses, clusters and positions of the
//! boards, the timing chains and the column sockets, as functions of the
//! image size and the number of frames.
//!
//! Positions are fixed-point numbers in which a grid square is 300 wide.
//! Rows of boards lie 900 apart, columns on a board 900 apart, and the
//! steps of a timing chain 600 apart. A step takes 10 ticks, but every
//! 400th takes 9: it gives back the tick that the delay elements forced
//! into the columns every 200 frames cost.

use crate::parts::{peg, ComponentKind, ComponentView, Orientation, Payload, Position, Wire};
use vstd::prelude::*;

verus! {

/// The size of the job: image size, frame count, and the highest address
/// and cluster id that the target netlist already holds.
pub ghost struct Layout {
    pub width: nat,
    pub height: nat,
    pub frames: nat,
    pub base_address: nat,
    pub base_cluster: nat,
}

impl Layout {
    /// Steps in a timing chain: a rise and a fall for each frame, and one more.
    pub open spec fn depth(self) -> nat {
        2 * self.frames + 1
    }

    /// Columns over all rows: one for each pixel of the image.
    pub open spec fn columns(self) -> nat {
        self.width * self.height
    }

    /// The row that column `c` belongs to.
    pub open spec fn row_of(self, c: int) -> int {
        c / (self.width as int)
    }

    /// The place of column `c` within its row.
    pub open spec fn x_of(self, c: int) -> int {
        c % (self.width as int)
    }

    /// Addresses set aside for a run: what the boards, chains and sockets
    /// take, and two for each pixel of each frame, which is what a video takes
    /// in which every pixel changes in every frame.
    pub open spec fn address_budget(self) -> nat {
        self.height * (self.depth() + 1) + self.columns() * (1 + 2 * self.frames)
    }

    /// Clusters that a run takes: one more than it has steps for each chain,
    /// one for each socket, and one for each column at each chunk boundary.
    pub open spec fn cluster_need(self) -> nat {
        self.height * (self.depth() + 1) + self.columns() * (1 + self.frames / 200)
    }

    /// The boards fit the coordinate type, in their width of `1 + 3 W`
    /// squares, in their depth of two squares for each step of the chain,
    /// and stacked 900 apart; and the addresses set aside and the clusters
    /// needed fit the identifier type.
    pub open spec fn fits(self) -> bool {
        &&& 300 * (1 + 3 * self.width) <= i32::MAX
        &&& 900 * self.height <= i32::MAX
        &&& 600 * self.depth() <= i32::MAX
        &&& self.base_address + self.address_budget() <= u32::MAX
        &&& self.base_cluster + self.cluster_need() <= u32::MAX
    }

    /// Components made before the first frame: boards, chains and sockets.
    pub open spec fn fixed_components(self) -> nat {
        self.height + self.height * self.depth() + self.columns()
    }

    /// Wires made before the first frame: the links of the timing chains.
    pub open spec fn fixed_wires(self) -> nat {
        self.height * (2 * self.frames)
    }

    /// Clusters made before the first frame.
    pub open spec fn fixed_clusters(self) -> nat {
        self.height * (self.depth() + 1) + self.columns()
    }

    /// Address of the board of row `y`.
    pub open spec fn board_address(self, y: int) -> int {
        self.base_address + 1 + y
    }

    /// Address of step `k` (from 0) of the timing chain of row `y`.
    pub open spec fn chain_address(self, y: int, k: int) -> int {
        self.base_address + 1 + self.height + y * self.depth() + k
    }

    /// Address of the socket at the head of column `c`.
    pub open spec fn socket_address(self, c: int) -> int {
        self.base_address + 1 + self.height + self.height * self.depth() + c
    }

    /// The cluster at position `k` of the timing chain of row `y`: the input
    /// of step `k`, and the output of step `k - 1`.
    pub open spec fn chain_cluster(self, y: int, k: int) -> int {
        self.base_cluster + 1 + y * (self.depth() + 1) + k
    }

    /// The cluster that the socket of column `c` starts on.
    pub open spec fn socket_cluster(self, c: int) -> int {
        self.base_cluster + 1 + self.height * (self.depth() + 1) + c
    }

    /// Ticks of the chain step at position `k` counted from 1: one less than
    /// the usual ten at every 400th.
    pub open spec fn step_ticks(position: int) -> u32 {
        if position % 400 == 0 {
            9
        } else {
            10
        }
    }

    /// The board of row `y`.
    pub open spec fn board(self, y: int) -> ComponentView {
        ComponentView {
            address: self.board_address(y) as u32,
            parent: None,
            kind: ComponentKind::Board,
            position: Position { x: 0, y: (900 * y) as i32, z: 0 },
            rotation: Orientation::Upright,
            inputs: Seq::empty(),
            outputs: Seq::empty(),
            extra: Payload::Board {
                width: (1 + 3 * self.width) as u32,
                depth: (2 * self.depth()) as u32,
                red: 51,
                green: 51,
                blue: 51,
            },
        }
    }

    /// Step `k` (from 0) of the timing chain of row `y`.
    pub open spec fn chain_step(self, y: int, k: int) -> ComponentView {
        ComponentView {
            address: self.chain_address(y, k) as u32,
            parent: Some(self.board_address(y) as u32),
            kind: ComponentKind::DelayElement,
            position: Position { x: 150, y: 150, z: (600 * k + 150) as i32 },
            rotation: Orientation::Upright,
            inputs: seq![self.chain_cluster(y, k) as u32],
            outputs: seq![self.chain_cluster(y, k + 1) as u32],
            extra: Payload::Delay { ticks: Self::step_ticks(k + 1) },
        }
    }

    /// The socket at the head of column `c`.
    pub open spec fn socket(self, c: int) -> ComponentView {
        ComponentView {
            address: self.socket_address(c) as u32,
            parent: Some(self.board_address(self.row_of(c)) as u32),
            kind: ComponentKind::SocketConnector,
            position: Position { x: (900 * self.x_of(c) + 750) as i32, y: 150, z: 150 },
            rotation: Orientation::Reversed,
            inputs: seq![self.socket_cluster(c) as u32],
            outputs: Seq::empty(),
            extra: Payload::Nothing,
        }
    }

    /// The link of the timing chain of row `y` from step `k - 1` to step `k`.
    pub open spec fn chain_link(self, y: int, k: int) -> Wire {
        Wire {
            start: peg(self.chain_address(y, k - 1), false, 0),
            end: peg(self.chain_address(y, k), true, 0),
            cluster_id: self.chain_cluster(y, k) as u32,
            rotation: 0,
        }
    }

    /// The `i`-th component made before the first frame: the boards by row,
    /// then the chains row by row, then the sockets column by column.
    pub open spec fn fixed_component(self, i: int) -> ComponentView {
        if i < self.height {
            self.board(i)
        } else if i < self.height + self.height * self.depth() {
            self.chain_step(
                (i - self.height) / (self.depth() as int),
                (i - self.height) % (self.depth() as int),
            )
        } else {
            self.socket(i - self.height - self.height * self.depth())
        }
    }

    /// The `j`-th wire made before the first frame.
    pub open spec fn fixed_wire(self, j: int) -> Wire {
        self.chain_link(j / (2 * self.frames as int), j % (2 * self.frames as int) + 1)
    }

    /// The first `n` components made before the first frame.
    pub open spec fn first_components(self, n: nat) -> Seq<ComponentView> {
        Seq::new(n, |i: int| self.fixed_component(i))
    }

    /// The first `n` wires made before the first frame.
    pub open spec fn first_wires(self, n: nat) -> Seq<Wire> {
        Seq::new(n, |j: int| self.fixed_wire(j))
    }

    /// The taps of the first `n` columns before the first frame: their sockets.
    pub open spec fn first_taps(self, n: nat) -> Seq<u32> {
        Seq::new(n, |c: int| self.socket_address(c) as u32)
    }

    /// The clusters of the first `n` columns before the first frame.
    pub open spec fn first_clusters(self, n: nat) -> Seq<u32> {
        Seq::new(n, |c: int| self.socket_cluster(c) as u32)
    }
}

/// In a layout that fits, the rows, the chain steps and the columns each
/// number no more than the identifiers set aside, and what is made before
/// the first frame leaves just the room that the frames may take.
pub proof fn lemma_room_for_boards(l: Layout)
    requires
        l.fits(),
    ensures
        l.height <= l.address_budget(),
        l.columns() <= l.address_budget(),
        l.fixed_components() + 2 * l.columns() * l.frames == l.address_budget(),
        l.fixed_clusters() + l.columns() * (l.frames / 200) == l.cluster_need(),
        l.fixed_clusters() <= l.cluster_need(),
        0 <= 2 * l.columns() * l.frames,
        0 <= l.columns() * (l.frames / 200),
        l.height * l.depth() + l.height <= l.address_budget(),
        l.height * l.depth() + l.height <= l.cluster_need(),
        l.height * (l.depth() + 1) == l.height * l.depth() + l.height,
{
    let h = l.height as int;
    let d = l.depth() as int;
    let n = l.columns() as int;
    let f = l.frames as int;
    let g = (l.frames / 200) as int;
    assert(h * (d + 1) == h * d + h && 0 <= h * d) by (nonlinear_arith)
        requires
            0 <= h,
            0 <= d,
    ;
    assert(n * (1 + 2 * f) == n + 2 * n * f && 0 <= 2 * n * f) by (nonlinear_arith)
        requires
            0 <= n,
            0 <= f,
    ;
    assert(n * (1 + g) == n + n * g && 0 <= n * g) by (nonlinear_arith)
        requires
            0 <= n,
            0 <= g,
    ;
}

} // verus!
