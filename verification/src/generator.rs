//! Builds the netlist: the boards, timing chains and sockets first, then
//! frame by frame the chunk compensation and the changes of each pixel.

use crate::encode::{
    after_frames, lemma_after_frames_of_prefix, at_boundary, chunk_column, chunk_pass, compensated, connector, dark, diff_pass,
    encode_frame, flip_column, flips, forced_delayer, frame_at, initial, pixel_delayer,
    source_index, Circuit,
};
use crate::frame::Frame;
use crate::ids::Allocator;
use crate::job::{GenerateError, Netlist, NetlistView, Seed};
use crate::layout::{lemma_room_for_boards, Layout};
use crate::numbers::{
    lemma_cell_in_grid, lemma_inside_grid, lemma_row_major, lemma_split_index,
};
use crate::parts::{
    component_views, Component, ComponentKind, Orientation, Payload, PegAddress, Position, Wire,
};
use vstd::prelude::*;

verus! {

/// The most columns in a row, and the most rows, whose boards fit the
/// coordinate type.
pub const MAX_SIDE: usize = 2_386_092;

/// The most frames whose timing chain fits the coordinate type.
pub const MAX_FRAMES: usize = 1_789_569;

/// The size of the job in machine numbers.
#[derive(Clone, Copy, Debug)]
struct Dims {
    width: u32,
    height: u32,
    frames: u32,
    base_address: u32,
    base_cluster: u32,
}

impl Dims {
    /// The size of the job as mathematics.
    spec fn layout(&self) -> Layout {
        Layout {
            width: self.width as nat,
            height: self.height as nat,
            frames: self.frames as nat,
            base_address: self.base_address as nat,
            base_cluster: self.base_cluster as nat,
        }
    }
}

/// The builder of one run. It holds what has been added to the netlist so
/// far, the allocator, the tap and cluster of each column, and the frame
/// that came last.
pub struct Generator {
    dims: Dims,
    alloc: Allocator,
    components: Vec<Component>,
    wires: Vec<Wire>,
    last_connector: Vec<u32>,
    last_cluster: Vec<u32>,
    previous: Vec<bool>,
    done: u32,
    seen: Ghost<Seq<Seq<bool>>>,
}

impl Generator {
    /// The size of the job this builder was made for.
    pub closed spec fn layout(&self) -> Layout {
        self.dims.layout()
    }

    /// The circuit built so far.
    pub closed spec fn circuit(&self) -> Circuit {
        Circuit {
            components: component_views(self.components@),
            wires: self.wires@,
            max_address: self.alloc.max_address(),
            max_cluster: self.alloc.max_cluster(),
            last_connector: self.last_connector@,
            last_cluster: self.last_cluster@,
        }
    }

    /// The pixels of the frame that came last; before the first, all off.
    pub closed spec fn previous(&self) -> Seq<bool> {
        self.previous@
    }

    /// How many frames have been encoded.
    pub closed spec fn frames_done(&self) -> nat {
        self.done as nat
    }

    /// The pixels of the frames that have been encoded, in their order.
    pub closed spec fn seen(&self) -> Seq<Seq<bool>> {
        self.seen@
    }

    /// The tables hold one entry for each column and the layout fits.
    spec fn sized(&self) -> bool {
        let l = self.layout();
        &&& l.fits()
        &&& l.frames >= 1
        &&& self.last_connector@.len() == l.columns()
        &&& self.last_cluster@.len() == l.columns()
        &&& self.previous@.len() == l.columns()
    }

    /// The builder is sound: its tables are sized, the identifiers left are
    /// enough for the frames still to come, and its circuit is the one that
    /// the frames it has seen lead to.
    pub closed spec fn wf(&self) -> bool {
        let l = self.layout();
        &&& self.sized()
        &&& self.done <= self.dims.frames
        &&& self.alloc.max_address() + 2 * l.columns() * (l.frames - self.done) <= u32::MAX
        &&& self.alloc.max_cluster() + l.columns() * (l.frames / 200 - self.done / 200)
            <= u32::MAX
        &&& self.seen@.len() == self.done
        &&& self.circuit() == after_frames(l, self.seen@, self.done as nat)
        &&& self.previous@ == frame_at(l, self.seen@, self.done as nat)
    }

    /// A sound builder holds the circuit after the frames it has seen, of a
    /// run that fits: what holds of every such circuit holds of its own.
    pub proof fn lemma_reached(&self)
        requires
            self.wf(),
        ensures
            self.layout().fits(),
            self.layout().frames >= 1,
            self.frames_done() <= self.layout().frames,
            self.seen().len() == self.frames_done(),
            self.circuit() == after_frames(self.layout(), self.seen(), self.frames_done()),
            self.previous() == frame_at(self.layout(), self.seen(), self.frames_done()),
    {
    }

    /// Chunk compensation of column `c` at frame `f`.
    fn force_column(&mut self, f: u32, c: u32)
        requires
            old(self).sized(),
            1 <= f <= old(self).layout().frames,
            c < old(self).layout().columns(),
            old(self).circuit().max_address < u32::MAX,
            old(self).circuit().max_cluster < u32::MAX,
        ensures
            final(self).circuit() == chunk_column(
                old(self).layout(),
                old(self).circuit(),
                f as nat,
                c as int,
            ),
            final(self).layout() == old(self).layout(),
            final(self).previous() == old(self).previous(),
            final(self).frames_done() == old(self).frames_done(),
            final(self).sized(),
    {
        let ghost l = self.layout();
        let ghost s = self.circuit();
        proof {
            lemma_split_index(c as int, l.width as int, l.height as int);
            lemma_room_for_boards(l);
        }
        let y = c / self.dims.width;
        let x = c % self.dims.width;
        let tap = self.last_connector[c as usize];
        let cluster = self.last_cluster[c as usize];
        let address = self.alloc.next_address();
        let fresh = self.alloc.next_cluster();
        let component = Component {
            address,
            parent: Some(self.dims.base_address + 1 + y),
            kind: ComponentKind::DelayElement,
            position: Position { x: (x as i32) * 900 + 750, y: 150, z: (f as i32) * 1200 - 450 },
            rotation: Orientation::Reversed,
            inputs: vec![fresh],
            outputs: vec![cluster],
            extra: Payload::Delay { ticks: 1 },
        };
        proof {
            assert(component.inputs@ =~= seq![fresh]);
            assert(component.outputs@ =~= seq![cluster]);
            assert(component@ == forced_delayer(l, s, f as nat, c as int));
            assert(component_views(self.components@.push(component)) =~= component_views(
                self.components@,
            ).push(component@));
        }
        self.components.push(component);
        self.wires.push(
            Wire {
                start: PegAddress { component_address: address, is_input: false, port_index: 0 },
                end: PegAddress { component_address: tap, is_input: true, port_index: 0 },
                cluster_id: cluster,
                rotation: 0,
            },
        );
        self.last_connector.set(c as usize, address);
        self.last_cluster.set(c as usize, fresh);
    }

    /// A change of the pixel of column `c` at frame `f`.
    fn flip(&mut self, f: u32, c: u32)
        requires
            old(self).sized(),
            1 <= f <= old(self).layout().frames,
            c < old(self).layout().columns(),
            old(self).circuit().max_address + (if at_boundary(f as nat) {
                1int
            } else {
                2int
            }) <= u32::MAX,
        ensures
            final(self).circuit() == flip_column(
                old(self).layout(),
                old(self).circuit(),
                f as nat,
                c as int,
            ),
            final(self).layout() == old(self).layout(),
            final(self).previous() == old(self).previous(),
            final(self).frames_done() == old(self).frames_done(),
            final(self).sized(),
    {
        let ghost l = self.layout();
        let ghost s = self.circuit();
        proof {
            lemma_split_index(c as int, l.width as int, l.height as int);
            lemma_room_for_boards(l);
            lemma_inside_grid(
                (c as int) / (l.width as int),
                2 * (f as int),
                l.depth() as int,
                l.height as int,
            );
            lemma_inside_grid(
                (c as int) / (l.width as int),
                2 * (f as int),
                (l.depth() + 1) as int,
                l.height as int,
            );
        }
        let y = c / self.dims.width;
        let x = c % self.dims.width;
        let depth = 2 * self.dims.frames + 1;
        let tap = self.last_connector[c as usize];
        let cluster = self.last_cluster[c as usize];
        let heard = self.dims.base_cluster + 1 + y * (depth + 1) + 2 * f;
        let step = self.dims.base_address + 1 + self.dims.height + y * depth + 2 * f;
        let board = self.dims.base_address + 1 + y;
        let delayer = self.alloc.next_address();
        let component = Component {
            address: delayer,
            parent: Some(board),
            kind: ComponentKind::DelayElement,
            position: Position { x: (x as i32) * 900 - 450, y: 150, z: (f as i32) * 1200 - 150 },
            rotation: Orientation::Reversed,
            inputs: vec![heard],
            outputs: vec![cluster],
            extra: Payload::Delay { ticks: 1 },
        };
        proof {
            assert(component.inputs@ =~= seq![heard]);
            assert(component.outputs@ =~= seq![cluster]);
            assert(component@ == pixel_delayer(l, s, f as nat, c as int));
            assert(component_views(self.components@.push(component)) =~= component_views(
                self.components@,
            ).push(component@));
        }
        self.components.push(component);
        self.wires.push(
            Wire {
                start: PegAddress { component_address: step, is_input: true, port_index: 0 },
                end: PegAddress { component_address: delayer, is_input: true, port_index: 0 },
                cluster_id: heard,
                rotation: 0,
            },
        );
        if f % 200 == 0 {
            self.wires.push(
                Wire {
                    start: PegAddress {
                        component_address: delayer,
                        is_input: false,
                        port_index: 0,
                    },
                    end: PegAddress { component_address: tap, is_input: true, port_index: 0 },
                    cluster_id: cluster,
                    rotation: 0,
                },
            );
        } else {
            let peg_address = self.alloc.next_address();
            let hook = Component {
                address: peg_address,
                parent: Some(board),
                kind: ComponentKind::Connector,
                position: Position {
                    x: (x as i32) * 900 + 750,
                    y: 150,
                    z: (f as i32) * 1200 - 450,
                },
                rotation: Orientation::Upright,
                inputs: vec![cluster],
                outputs: Vec::new(),
                extra: Payload::Nothing,
            };
            proof {
                assert(hook.inputs@ =~= seq![cluster]);
                assert(hook.outputs@ =~= Seq::<u32>::empty());
                assert(hook@ == connector(l, s, f as nat, c as int));
                assert(component_views(self.components@.push(hook)) =~= component_views(
                    self.components@,
                ).push(hook@));
            }
            self.components.push(hook);
            self.wires.push(
                Wire {
                    start: PegAddress {
                        component_address: delayer,
                        is_input: false,
                        port_index: 0,
                    },
                    end: PegAddress {
                        component_address: peg_address,
                        is_input: true,
                        port_index: 0,
                    },
                    cluster_id: cluster,
                    rotation: 0,
                },
            );
            self.wires.push(
                Wire {
                    start: PegAddress {
                        component_address: peg_address,
                        is_input: true,
                        port_index: 0,
                    },
                    end: PegAddress { component_address: tap, is_input: true, port_index: 0 },
                    cluster_id: cluster,
                    rotation: 0,
                },
            );
            self.last_connector.set(c as usize, peg_address);
        }
    }
}

impl Generator {
    /// Chunk compensation of every column at frame `f`.
    fn force_all(&mut self, f: u32)
        requires
            old(self).sized(),
            1 <= f <= old(self).layout().frames,
            old(self).circuit().max_address + old(self).layout().columns() <= u32::MAX,
            old(self).circuit().max_cluster + old(self).layout().columns() <= u32::MAX,
        ensures
            final(self).circuit() == chunk_pass(
                old(self).layout(),
                old(self).circuit(),
                f as nat,
                old(self).layout().columns(),
            ),
            final(self).circuit().max_address == old(self).circuit().max_address + old(
                self,
            ).layout().columns(),
            final(self).circuit().max_cluster == old(self).circuit().max_cluster + old(
                self,
            ).layout().columns(),
            final(self).layout() == old(self).layout(),
            final(self).previous() == old(self).previous(),
            final(self).frames_done() == old(self).frames_done(),
            final(self).sized(),
    {
        let ghost l = self.layout();
        let ghost s = self.circuit();
        proof {
            lemma_room_for_boards(l);
        }
        let columns = self.dims.width * self.dims.height;
        let mut c: u32 = 0;
        while c < columns
            invariant
                c <= columns,
                columns == l.columns(),
                1 <= f <= l.frames,
                self.sized(),
                self.layout() == l,
                self.previous() == old(self).previous(),
                self.frames_done() == old(self).frames_done(),
                s == old(self).circuit(),
                self.circuit() == chunk_pass(l, s, f as nat, c as nat),
                self.circuit().max_address == s.max_address + c,
                self.circuit().max_cluster == s.max_cluster + c,
                s.max_address + columns <= u32::MAX,
                s.max_cluster + columns <= u32::MAX,
            decreases columns - c,
        {
            self.force_column(f, c);
            c = c + 1;
        }
    }

    /// The changes of every column from the frame that came last to the
    /// frame with the pixels `now`, the `f`-th.
    fn diff(&mut self, now: &Vec<bool>, f: u32)
        requires
            old(self).sized(),
            1 <= f <= old(self).layout().frames,
            now@.len() == old(self).layout().columns(),
            old(self).circuit().max_address + (if at_boundary(f as nat) {
                1int
            } else {
                2int
            }) * old(self).layout().columns() <= u32::MAX,
        ensures
            final(self).circuit() == diff_pass(
                old(self).layout(),
                old(self).circuit(),
                old(self).previous(),
                now@,
                f as nat,
                old(self).layout().columns(),
            ),
            final(self).circuit().max_address <= old(self).circuit().max_address + (if at_boundary(
                f as nat,
            ) {
                1int
            } else {
                2int
            }) * old(self).layout().columns(),
            final(self).circuit().max_cluster == old(self).circuit().max_cluster,
            final(self).layout() == old(self).layout(),
            final(self).previous() == old(self).previous(),
            final(self).frames_done() == old(self).frames_done(),
            final(self).sized(),
    {
        let ghost l = self.layout();
        let ghost s = self.circuit();
        let ghost before = self.previous();
        let ghost each: int = if at_boundary(f as nat) {
            1
        } else {
            2
        };
        proof {
            lemma_room_for_boards(l);
        }
        let columns = self.dims.width * self.dims.height;
        let mut c: u32 = 0;
        while c < columns
            invariant
                c <= columns,
                columns == l.columns(),
                1 <= f <= l.frames,
                now@.len() == l.columns(),
                self.sized(),
                self.layout() == l,
                self.previous() == before,
                before == old(self).previous(),
                self.frames_done() == old(self).frames_done(),
                s == old(self).circuit(),
                each == (if at_boundary(f as nat) {
                    1int
                } else {
                    2int
                }),
                self.circuit() == diff_pass(l, s, before, now@, f as nat, c as nat),
                self.circuit().max_address <= s.max_address + each * c,
                self.circuit().max_cluster == s.max_cluster,
                s.max_address + each * columns <= u32::MAX,
            decreases columns - c,
        {
            proof {
                lemma_split_index(c as int, l.width as int, l.height as int);
                lemma_cell_in_grid(
                    (c as int) % (l.width as int),
                    l.height - 1 - (c as int) / (l.width as int),
                    l.width as int,
                    l.height as int,
                );
            }
            let y = c / self.dims.width;
            let x = c % self.dims.width;
            let source = ((self.dims.height - 1 - y) * self.dims.width + x) as usize;
            assert(source == source_index(l, c as int));
            assert(each * (c + 1) == each * c + each && each * (c + 1) <= each * columns)
                by (nonlinear_arith)
                requires
                    1 <= each <= 2,
                    0 <= c < columns,
            ;
            if self.previous[source] != now[source] {
                assert(flips(l, before, now@, c as int));
                self.flip(f, c);
            }
            c = c + 1;
        }
    }
}

/// The layout of a run from its seed, the image size and the frame count.
pub open spec fn job_layout(seed: Seed, width: nat, height: nat, frames: nat) -> Layout {
    Layout {
        width,
        height,
        frames,
        base_address: seed.max_address as nat,
        base_cluster: seed.max_cluster as nat,
    }
}

/// Why a run cannot start, if it cannot: the video is empty, or else the
/// catalog lacks a kind, or else the layout does not fit.
pub open spec fn start_error(seed: Seed, width: nat, height: nat, frames: nat) -> Option<
    GenerateError,
> {
    if frames == 0 {
        Some(GenerateError::NoFrames)
    } else if seed.catalog.spec_missing().is_some() {
        Some(GenerateError::MissingType(seed.catalog.spec_missing().unwrap()))
    } else if !job_layout(seed, width, height, frames).fits() {
        Some(GenerateError::NumericRange)
    } else {
        None
    }
}

/// What a circuit hands over at the end of the run.
pub open spec fn output(s: Circuit) -> NetlistView {
    NetlistView {
        components: s.components,
        wires: s.wires,
        max_address: s.max_address,
        max_cluster: s.max_cluster,
    }
}

impl Generator {
    /// Starts a run: checks that it can be done, then makes the boards, the
    /// timing chains and the sockets.
    pub fn new(seed: &Seed, width: usize, height: usize, frame_count: usize) -> (made: Result<
        Generator,
        GenerateError,
    >)
        ensures
            match made {
                Ok(g) => {
                    &&& start_error(*seed, width as nat, height as nat, frame_count as nat)
                        is None
                    &&& g.wf()
                    &&& g.layout() == job_layout(
                        *seed,
                        width as nat,
                        height as nat,
                        frame_count as nat,
                    )
                    &&& g.circuit() == initial(g.layout())
                    &&& g.previous() == dark(g.layout())
                    &&& g.frames_done() == 0
                    &&& g.seen() == Seq::<Seq<bool>>::empty()
                },
                Err(e) => start_error(*seed, width as nat, height as nat, frame_count as nat)
                    == Some(e),
            },
    {
        if frame_count == 0 {
            return Err(GenerateError::NoFrames);
        }
        if let Some(kind) = seed.catalog.missing() {
            return Err(GenerateError::MissingType(kind));
        }
        if width > MAX_SIDE || height > MAX_SIDE || frame_count > MAX_FRAMES {
            return Err(GenerateError::NumericRange);
        }
        let ghost l = job_layout(*seed, width as nat, height as nat, frame_count as nat);
        let w = width as u128;
        let h = height as u128;
        let f = frame_count as u128;
        proof {
            assert(h * (2 * f + 2) <= 2_386_092 * 3_579_140) by (nonlinear_arith)
                requires
                    h <= 2_386_092,
                    2 * f + 2 <= 3_579_140,
            ;
            assert(w * h <= 2_386_092 * 2_386_092) by (nonlinear_arith)
                requires
                    w <= 2_386_092,
                    h <= 2_386_092,
            ;
            assert((w * h) * (1 + 2 * f) <= 2_386_092 * 2_386_092 * 3_579_139)
                by (nonlinear_arith)
                requires
                    w * h <= 2_386_092 * 2_386_092,
                    1 + 2 * f <= 3_579_139,
            ;
            assert((w * h) * (1 + f / 200) <= 2_386_092 * 2_386_092 * 3_579_139)
                by (nonlinear_arith)
                requires
                    w * h <= 2_386_092 * 2_386_092,
                    1 + f / 200 <= 3_579_139,
            ;
        }
        let addresses: u128 = h * (2 * f + 2) + (w * h) * (1 + 2 * f);
        let clusters: u128 = h * (2 * f + 2) + (w * h) * (1 + f / 200);
        assert(addresses == l.address_budget());
        assert(clusters == l.cluster_need());
        if seed.max_address as u128 + addresses > 4_294_967_295 || seed.max_cluster as u128
            + clusters > 4_294_967_295 {
            return Err(GenerateError::NumericRange);
        }
        assert(l.fits());
        let dims = Dims {
            width: width as u32,
            height: height as u32,
            frames: frame_count as u32,
            base_address: seed.max_address,
            base_cluster: seed.max_cluster,
        };
        assert(dims.layout() == l);
        proof {
            lemma_room_for_boards(l);
        }
        let mut alloc = Allocator::seeded(seed.max_address, seed.max_cluster);
        let mut components: Vec<Component> = Vec::new();
        let mut wires: Vec<Wire> = Vec::new();
        let mut last_connector: Vec<u32> = Vec::new();
        let mut last_cluster: Vec<u32> = Vec::new();
        place_boards(&dims, &mut alloc, &mut components);
        place_chains(&dims, &mut alloc, &mut components, &mut wires);
        place_sockets(&dims, &mut alloc, &mut components, &mut last_connector, &mut last_cluster);
        let columns = dims.width * dims.height;
        let mut previous: Vec<bool> = Vec::new();
        let mut c: u32 = 0;
        while c < columns
            invariant
                c <= columns,
                previous@ =~= Seq::new(c as nat, |i: int| false),
            decreases columns - c,
        {
            previous.push(false);
            c = c + 1;
        }
        Ok(
            Generator {
                dims,
                alloc,
                components,
                wires,
                last_connector,
                last_cluster,
                previous,
                done: 0,
                seen: Ghost(Seq::empty()),
            },
        )
    }

    /// Encodes the next frame: chunk compensation if the frame is a chunk
    /// boundary, then the changes from the frame before. Refuses a frame
    /// after the last that was announced, and one of another size, and then
    /// leaves the builder as it was.
    pub fn push_frame(&mut self, frame: &Frame) -> (pushed: Result<(), GenerateError>)
        requires
            old(self).wf(),
            frame.wf(),
        ensures
            final(self).wf(),
            final(self).layout() == old(self).layout(),
            match pushed {
                Ok(()) => {
                    &&& old(self).frames_done() < old(self).layout().frames
                    &&& frame@.width == old(self).layout().width
                    &&& frame@.height == old(self).layout().height
                    &&& final(self).circuit() == encode_frame(
                        old(self).layout(),
                        old(self).circuit(),
                        old(self).previous(),
                        frame@.pixels,
                        old(self).frames_done() + 1,
                    )
                    &&& final(self).previous() == frame@.pixels
                    &&& final(self).frames_done() == old(self).frames_done() + 1
                    &&& final(self).seen() == old(self).seen().push(frame@.pixels)
                },
                Err(e) => {
                    &&& final(self).circuit() == old(self).circuit()
                    &&& final(self).previous() == old(self).previous()
                    &&& final(self).frames_done() == old(self).frames_done()
                    &&& final(self).seen() == old(self).seen()
                    &&& e == (if old(self).frames_done() == old(self).layout().frames {
                        GenerateError::FrameOverrun
                    } else {
                        GenerateError::FrameSizeMismatch { frame: old(self).frames_done() as usize }
                    })
                    &&& old(self).frames_done() < old(self).layout().frames ==> (frame@.width
                        != old(self).layout().width || frame@.height != old(
                        self,
                    ).layout().height)
                },
            },
    {
        if self.done == self.dims.frames {
            return Err(GenerateError::FrameOverrun);
        }
        if frame.width() != self.dims.width as usize || frame.height()
            != self.dims.height as usize {
            return Err(GenerateError::FrameSizeMismatch { frame: self.done as usize });
        }
        let ghost l = self.layout();
        let ghost before = self.seen@;
        let ghost columns = l.columns() as int;
        let ghost left = l.frames - self.done;
        let ghost due = l.frames / 200 - (self.done as nat) / 200;
        proof {
            if at_boundary((self.done + 1) as nat) {
                assert(columns * due == columns + columns * (due - 1) && 0 <= columns * (due - 1))
                    by (nonlinear_arith)
                    requires
                        due >= 1,
                        columns >= 0,
                ;
            }
            assert(2 * columns * left == 2 * columns + 2 * columns * (left - 1) && 0 <= 2 * columns
                * (left - 1)) by (nonlinear_arith)
                requires
                    left >= 1,
                    columns >= 0,
            ;
        }
        let f = self.done + 1;
        if f % 200 == 0 {
            self.force_all(f);
        }
        assert(self.circuit() == compensated(l, old(self).circuit(), f as nat));
        self.diff(frame.pixels(), f);
        self.previous = frame.pixels().clone();
        assert(self.previous@ =~= frame@.pixels);
        self.done = f;
        self.seen = Ghost(before.push(frame@.pixels));
        proof {
            lemma_after_frames_of_prefix(l, before, self.seen@, (f - 1) as nat);
        }
        Ok(())
    }

    /// The tap that the next change of a column's pixel will hang on. Column
    /// `x` of board row `y`, counted from the bottom of the image, has the
    /// number `y * width + x`.
    pub fn tap(&self, column: usize) -> (address: u32)
        requires
            self.wf(),
            column < self.layout().columns(),
        ensures
            address == self.circuit().last_connector[column as int],
    {
        self.last_connector[column]
    }

    /// The cluster on the input of a column's tap.
    pub fn tap_cluster(&self, column: usize) -> (cluster: u32)
        requires
            self.wf(),
            column < self.layout().columns(),
        ensures
            cluster == self.circuit().last_cluster[column as int],
    {
        self.last_cluster[column]
    }

    /// How many frames have been encoded.
    pub fn frames_encoded(&self) -> (done: usize)
        ensures
            done == self.frames_done(),
    {
        self.done as usize
    }

    /// Ends the run and hands over what it has added to the netlist.
    pub fn finish(self) -> (netlist: Netlist)
        ensures
            netlist@ == output(self.circuit()),
    {
        Netlist {
            max_address: self.alloc.highest_address(),
            max_cluster: self.alloc.highest_cluster(),
            components: self.components,
            wires: self.wires,
        }
    }
}

/// The pixels of each frame of a video.
pub open spec fn video(frames: Seq<Frame>) -> Seq<Seq<bool>> {
    Seq::new(frames.len(), |i: int| frames[i]@.pixels)
}

/// Whether two frames have the same width and the same height.
pub open spec fn same_size(a: Frame, b: Frame) -> bool {
    a@.width == b@.width && a@.height == b@.height
}

/// The layout of the run that encodes a video of at least one frame.
pub open spec fn video_layout(seed: Seed, frames: Seq<Frame>) -> Layout {
    job_layout(seed, frames[0]@.width, frames[0]@.height, frames.len())
}

/// Why the run that encodes a video cannot start, if it cannot.
pub open spec fn video_start_error(seed: Seed, frames: Seq<Frame>) -> Option<GenerateError> {
    if frames.len() == 0 {
        Some(GenerateError::NoFrames)
    } else {
        start_error(seed, frames[0]@.width, frames[0]@.height, frames.len())
    }
}

/// Encodes a whole video. The run fails if it cannot start; or else at the
/// first frame that is not of the size of the first; or else it yields the
/// circuit after all frames.
pub fn generate(seed: &Seed, frames: &Vec<Frame>) -> (made: Result<Netlist, GenerateError>)
    requires
        forall|i: int| 0 <= i < frames@.len() ==> (#[trigger] frames@[i]).wf(),
    ensures
        match made {
            Ok(netlist) => {
                &&& video_start_error(*seed, frames@) is None
                &&& forall|i: int|
                    0 <= i < frames@.len() ==> same_size(#[trigger] frames@[i], frames@[0])
                &&& netlist@ == output(
                    after_frames(video_layout(*seed, frames@), video(frames@), frames@.len()),
                )
            },
            Err(GenerateError::FrameSizeMismatch { frame }) => {
                &&& video_start_error(*seed, frames@) is None
                &&& frame < frames@.len()
                &&& !same_size(frames@[frame as int], frames@[0])
                &&& forall|i: int| 0 <= i < frame ==> same_size(#[trigger] frames@[i], frames@[0])
            },
            Err(e) => video_start_error(*seed, frames@) == Some(e),
        },
{
    if frames.len() == 0 {
        return Err(GenerateError::NoFrames);
    }
    let mut generator = match Generator::new(
        seed,
        frames[0].width(),
        frames[0].height(),
        frames.len(),
    ) {
        Ok(generator) => generator,
        Err(e) => {
            return Err(e);
        },
    };
    let ghost l = video_layout(*seed, frames@);
    let ghost v = video(frames@);
    let mut i: usize = 0;
    while i < frames.len()
        invariant
            i <= frames@.len(),
            frames@.len() == l.frames,
            l == video_layout(*seed, frames@),
            v == video(frames@),
            video_start_error(*seed, frames@) is None,
            forall|j: int| 0 <= j < frames@.len() ==> (#[trigger] frames@[j]).wf(),
            forall|j: int| 0 <= j < i ==> same_size(#[trigger] frames@[j], frames@[0]),
            generator.wf(),
            generator.layout() == l,
            generator.frames_done() == i,
            generator.circuit() == after_frames(l, v, i as nat),
            generator.previous() == frame_at(l, v, i as nat),
        decreases frames@.len() - i,
    {
        match generator.push_frame(&frames[i]) {
            Ok(()) => {},
            Err(_) => {
                assert(!same_size(frames@[i as int], frames@[0]));
                return Err(GenerateError::FrameSizeMismatch { frame: i });
            },
        }
        i = i + 1;
    }
    Ok(generator.finish())
}

/// Makes the board of each row.
fn place_boards(dims: &Dims, alloc: &mut Allocator, components: &mut Vec<Component>)
    requires
        dims.layout().fits(),
        old(components)@.len() == 0,
        old(alloc).max_address() == dims.layout().base_address,
    ensures
        component_views(final(components)@) == dims.layout().first_components(
            dims.layout().height,
        ),
        final(alloc).max_address() == dims.layout().base_address + dims.layout().height,
        final(alloc).max_cluster() == old(alloc).max_cluster(),
{
    let ghost l = dims.layout();
    proof {
        lemma_room_for_boards(l);
    }
    let mut y: u32 = 0;
    while y < dims.height
        invariant
            y <= dims.height,
            l == dims.layout(),
            l.fits(),
            l.height <= l.address_budget(),
            component_views(components@) =~= l.first_components(y as nat),
            alloc.max_address() == l.base_address + y,
            alloc.max_cluster() == old(alloc).max_cluster(),
        decreases dims.height - y,
    {
        let address = alloc.next_address();
        let board = Component {
            address,
            parent: None,
            kind: ComponentKind::Board,
            position: Position { x: 0, y: (y as i32) * 900, z: 0 },
            rotation: Orientation::Upright,
            inputs: Vec::new(),
            outputs: Vec::new(),
            extra: Payload::Board {
                width: 1 + 3 * dims.width,
                depth: 2 * (2 * dims.frames + 1),
                red: 51,
                green: 51,
                blue: 51,
            },
        };
        proof {
            assert(board.inputs@ =~= Seq::<u32>::empty());
            assert(board.outputs@ =~= Seq::<u32>::empty());
            assert(board@ == l.fixed_component(y as int));
            assert(component_views(components@.push(board)) =~= component_views(
                components@,
            ).push(board@));
        }
        components.push(board);
        y = y + 1;
    }
}

/// Makes the timing chain of each row: its steps, and the links between them.
fn place_chains(
    dims: &Dims,
    alloc: &mut Allocator,
    components: &mut Vec<Component>,
    wires: &mut Vec<Wire>,
)
    requires
        dims.layout().fits(),
        dims.layout().frames >= 1,
        component_views(old(components)@) == dims.layout().first_components(
            dims.layout().height,
        ),
        old(wires)@.len() == 0,
        old(alloc).max_address() == dims.layout().base_address + dims.layout().height,
        old(alloc).max_cluster() == dims.layout().base_cluster,
    ensures
        component_views(final(components)@) == dims.layout().first_components(
            dims.layout().height + dims.layout().height * dims.layout().depth(),
        ),
        final(wires)@ == dims.layout().first_wires(dims.layout().fixed_wires()),
        final(alloc).max_address() == dims.layout().base_address + dims.layout().height
            + dims.layout().height * dims.layout().depth(),
        final(alloc).max_cluster() == dims.layout().base_cluster + dims.layout().height * (
        dims.layout().depth() + 1),
{
    let ghost l = dims.layout();
    let ghost h = l.height as int;
    let ghost d = l.depth() as int;
    let ghost m: int = 2 * (l.frames as int);
    proof {
        lemma_room_for_boards(l);
        assert(0 * d == 0 && 0 * (d + 1) == 0 && 0 * m == 0) by (nonlinear_arith);
    }
    let depth = 2 * dims.frames + 1;
    let mut y: u32 = 0;
    while y < dims.height
        invariant
            y <= dims.height,
            l == dims.layout(),
            h == l.height,
            d == l.depth(),
            m == 2 * (l.frames as int),
            depth == d,
            l.fits(),
            l.frames >= 1,
            h * d + h <= l.address_budget(),
            h * d + h <= l.cluster_need(),
            h * (d + 1) == h * d + h,
            component_views(components@) =~= l.first_components((h + y * d) as nat),
            wires@ =~= l.first_wires((y * m) as nat),
            alloc.max_address() == l.base_address + h + y * d,
            alloc.max_cluster() == l.base_cluster + y * (d + 1),
        decreases dims.height - y,
    {
        proof {
            lemma_inside_grid(y as int, 0, d, h);
            lemma_inside_grid(y as int, 0, d + 1, h);
            lemma_inside_grid(y as int, 0, m, h);
        }
        let first = alloc.highest_address() + 1;
        let mut input = alloc.next_cluster();
        let mut k: u32 = 0;
        while k < depth
            invariant
                k <= depth,
                y < dims.height,
                l == dims.layout(),
                h == l.height,
                d == l.depth(),
            m == 2 * (l.frames as int),
                depth == d,
                l.fits(),
                0 <= y * d,
                0 <= y * (d + 1),
                y * d + d <= h * d,
                y * (d + 1) + (d + 1) <= h * (d + 1),
                h * d + h <= l.address_budget(),
            h * d + h <= l.cluster_need(),
                h * (d + 1) == h * d + h,
                component_views(components@) =~= l.first_components((h + y * d + k) as nat),
                alloc.max_address() == l.base_address + h + y * d + k,
                alloc.max_cluster() == l.base_cluster + y * (d + 1) + k + 1,
                input == l.chain_cluster(y as int, k as int),
            decreases depth - k,
        {
            let address = alloc.next_address();
            let output = alloc.next_cluster();
            let ticks: u32 = if (k + 1) % 400 == 0 {
                9
            } else {
                10
            };
            let step = Component {
                address,
                parent: Some(dims.base_address + 1 + y),
                kind: ComponentKind::DelayElement,
                position: Position { x: 150, y: 150, z: (k as i32) * 600 + 150 },
                rotation: Orientation::Upright,
                inputs: vec![input],
                outputs: vec![output],
                extra: Payload::Delay { ticks },
            };
            proof {
                lemma_row_major(y as int, k as int, d);
                assert(step.inputs@ =~= seq![input]);
                assert(step.outputs@ =~= seq![output]);
                assert(step@ == l.chain_step(y as int, k as int));
                assert(l.fixed_component(h + y * d + k) == l.chain_step(y as int, k as int));
                assert(component_views(components@.push(step)) =~= component_views(
                    components@,
                ).push(step@));
            }
            components.push(step);
            input = output;
            k = k + 1;
        }
        let ghost before = wires@;
        let mut k: u32 = 1;
        while k < depth
            invariant
                1 <= k <= depth,
                y < dims.height,
                l == dims.layout(),
                h == l.height,
                d == l.depth(),
            m == 2 * (l.frames as int),
                depth == d,
                l.fits(),
                l.frames >= 1,
                0 <= y * d,
                0 <= y * (d + 1),
                0 <= y * m,
                y * d + d <= h * d,
                y * (d + 1) + (d + 1) <= h * (d + 1),
                h * d + h <= l.address_budget(),
            h * d + h <= l.cluster_need(),
                h * (d + 1) == h * d + h,
                first == l.chain_address(y as int, 0),
                wires@ =~= l.first_wires((y * m + k - 1) as nat),
            decreases depth - k,
        {
            let link = Wire {
                start: PegAddress {
                    component_address: first + (k - 1),
                    is_input: false,
                    port_index: 0,
                },
                end: PegAddress { component_address: first + k, is_input: true, port_index: 0 },
                cluster_id: dims.base_cluster + 1 + y * (depth + 1) + k,
                rotation: 0,
            };
            proof {
                lemma_row_major(y as int, k - 1, m);
                assert(link == l.fixed_wire(y * m + k - 1));
            }
            wires.push(link);
            k = k + 1;
        }
        proof {
            lemma_inside_grid(y as int, 0, d, h);
            lemma_inside_grid(y as int, 0, d + 1, h);
            lemma_inside_grid(y as int, 0, m, h);
        }
        y = y + 1;
    }
    proof {
        assert(l.fixed_wires() == h * m);
    }
}

/// Makes the socket at the head of each column and enters it in the tables
/// as the column's tap.
fn place_sockets(
    dims: &Dims,
    alloc: &mut Allocator,
    components: &mut Vec<Component>,
    last_connector: &mut Vec<u32>,
    last_cluster: &mut Vec<u32>,
)
    requires
        dims.layout().fits(),
        component_views(old(components)@) == dims.layout().first_components(
            dims.layout().height + dims.layout().height * dims.layout().depth(),
        ),
        old(last_connector)@.len() == 0,
        old(last_cluster)@.len() == 0,
        old(alloc).max_address() == dims.layout().base_address + dims.layout().height
            + dims.layout().height * dims.layout().depth(),
        old(alloc).max_cluster() == dims.layout().base_cluster + dims.layout().height * (
        dims.layout().depth() + 1),
    ensures
        component_views(final(components)@) == dims.layout().first_components(
            dims.layout().fixed_components(),
        ),
        final(last_connector)@ == dims.layout().first_taps(dims.layout().columns()),
        final(last_cluster)@ == dims.layout().first_clusters(dims.layout().columns()),
        final(alloc).max_address() == dims.layout().base_address
            + dims.layout().fixed_components(),
        final(alloc).max_cluster() == dims.layout().base_cluster + dims.layout().fixed_clusters(),
{
    let ghost l = dims.layout();
    let ghost h = l.height as int;
    let ghost d = l.depth() as int;
    proof {
        lemma_room_for_boards(l);
        assert(0 <= h * d && 0 <= h * (d + 1)) by (nonlinear_arith)
            requires
                0 <= h,
                0 <= d,
        ;
    }
    let columns = dims.width * dims.height;
    let mut c: u32 = 0;
    while c < columns
        invariant
            c <= columns,
            columns == l.columns(),
            l == dims.layout(),
            h == l.height,
            d == l.depth(),
            l.fits(),
            0 <= h * d,
            0 <= h * (d + 1),
            l.fixed_components() + 2 * l.columns() * l.frames == l.address_budget(),
            0 <= 2 * l.columns() * l.frames,
            l.fixed_clusters() <= l.cluster_need(),
            component_views(components@) =~= l.first_components((h + h * d + c) as nat),
            last_connector@ =~= l.first_taps(c as nat),
            last_cluster@ =~= l.first_clusters(c as nat),
            alloc.max_address() == l.base_address + h + h * d + c,
            alloc.max_cluster() == l.base_cluster + h * (d + 1) + c,
        decreases columns - c,
    {
        proof {
            lemma_split_index(c as int, l.width as int, l.height as int);
        }
        let y = c / dims.width;
        let x = c % dims.width;
        let address = alloc.next_address();
        let cluster = alloc.next_cluster();
        let socket = Component {
            address,
            parent: Some(dims.base_address + 1 + y),
            kind: ComponentKind::SocketConnector,
            position: Position { x: (x as i32) * 900 + 750, y: 150, z: 150 },
            rotation: Orientation::Reversed,
            inputs: vec![cluster],
            outputs: Vec::new(),
            extra: Payload::Nothing,
        };
        proof {
            assert(socket.inputs@ =~= seq![cluster]);
            assert(socket.outputs@ =~= Seq::<u32>::empty());
            assert(socket@ == l.socket(c as int));
            assert(l.fixed_component(h + h * d + c) == l.socket(c as int));
            assert(component_views(components@.push(socket)) =~= component_views(
                components@,
            ).push(socket@));
        }
        components.push(socket);
        last_connector.push(address);
        last_cluster.push(cluster);
        c = c + 1;
    }
}

} // verus!
