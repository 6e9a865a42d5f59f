//! The netlist's data: components, pins and wires.

use vstd::prelude::*;

verus! {

/// What a component is.
#[derive(Clone, Copy, Debug, PartialEq, Eq, Structural)]
pub enum ComponentKind {
    /// A circuit board: the container of one image row.
    Board,
    /// Forwards its input to its output after a fixed number of ticks.
    DelayElement,
    /// A terminal pin with one input and no output.
    Connector,
    /// The terminal pin at the head of a column, where the display plugs in.
    SocketConnector,
}

/// A place in fixed-point layout coordinates, 300 to the grid square.
#[derive(Clone, Copy, Debug, PartialEq, Eq, Structural)]
pub struct Position {
    pub x: i32,
    pub y: i32,
    pub z: i32,
}

/// Which way a component faces on its board.
#[derive(Clone, Copy, Debug, PartialEq, Eq, Structural)]
pub enum Orientation {
    /// As placed: the identity rotation.
    Upright,
    /// Turned half way round the vertical axis.
    Reversed,
}

/// What a component carries beyond its pins.
#[derive(Clone, Copy, Debug, PartialEq, Eq, Structural)]
pub enum Payload {
    Nothing,
    /// The delay of a delay element, in ticks.
    Delay { ticks: u32 },
    /// The extent of a board in grid squares, and its colour.
    Board { width: u32, depth: u32, red: u8, green: u8, blue: u8 },
}

/// One pin of one component.
#[derive(Clone, Copy, Debug, PartialEq, Eq, Structural)]
pub struct PegAddress {
    pub component_address: u32,
    pub is_input: bool,
    pub port_index: u32,
}

/// A wire between two pins, and the cluster it carries.
#[derive(Clone, Copy, Debug, PartialEq, Eq, Structural)]
pub struct Wire {
    pub start: PegAddress,
    pub end: PegAddress,
    pub cluster_id: u32,
    /// Turn about the wire's own axis, in whole degrees.
    pub rotation: i32,
}

/// A component of the netlist. Each pin is bound to the cluster whose id
/// stands at the pin's index in `inputs` or `outputs`.
#[derive(Clone, Debug, PartialEq, Eq)]
pub struct Component {
    pub address: u32,
    pub parent: Option<u32>,
    pub kind: ComponentKind,
    pub position: Position,
    pub rotation: Orientation,
    pub inputs: Vec<u32>,
    pub outputs: Vec<u32>,
    pub extra: Payload,
}

/// A component as a mathematical value.
pub ghost struct ComponentView {
    pub address: u32,
    pub parent: Option<u32>,
    pub kind: ComponentKind,
    pub position: Position,
    pub rotation: Orientation,
    pub inputs: Seq<u32>,
    pub outputs: Seq<u32>,
    pub extra: Payload,
}

impl View for Component {
    type V = ComponentView;

    open spec fn view(&self) -> ComponentView {
        ComponentView {
            address: self.address,
            parent: self.parent,
            kind: self.kind,
            position: self.position,
            rotation: self.rotation,
            inputs: self.inputs@,
            outputs: self.outputs@,
            extra: self.extra,
        }
    }
}

/// The components of a list, each as a mathematical value.
pub open spec fn component_views(list: Seq<Component>) -> Seq<ComponentView> {
    Seq::new(list.len(), |i: int| list[i]@)
}

/// The pin `port_index` of the component at `component_address`, on the
/// input side if `is_input`.
pub open spec fn peg(component_address: int, is_input: bool, port_index: int) -> PegAddress {
    PegAddress {
        component_address: component_address as u32,
        is_input,
        port_index: port_index as u32,
    }
}

/// The cluster a pin is bound to, if the component has that pin.
pub open spec fn pin_cluster(component: ComponentView, is_input: bool, port_index: int) -> Option<
    u32,
> {
    let pins = if is_input {
        component.inputs
    } else {
        component.outputs
    };
    if 0 <= port_index < pins.len() {
        Some(pins[port_index])
    } else {
        None
    }
}

} // verus!
