//! What a run starts from and what it ends with.

use crate::parts::{component_views, Component, ComponentKind, ComponentView, Wire};
use vstd::prelude::*;

verus! {

/// The numeric type id that the target netlist gives each kind of
/// component, where it knows the kind.
#[derive(Clone, Copy, Debug, PartialEq, Eq, Structural)]
pub struct TypeCatalog {
    pub board: Option<u16>,
    pub delay_element: Option<u16>,
    pub connector: Option<u16>,
    pub socket_connector: Option<u16>,
}

impl TypeCatalog {
    /// The type id of a kind, if the catalog has it.
    pub open spec fn spec_type_id(self, kind: ComponentKind) -> Option<u16> {
        match kind {
            ComponentKind::Board => self.board,
            ComponentKind::DelayElement => self.delay_element,
            ComponentKind::Connector => self.connector,
            ComponentKind::SocketConnector => self.socket_connector,
        }
    }

    /// The first kind that the catalog lacks, in the order board, delay
    /// element, connector, socket.
    pub open spec fn spec_missing(self) -> Option<ComponentKind> {
        if self.board.is_none() {
            Some(ComponentKind::Board)
        } else if self.delay_element.is_none() {
            Some(ComponentKind::DelayElement)
        } else if self.connector.is_none() {
            Some(ComponentKind::Connector)
        } else if self.socket_connector.is_none() {
            Some(ComponentKind::SocketConnector)
        } else {
            None
        }
    }

    /// The type id of a kind, if the catalog has it.
    pub fn type_id(&self, kind: ComponentKind) -> (id: Option<u16>)
        ensures
            id == self.spec_type_id(kind),
    {
        match kind {
            ComponentKind::Board => self.board,
            ComponentKind::DelayElement => self.delay_element,
            ComponentKind::Connector => self.connector,
            ComponentKind::SocketConnector => self.socket_connector,
        }
    }

    /// The first kind that the catalog lacks, if it lacks any.
    pub fn missing(&self) -> (kind: Option<ComponentKind>)
        ensures
            kind == self.spec_missing(),
            kind matches Some(k) ==> self.spec_type_id(k).is_none(),
            kind.is_none() ==> forall|k: ComponentKind| self.spec_type_id(k).is_some(),
    {
        if self.board.is_none() {
            Some(ComponentKind::Board)
        } else if self.delay_element.is_none() {
            Some(ComponentKind::DelayElement)
        } else if self.connector.is_none() {
            Some(ComponentKind::Connector)
        } else if self.socket_connector.is_none() {
            Some(ComponentKind::SocketConnector)
        } else {
            None
        }
    }
}

/// What the target netlist holds before the run.
#[derive(Clone, Copy, Debug, PartialEq, Eq, Structural)]
pub struct Seed {
    /// The highest component address in it; 0 if it has no component.
    pub max_address: u32,
    /// The highest cluster id in it; 0 if it has none.
    pub max_cluster: u32,
    pub catalog: TypeCatalog,
}

/// Why a run failed.
#[derive(Clone, Copy, Debug, PartialEq, Eq, Structural)]
pub enum GenerateError {
    /// The video has no frame.
    NoFrames,
    /// The frame at this place, counted from 0, is not of the size of the first.
    FrameSizeMismatch { frame: usize },
    /// The target's catalog lacks a kind of component that the run needs.
    MissingType(ComponentKind),
    /// A coordinate or an identifier would leave its integer range.
    NumericRange,
    /// A frame came after the last that was announced.
    FrameOverrun,
}

impl GenerateError {
    /// The error in words.
    pub fn message(&self) -> (text: String)
        ensures
            text@ == self.spec_message()@,
    {
        match self {
            GenerateError::NoFrames => "no frames found".to_string(),
            GenerateError::FrameSizeMismatch { .. } => {
                "frame does not match size of first frame".to_string()
            },
            GenerateError::MissingType(kind) => match kind {
                ComponentKind::Board => "target has no circuit board type".to_string(),
                ComponentKind::DelayElement => "target has no delay element type".to_string(),
                ComponentKind::Connector => "target has no connector type".to_string(),
                ComponentKind::SocketConnector => "target has no socket type".to_string(),
            },
            GenerateError::NumericRange => "size out of range".to_string(),
            GenerateError::FrameOverrun => "more frames than announced".to_string(),
        }
    }

    /// The words for each error.
    pub open spec fn spec_message(&self) -> &'static str {
        match self {
            GenerateError::NoFrames => "no frames found",
            GenerateError::FrameSizeMismatch { .. } => "frame does not match size of first frame",
            GenerateError::MissingType(kind) => match kind {
                ComponentKind::Board => "target has no circuit board type",
                ComponentKind::DelayElement => "target has no delay element type",
                ComponentKind::Connector => "target has no connector type",
                ComponentKind::SocketConnector => "target has no socket type",
            },
            GenerateError::NumericRange => "size out of range",
            GenerateError::FrameOverrun => "more frames than announced",
        }
    }
}

/// What a run adds to the target netlist, as a mathematical value.
pub ghost struct NetlistView {
    pub components: Seq<ComponentView>,
    pub wires: Seq<Wire>,
    pub max_address: nat,
    pub max_cluster: nat,
}

/// What a run adds to the target netlist: the new components and wires in
/// the order they were made, and the highest address and cluster id in use
/// afterwards.
#[derive(Clone, Debug, PartialEq, Eq)]
pub struct Netlist {
    pub components: Vec<Component>,
    pub wires: Vec<Wire>,
    pub max_address: u32,
    pub max_cluster: u32,
}

impl View for Netlist {
    type V = NetlistView;

    open spec fn view(&self) -> NetlistView {
        NetlistView {
            components: component_views(self.components@),
            wires: self.wires@,
            max_address: self.max_address as nat,
            max_cluster: self.max_cluster as nat,
        }
    }
}

/// Bytes that a table of one bit for each cluster needs to cover the
/// cluster ids up to `max_cluster`.
pub open spec fn table_bytes(max_cluster: u32) -> nat {
    (max_cluster / 8 + 1) as nat
}

impl Netlist {
    /// Lengthens a table of signal states, one bit for each cluster, until
    /// it covers every cluster id in use. What it held stays, what is added
    /// is zero, and a table that is long enough is left as it is.
    pub fn cover_clusters(&self, table: &mut Vec<u8>)
        ensures
            final(table)@.len() == if old(table)@.len() >= table_bytes(self.max_cluster) {
                old(table)@.len()
            } else {
                table_bytes(self.max_cluster)
            },
            forall|i: int| 0 <= i < old(table)@.len() ==> final(table)@[i] == old(table)@[i],
            forall|i: int| old(table)@.len() <= i < final(table)@.len() ==> final(table)@[i] == 0,
    {
        let needed = (self.max_cluster / 8) as usize + 1;
        while table.len() < needed
            invariant
                needed == table_bytes(self.max_cluster),
                table@.len() >= old(table)@.len(),
                table@.len() <= needed || table@.len() == old(table)@.len(),
                forall|i: int| 0 <= i < old(table)@.len() ==> table@[i] == old(table)@[i],
                forall|i: int| old(table)@.len() <= i < table@.len() ==> table@[i] == 0,
            decreases needed - table@.len(),
        {
            table.push(0);
        }
    }
}

} // verus!
