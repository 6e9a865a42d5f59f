use frame_netlist::frame::Frame;
use frame_netlist::generator::{generate, Generator};
use frame_netlist::job::{Seed, TypeCatalog};
use frame_netlist::parts::{
    Component, ComponentKind, Orientation, Payload, PegAddress, Position, Wire,
};

fn seed(max_address: u32, max_cluster: u32) -> Seed {
    Seed {
        max_address,
        max_cluster,
        catalog: TypeCatalog {
            board: Some(1),
            delay_element: Some(2),
            connector: Some(3),
            socket_connector: Some(4),
        },
    }
}

fn pin(component_address: u32, is_input: bool) -> PegAddress {
    PegAddress { component_address, is_input, port_index: 0 }
}

fn wire(start: PegAddress, end: PegAddress, cluster_id: u32) -> Wire {
    Wire { start, end, cluster_id, rotation: 0 }
}

fn two_frames() -> Vec<Frame> {
    vec![
        Frame::new(2, 2, vec![false, false, false, false]).unwrap(),
        Frame::new(2, 2, vec![true, false, false, false]).unwrap(),
    ]
}

#[test]
fn boards_chains_and_sockets_of_a_small_video() {
    let netlist = generate(&seed(100, 50), &two_frames()).unwrap();
    assert_eq!(
        netlist.components[0],
        Component {
            address: 101,
            parent: None,
            kind: ComponentKind::Board,
            position: Position { x: 0, y: 0, z: 0 },
            rotation: Orientation::Upright,
            inputs: vec![],
            outputs: vec![],
            extra: Payload::Board { width: 7, depth: 10, red: 51, green: 51, blue: 51 },
        }
    );
    assert_eq!(netlist.components[1].address, 102);
    assert_eq!(netlist.components[1].position, Position { x: 0, y: 900, z: 0 });
    for y in 0..2u32 {
        for k in 0..5u32 {
            let step = &netlist.components[(2 + y * 5 + k) as usize];
            assert_eq!(
                *step,
                Component {
                    address: 103 + y * 5 + k,
                    parent: Some(101 + y),
                    kind: ComponentKind::DelayElement,
                    position: Position { x: 150, y: 150, z: (k as i32) * 600 + 150 },
                    rotation: Orientation::Upright,
                    inputs: vec![51 + y * 6 + k],
                    outputs: vec![51 + y * 6 + k + 1],
                    extra: Payload::Delay { ticks: 10 },
                }
            );
        }
    }
    for c in 0..4u32 {
        let socket = &netlist.components[(12 + c) as usize];
        assert_eq!(
            *socket,
            Component {
                address: 113 + c,
                parent: Some(101 + c / 2),
                kind: ComponentKind::SocketConnector,
                position: Position { x: ((c % 2) as i32) * 900 + 750, y: 150, z: 150 },
                rotation: Orientation::Reversed,
                inputs: vec![63 + c],
                outputs: vec![],
                extra: Payload::Nothing,
            }
        );
    }
    for y in 0..2u32 {
        for k in 1..5u32 {
            assert_eq!(
                netlist.wires[(y * 4 + k - 1) as usize],
                wire(
                    pin(103 + y * 5 + k - 1, false),
                    pin(103 + y * 5 + k, true),
                    51 + y * 6 + k
                )
            );
        }
    }
}

#[test]
fn one_change_adds_a_delayer_a_connector_and_three_wires() {
    let netlist = generate(&seed(100, 50), &two_frames()).unwrap();
    assert_eq!(netlist.components.len(), 18);
    assert_eq!(netlist.wires.len(), 11);
    assert_eq!(
        netlist.components[16],
        Component {
            address: 117,
            parent: Some(102),
            kind: ComponentKind::DelayElement,
            position: Position { x: -450, y: 150, z: 2250 },
            rotation: Orientation::Reversed,
            inputs: vec![61],
            outputs: vec![65],
            extra: Payload::Delay { ticks: 1 },
        }
    );
    assert_eq!(
        netlist.components[17],
        Component {
            address: 118,
            parent: Some(102),
            kind: ComponentKind::Connector,
            position: Position { x: 750, y: 150, z: 1950 },
            rotation: Orientation::Upright,
            inputs: vec![65],
            outputs: vec![],
            extra: Payload::Nothing,
        }
    );
    assert_eq!(netlist.wires[8], wire(pin(112, true), pin(117, true), 61));
    assert_eq!(netlist.wires[9], wire(pin(117, false), pin(118, true), 65));
    assert_eq!(netlist.wires[10], wire(pin(118, true), pin(115, true), 65));
    assert_eq!(netlist.max_address, 118);
    assert_eq!(netlist.max_cluster, 66);
}

#[test]
fn steps_hand_over_what_the_whole_run_does() {
    let frames = two_frames();
    let mut generator = Generator::new(&seed(100, 50), 2, 2, 2).unwrap();
    assert_eq!(generator.frames_encoded(), 0);
    assert_eq!(generator.tap(2), 115);
    assert_eq!(generator.tap_cluster(2), 65);
    generator.push_frame(&frames[0]).unwrap();
    assert_eq!(generator.tap(2), 115);
    generator.push_frame(&frames[1]).unwrap();
    assert_eq!(generator.frames_encoded(), 2);
    assert_eq!(generator.tap(2), 118);
    assert_eq!(generator.tap_cluster(2), 65);
    assert_eq!(generator.tap(0), 113);
    assert_eq!(generator.finish(), generate(&seed(100, 50), &frames).unwrap());
}

#[test]
fn chunk_boundary_forces_a_delayer_into_every_column() {
    let mut frames = Vec::new();
    for _ in 0..199 {
        frames.push(Frame::new(1, 1, vec![false]).unwrap());
    }
    frames.push(Frame::new(1, 1, vec![true]).unwrap());
    frames.push(Frame::new(1, 1, vec![false]).unwrap());
    let mut generator = Generator::new(&seed(0, 0), 1, 1, 201).unwrap();
    for frame in &frames[..199] {
        generator.push_frame(frame).unwrap();
    }
    // 1 board, 403 chain steps, 1 socket
    assert_eq!(generator.tap(0), 405);
    assert_eq!(generator.tap_cluster(0), 405);
    generator.push_frame(&frames[199]).unwrap();
    // the forced delayer is the tap, and the change of frame 200 drives it
    assert_eq!(generator.tap(0), 406);
    assert_eq!(generator.tap_cluster(0), 406);
    generator.push_frame(&frames[200]).unwrap();
    assert_eq!(generator.tap(0), 409);
    let netlist = generator.finish();
    assert_eq!(netlist.components.len(), 405 + 2 + 2);
    assert_eq!(
        netlist.components[405],
        Component {
            address: 406,
            parent: Some(1),
            kind: ComponentKind::DelayElement,
            position: Position { x: 750, y: 150, z: 400 * 600 - 450 },
            rotation: Orientation::Reversed,
            inputs: vec![406],
            outputs: vec![405],
            extra: Payload::Delay { ticks: 1 },
        }
    );
    assert_eq!(
        netlist.components[406],
        Component {
            address: 407,
            parent: Some(1),
            kind: ComponentKind::DelayElement,
            position: Position { x: -450, y: 150, z: 400 * 600 - 150 },
            rotation: Orientation::Reversed,
            inputs: vec![1 + 400],
            outputs: vec![406],
            extra: Payload::Delay { ticks: 1 },
        }
    );
    let chain_wires = 402;
    assert_eq!(netlist.wires[chain_wires], wire(pin(406, false), pin(405, true), 405));
    assert_eq!(netlist.wires[chain_wires + 1], wire(pin(2 + 400, true), pin(407, true), 401));
    assert_eq!(netlist.wires[chain_wires + 2], wire(pin(407, false), pin(406, true), 406));
    // frame 201 is an ordinary change again: a connector hangs on the forced delayer
    assert_eq!(netlist.components[408].kind, ComponentKind::Connector);
    assert_eq!(netlist.wires[chain_wires + 5], wire(pin(409, true), pin(406, true), 406));
    assert_eq!(netlist.wires.len(), chain_wires + 6);
    assert_eq!(netlist.max_cluster, 406);
    // the chain gives the tick back at position 400
    assert_eq!(netlist.components[1 + 399].extra, Payload::Delay { ticks: 9 });
    assert_eq!(netlist.components[1 + 398].extra, Payload::Delay { ticks: 10 });
    assert_eq!(netlist.components[1 + 400].extra, Payload::Delay { ticks: 10 });
}

#[test]
fn rows_of_boards_run_from_the_bottom_of_the_image() {
    // 1 wide, 3 high: only the bottom pixel of the image turns on
    let frames = vec![Frame::new(1, 3, vec![false, false, true]).unwrap()];
    let netlist = generate(&seed(0, 0), &frames).unwrap();
    let delayers: Vec<_> = netlist
        .components
        .iter()
        .filter(|c| matches!(c.extra, Payload::Delay { ticks: 1 }))
        .collect();
    assert_eq!(delayers.len(), 1);
    // board of row 0 has the address 1
    assert_eq!(delayers[0].parent, Some(1));
}

#[test]
fn state_table_grows_to_cover_the_clusters() {
    let netlist = generate(&seed(100, 50), &two_frames()).unwrap();
    assert_eq!(netlist.max_cluster, 66);
    let mut table = vec![0xffu8, 0x01];
    netlist.cover_clusters(&mut table);
    assert_eq!(table, vec![0xff, 0x01, 0, 0, 0, 0, 0, 0, 0]);
    let mut long = vec![7u8; 20];
    netlist.cover_clusters(&mut long);
    assert_eq!(long, vec![7u8; 20]);
    let mut empty = Vec::new();
    netlist.cover_clusters(&mut empty);
    assert_eq!(empty, vec![0u8; 9]);
}
