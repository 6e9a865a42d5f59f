use frame_netlist::frame::Frame;
use frame_netlist::generator::generate;
use frame_netlist::job::{Seed, TypeCatalog};
use frame_netlist::parts::{ComponentKind, Payload};

fn full_catalog() -> TypeCatalog {
    TypeCatalog {
        board: Some(1),
        delay_element: Some(2),
        connector: Some(3),
        socket_connector: Some(4),
    }
}

fn empty_seed() -> Seed {
    Seed { max_address: 0, max_cluster: 0, catalog: full_catalog() }
}

fn frame_2x2(pixels: [bool; 4]) -> Frame {
    Frame::new(2, 2, pixels.to_vec()).unwrap()
}

#[test]
fn one_pixel_turned_on() {
    let frames = vec![
        frame_2x2([false, false, false, false]),
        frame_2x2([true, false, false, false]),
    ];
    let netlist = generate(&empty_seed(), &frames).unwrap();
    // 2 boards, 2 chains of 5, 4 sockets, 1 pixel delayer, 1 connector
    assert_eq!(netlist.components.len(), 2 + 10 + 4 + 2);
    assert_eq!(netlist.wires.len(), 8 + 3);
    let chain_steps = netlist
        .components
        .iter()
        .filter(|c| matches!(c.extra, Payload::Delay { ticks: 10 }))
        .count();
    assert_eq!(chain_steps, 10);
    let pixel_delayers: Vec<_> = netlist
        .components
        .iter()
        .filter(|c| matches!(c.extra, Payload::Delay { ticks: 1 }))
        .collect();
    assert_eq!(pixel_delayers.len(), 1);
    let connectors: Vec<_> =
        netlist.components.iter().filter(|c| c.kind == ComponentKind::Connector).collect();
    assert_eq!(connectors.len(), 1);
    // the top row of the image is the last row of boards
    assert_eq!(pixel_delayers[0].parent, Some(2));
    assert_eq!(connectors[0].parent, Some(2));
    assert_eq!(pixel_delayers[0].position.x, -450);
    assert_eq!(connectors[0].position.x, 750);
    assert_eq!(connectors[0].position.z, 4 * 600 - 450);
    assert_eq!(netlist.max_address, 18);
}

#[test]
fn still_video_gets_one_chunk_pass() {
    let mut frames = Vec::new();
    for _ in 0..201 {
        frames.push(frame_2x2([false, false, false, false]));
    }
    let netlist = generate(&empty_seed(), &frames).unwrap();
    let depth = 2 * 201 + 1;
    let forced: Vec<_> = netlist
        .components
        .iter()
        .filter(|c| matches!(c.extra, Payload::Delay { ticks: 1 }))
        .collect();
    // one forced delayer for each of the four columns, all at frame 200
    assert_eq!(forced.len(), 4);
    for delayer in &forced {
        assert_eq!(delayer.position.z, 400 * 600 - 450);
        assert_eq!(delayer.position.x % 900, 750);
    }
    let connectors =
        netlist.components.iter().filter(|c| c.kind == ComponentKind::Connector).count();
    assert_eq!(connectors, 0);
    assert_eq!(netlist.components.len(), 2 + 2 * depth + 4 + 4);
    assert_eq!(netlist.wires.len(), 2 * (depth - 1) + 4);
    // the chain is 403 steps long, and its 400th gives the tick back
    let nines = netlist
        .components
        .iter()
        .filter(|c| matches!(c.extra, Payload::Delay { ticks: 9 }))
        .count();
    assert_eq!(nines, 2);
    let tens = netlist
        .components
        .iter()
        .filter(|c| matches!(c.extra, Payload::Delay { ticks: 10 }))
        .count();
    assert_eq!(tens, 2 * (depth - 1));
}

#[test]
fn lit_video_that_never_changes_marks_only_its_first_frame() {
    let mut frames = Vec::new();
    for _ in 0..201 {
        frames.push(frame_2x2([false, true, true, false]));
    }
    let netlist = generate(&empty_seed(), &frames).unwrap();
    let depth = 2 * 201 + 1;
    let pixel_delayers: Vec<_> = netlist
        .components
        .iter()
        .filter(|c| matches!(c.extra, Payload::Delay { ticks: 1 }) && c.position.x % 900 != 750)
        .collect();
    assert_eq!(pixel_delayers.len(), 2);
    for delayer in &pixel_delayers {
        assert_eq!(delayer.position.z, 2 * 600 - 150);
    }
    assert_eq!(netlist.components.len(), 2 + 2 * depth + 4 + 2 * 2 + 4);
}
