use frame_netlist::frame::Frame;
use frame_netlist::generator::Generator;
use frame_netlist::job::{Netlist, Seed, TypeCatalog};
use frame_netlist::parts::{ComponentKind, Payload};

const BASE_ADDRESS: u32 = 1000;
const BASE_CLUSTER: u32 = 500;

fn seed() -> Seed {
    Seed {
        max_address: BASE_ADDRESS,
        max_cluster: BASE_CLUSTER,
        catalog: TypeCatalog {
            board: Some(1),
            delay_element: Some(2),
            connector: Some(3),
            socket_connector: Some(4),
        },
    }
}

/// A video of 3 by 2 pixels in which pixel `i` is on in frame `f` when
/// `f / (i + 1)` is odd: every pixel changes at its own pace.
fn video(frames: usize) -> Vec<Frame> {
    (1..=frames)
        .map(|f| Frame::new(3, 2, (0..6).map(|i| (f / (i + 1)) % 2 == 1).collect()).unwrap())
        .collect()
}

fn run(frames: &[Frame]) -> (Netlist, Vec<u32>) {
    let mut generator = Generator::new(&seed(), 3, 2, frames.len()).unwrap();
    for frame in frames {
        generator.push_frame(frame).unwrap();
    }
    let taps = (0..6).map(|c| generator.tap(c)).collect();
    (generator.finish(), taps)
}

#[test]
fn addresses_are_new_and_unique_and_clusters_stay_below_the_bound() {
    let (netlist, _) = run(&video(450));
    for (i, component) in netlist.components.iter().enumerate() {
        assert_eq!(component.address, BASE_ADDRESS + 1 + i as u32);
        for cluster in component.inputs.iter().chain(component.outputs.iter()) {
            assert!(BASE_CLUSTER < *cluster && *cluster < netlist.max_cluster + 1);
        }
    }
    assert_eq!(netlist.max_address, BASE_ADDRESS + netlist.components.len() as u32);
    for wire in &netlist.wires {
        assert!(BASE_CLUSTER < wire.cluster_id && wire.cluster_id <= netlist.max_cluster);
    }
}

#[test]
fn wires_join_pins_on_the_cluster_they_carry() {
    let (netlist, _) = run(&video(450));
    let component = |address: u32| &netlist.components[(address - BASE_ADDRESS - 1) as usize];
    for wire in &netlist.wires {
        for pin in [wire.start, wire.end] {
            let owner = component(pin.component_address);
            let pins = if pin.is_input { &owner.inputs } else { &owner.outputs };
            assert_eq!(pins[pin.port_index as usize], wire.cluster_id);
        }
    }
    for part in &netlist.components {
        match part.parent {
            Some(parent) => assert_eq!(component(parent).kind, ComponentKind::Board),
            None => assert_eq!(part.kind, ComponentKind::Board),
        }
    }
}

#[test]
fn timing_chain_is_one_line_with_a_short_step_every_400() {
    let frames = video(450);
    let (netlist, _) = run(&frames);
    let depth = 2 * frames.len() + 1;
    for y in 0..2 {
        for k in 1..=depth {
            let at = 2 + y * depth + (k - 1);
            let step = &netlist.components[at];
            let ticks = if k % 400 == 0 { 9 } else { 10 };
            assert_eq!(step.kind, ComponentKind::DelayElement);
            assert_eq!(step.extra, Payload::Delay { ticks });
            let address = step.address;
            let leaving: Vec<_> = netlist
                .wires
                .iter()
                .filter(|w| w.start.component_address == address && !w.start.is_input)
                .collect();
            let entering: Vec<_> =
                netlist.wires.iter().filter(|w| w.end.component_address == address).collect();
            if k < depth {
                assert_eq!(leaving.len(), 1);
                assert_eq!(leaving[0].end.component_address, address + 1);
                assert!(leaving[0].end.is_input);
            } else {
                assert!(leaving.is_empty());
            }
            if k > 1 {
                assert_eq!(entering.len(), 1);
                assert_eq!(entering[0].start.component_address, address - 1);
            } else {
                assert!(entering.is_empty());
            }
        }
    }
    let long_steps = netlist
        .components
        .iter()
        .filter(|c| matches!(c.extra, Payload::Delay { ticks } if ticks != 1))
        .count();
    assert_eq!(long_steps, 2 * depth);
}

/// Follows the wires from a tap back to the socket and tells the frames of
/// the changes that drive the taps on the way, the earliest first.
fn read_back(netlist: &Netlist, depth: usize, rows: usize, tap: u32) -> Vec<usize> {
    let fixed_top = BASE_ADDRESS + (rows + rows * depth + 6) as u32;
    let chain_clusters = (rows * (depth + 1)) as u32;
    let component = |address: u32| &netlist.components[(address - BASE_ADDRESS - 1) as usize];
    let mut marks = Vec::new();
    let mut at = tap;
    while at > fixed_top {
        let drivers: Vec<_> = netlist
            .wires
            .iter()
            .filter(|w| w.end.component_address == at && w.end.is_input && !w.start.is_input)
            .map(|w| component(w.start.component_address))
            .filter(|c| {
                c.inputs.len() == 1
                    && c.inputs[0] > BASE_CLUSTER
                    && c.inputs[0] <= BASE_CLUSTER + chain_clusters
            })
            .collect();
        assert!(drivers.len() <= 1);
        for driver in drivers {
            let position = (driver.inputs[0] - BASE_CLUSTER - 1) as usize % (depth + 1);
            marks.push(position / 2);
        }
        let leaving: Vec<_> =
            netlist.wires.iter().filter(|w| w.start.component_address == at).collect();
        assert_eq!(leaving.len(), 1);
        assert!(leaving[0].end.component_address < at);
        at = leaving[0].end.component_address;
    }
    assert_eq!(component(at).kind, ComponentKind::SocketConnector);
    marks.reverse();
    marks
}

#[test]
fn taps_tell_the_frames_at_which_each_pixel_changed() {
    let frames = video(450);
    let (netlist, taps) = run(&frames);
    let depth = 2 * frames.len() + 1;
    for c in 0..6usize {
        let (x, y) = (c % 3, c / 3);
        let mut expected = Vec::new();
        let mut last = false;
        for (i, frame) in frames.iter().enumerate() {
            let now = frame.pixel(x, 1 - y);
            if now != last {
                expected.push(i + 1);
            }
            last = now;
        }
        assert!(expected.contains(&200) || c != 0);
        assert_eq!(read_back(&netlist, depth, 2, taps[c]), expected);
    }
}

#[test]
fn every_column_gets_one_forced_delayer_each_200_frames() {
    for frames in [video(450), (0..450).map(|_| Frame::blank(3, 2).unwrap()).collect()] {
        let (netlist, _) = run(&frames);
        for c in 0..6i32 {
            let (x, y) = (c % 3, c / 3);
            let forced: Vec<_> = netlist
                .components
                .iter()
                .filter(|p| {
                    p.kind == ComponentKind::DelayElement
                        && p.position.x == 900 * x + 750
                        && p.parent == Some(BASE_ADDRESS + 1 + y as u32)
                })
                .map(|p| p.position.z)
                .collect();
            assert_eq!(forced, vec![1200 * 200 - 450, 1200 * 400 - 450]);
        }
    }
}

#[test]
fn still_video_adds_nothing_but_the_forced_delayers() {
    let frames: Vec<Frame> = (0..401).map(|_| Frame::blank(3, 2).unwrap()).collect();
    let (netlist, taps) = run(&frames);
    let depth = 2 * 401 + 1;
    assert_eq!(netlist.components.len(), 2 + 2 * depth + 6 + 2 * 6);
    assert_eq!(netlist.wires.len(), 2 * (depth - 1) + 2 * 6);
    for c in 0..6 {
        assert!(read_back(&netlist, depth, 2, taps[c]).is_empty());
    }
}
