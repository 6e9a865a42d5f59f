use frame_netlist::frame::Frame;
use frame_netlist::generator::{generate, Generator, MAX_FRAMES, MAX_SIDE};
use frame_netlist::job::{GenerateError, Seed, TypeCatalog};
use frame_netlist::parts::ComponentKind;

fn full() -> TypeCatalog {
    TypeCatalog {
        board: Some(10),
        delay_element: Some(11),
        connector: Some(12),
        socket_connector: Some(13),
    }
}

fn seed(max_address: u32, max_cluster: u32) -> Seed {
    Seed { max_address, max_cluster, catalog: full() }
}

fn blank(width: usize, height: usize) -> Frame {
    Frame::blank(width, height).unwrap()
}

#[test]
fn no_frames_is_an_error() {
    assert_eq!(generate(&seed(0, 0), &Vec::new()), Err(GenerateError::NoFrames));
    assert_eq!(Generator::new(&seed(0, 0), 4, 4, 0).err(), Some(GenerateError::NoFrames));
}

#[test]
fn frame_of_another_size_is_an_error() {
    let frames = vec![blank(2, 2), blank(2, 2), blank(2, 3), blank(3, 2)];
    assert_eq!(
        generate(&seed(0, 0), &frames),
        Err(GenerateError::FrameSizeMismatch { frame: 2 })
    );
    let frames = vec![blank(2, 2), blank(4, 1)];
    assert_eq!(
        generate(&seed(0, 0), &frames),
        Err(GenerateError::FrameSizeMismatch { frame: 1 })
    );
}

#[test]
fn refused_frame_leaves_the_builder_as_it_was() {
    let mut generator = Generator::new(&seed(0, 0), 2, 2, 3).unwrap();
    generator.push_frame(&Frame::new(2, 2, vec![true, false, false, true]).unwrap()).unwrap();
    assert_eq!(
        generator.push_frame(&blank(3, 2)),
        Err(GenerateError::FrameSizeMismatch { frame: 1 })
    );
    assert_eq!(generator.frames_encoded(), 1);
    generator.push_frame(&blank(2, 2)).unwrap();
    generator.push_frame(&blank(2, 2)).unwrap();
    assert_eq!(generator.push_frame(&blank(2, 2)), Err(GenerateError::FrameOverrun));
    assert_eq!(generator.push_frame(&blank(5, 5)), Err(GenerateError::FrameOverrun));
    assert_eq!(generator.frames_encoded(), 3);
    let netlist = generator.finish();
    // 2 boards, 2 chains of 7, 4 sockets, and 2 changes in each of frames 1 and 2
    assert_eq!(netlist.components.len(), 2 + 14 + 4 + 4 + 4);
}

#[test]
fn missing_kind_is_an_error() {
    let frames = vec![blank(1, 1)];
    let mut catalog = full();
    catalog.socket_connector = None;
    let lacking = Seed { max_address: 0, max_cluster: 0, catalog };
    assert_eq!(
        generate(&lacking, &frames),
        Err(GenerateError::MissingType(ComponentKind::SocketConnector))
    );
    catalog.connector = None;
    let lacking = Seed { max_address: 0, max_cluster: 0, catalog };
    assert_eq!(
        generate(&lacking, &frames),
        Err(GenerateError::MissingType(ComponentKind::Connector))
    );
    catalog.delay_element = None;
    let lacking = Seed { max_address: 0, max_cluster: 0, catalog };
    assert_eq!(
        generate(&lacking, &frames),
        Err(GenerateError::MissingType(ComponentKind::DelayElement))
    );
    catalog.board = None;
    let lacking = Seed { max_address: 0, max_cluster: 0, catalog };
    assert_eq!(generate(&lacking, &frames), Err(GenerateError::MissingType(ComponentKind::Board)));
    // an empty video is reported before a lacking catalog
    assert_eq!(generate(&lacking, &Vec::new()), Err(GenerateError::NoFrames));
}

#[test]
fn catalog_tells_ids_and_the_first_missing_kind() {
    let catalog = full();
    assert_eq!(catalog.type_id(ComponentKind::Board), Some(10));
    assert_eq!(catalog.type_id(ComponentKind::DelayElement), Some(11));
    assert_eq!(catalog.type_id(ComponentKind::Connector), Some(12));
    assert_eq!(catalog.type_id(ComponentKind::SocketConnector), Some(13));
    assert_eq!(catalog.missing(), None);
    let lacking = TypeCatalog { delay_element: None, socket_connector: None, ..catalog };
    assert_eq!(lacking.missing(), Some(ComponentKind::DelayElement));
    assert_eq!(lacking.type_id(ComponentKind::SocketConnector), None);
}

#[test]
fn sizes_beyond_the_coordinates_are_an_error() {
    assert_eq!(
        Generator::new(&seed(0, 0), MAX_SIDE + 1, 1, 1).err(),
        Some(GenerateError::NumericRange)
    );
    assert_eq!(
        Generator::new(&seed(0, 0), 1, MAX_SIDE + 1, 1).err(),
        Some(GenerateError::NumericRange)
    );
    assert_eq!(
        Generator::new(&seed(0, 0), 1, 1, MAX_FRAMES + 1).err(),
        Some(GenerateError::NumericRange)
    );
    assert_eq!(
        Generator::new(&seed(0, 0), usize::MAX, usize::MAX, usize::MAX).err(),
        Some(GenerateError::NumericRange)
    );
    assert!(Generator::new(&seed(0, 0), 0, 0, 1).is_ok());
    assert_eq!(MAX_SIDE, 2_386_092);
    assert_eq!(MAX_FRAMES, 1_789_569);
    // a column as long as a chain may be: 2 * MAX_FRAMES + 1 steps of 600
    assert!((2 * MAX_FRAMES as i64 + 1) * 600 <= i32::MAX as i64);
    assert!((2 * MAX_FRAMES as i64 + 3) * 600 > i32::MAX as i64);
    assert!(300 * (1 + 3 * MAX_SIDE as i64) <= i32::MAX as i64);
    assert!(300 * (1 + 3 * (MAX_SIDE as i64 + 1)) > i32::MAX as i64);
}

#[test]
fn identifiers_that_would_run_out_are_an_error() {
    // 2 by 2 pixels, 1 frame: 2 * 4 + 4 * 3 = 20 addresses are set aside
    assert!(Generator::new(&seed(u32::MAX - 20, 0), 2, 2, 1).is_ok());
    assert_eq!(
        Generator::new(&seed(u32::MAX - 19, 0), 2, 2, 1).err(),
        Some(GenerateError::NumericRange)
    );
    // and 2 * 4 + 4 = 12 clusters are needed
    assert!(Generator::new(&seed(0, u32::MAX - 12), 2, 2, 1).is_ok());
    assert_eq!(
        Generator::new(&seed(0, u32::MAX - 11), 2, 2, 1).err(),
        Some(GenerateError::NumericRange)
    );
    let frames = vec![Frame::new(2, 2, vec![true, true, true, true]).unwrap()];
    let netlist = generate(&seed(u32::MAX - 20, u32::MAX - 12), &frames).unwrap();
    assert_eq!(netlist.max_address, u32::MAX);
    assert_eq!(netlist.max_cluster, u32::MAX);
}

#[test]
fn chunk_boundaries_count_among_the_clusters_needed() {
    // 1 pixel, 200 frames: 402 clusters for the chain, 1 for the socket,
    // 1 for the forced delayer of frame 200
    assert!(Generator::new(&seed(0, u32::MAX - 404), 1, 1, 200).is_ok());
    assert_eq!(
        Generator::new(&seed(0, u32::MAX - 403), 1, 1, 200).err(),
        Some(GenerateError::NumericRange)
    );
    assert!(Generator::new(&seed(0, u32::MAX - 403), 1, 1, 199).is_ok());
    let frames: Vec<Frame> = (0..200).map(|_| blank(1, 1)).collect();
    let netlist = generate(&seed(0, u32::MAX - 404), &frames).unwrap();
    assert_eq!(netlist.max_cluster, u32::MAX);
}

#[test]
fn errors_have_words() {
    assert_eq!(GenerateError::NoFrames.message(), "no frames found");
    assert_eq!(
        GenerateError::FrameSizeMismatch { frame: 3 }.message(),
        "frame does not match size of first frame"
    );
    assert_eq!(
        GenerateError::MissingType(ComponentKind::Board).message(),
        "target has no circuit board type"
    );
    assert_eq!(
        GenerateError::MissingType(ComponentKind::DelayElement).message(),
        "target has no delay element type"
    );
    assert_eq!(
        GenerateError::MissingType(ComponentKind::Connector).message(),
        "target has no connector type"
    );
    assert_eq!(
        GenerateError::MissingType(ComponentKind::SocketConnector).message(),
        "target has no socket type"
    );
    assert_eq!(GenerateError::NumericRange.message(), "size out of range");
    assert_eq!(GenerateError::FrameOverrun.message(), "more frames than announced");
}
