use nixie::parse::{
    microop_from_parts, parse_buffer_location, parse_buffer_location_lowercased, parse_move_op,
    parse_move_ops, parse_pid, parse_pid_lowercased, parse_size, size_from_parts, split_microop,
    split_move_op, MoveOperation, ParseError, ProcArgs,
};
use nixie::types::{BufferLocation, GlobalDeviceId};

#[test]
fn test_parse_move_op() {
    let op = parse_move_op("1100:gpu->shm=10g")
        .unwrap()
        .first()
        .unwrap()
        .clone();
    assert_eq!(
        op,
        MoveOperation {
            pid: ProcArgs {
                pid: Some(1100),
                idx: None
            },
            src: BufferLocation::Gpu(GlobalDeviceId(0)),
            dest: BufferLocation::Shm,
            size: 10 * 1024 * 1024 * 1024
        }
    );
    let op = parse_move_op("idx2:shm->gpu1=512m")
        .unwrap()
        .first()
        .unwrap()
        .clone();
    assert_eq!(
        op,
        MoveOperation {
            pid: ProcArgs {
                pid: None,
                idx: Some(2)
            },
            src: BufferLocation::Shm,
            dest: BufferLocation::Gpu(GlobalDeviceId(1)),
            size: 512 * 1024 * 1024
        }
    );
    let op = parse_move_op("i0:storage->hostmem=1g")
        .unwrap()
        .first()
        .unwrap()
        .clone();
    assert_eq!(
        op,
        MoveOperation {
            pid: ProcArgs {
                pid: None,
                idx: Some(0)
            },
            src: BufferLocation::Storage,
            dest: BufferLocation::HostMem,
            size: 1 * 1024 * 1024 * 1024
        }
    );
    let ops = parse_move_op("1100:gpu->shm=10g,shm->gpu=5g").unwrap();
    assert_eq!(ops.len(), 2);
    assert_eq!(
        ops[0],
        MoveOperation {
            pid: ProcArgs {
                pid: Some(1100),
                idx: None
            },
            src: BufferLocation::Gpu(GlobalDeviceId(0)),
            dest: BufferLocation::Shm,
            size: 10 * 1024 * 1024 * 1024
        }
    );
    assert_eq!(
        ops[1],
        MoveOperation {
            pid: ProcArgs {
                pid: Some(1100),
                idx: None
            },
            src: BufferLocation::Shm,
            dest: BufferLocation::Gpu(GlobalDeviceId(0)),
            size: 5 * 1024 * 1024 * 1024
        }
    );
}

#[test]
fn test_parse_move_ops() {
    let ops = parse_move_ops("1100:gpu->shm=10g,idx3:shm->gpu=5g").unwrap();
    assert_eq!(ops.len(), 2);
    assert_eq!(
        ops[0],
        MoveOperation {
            pid: ProcArgs {
                pid: Some(1100),
                idx: None
            },
            src: BufferLocation::Gpu(GlobalDeviceId(0)),
            dest: BufferLocation::Shm,
            size: 10 * 1024 * 1024 * 1024
        }
    );
    assert_eq!(
        ops[1],
        MoveOperation {
            pid: ProcArgs {
                pid: None,
                idx: Some(3)
            },
            src: BufferLocation::Shm,
            dest: BufferLocation::Gpu(GlobalDeviceId(0)),
            size: 5 * 1024 * 1024 * 1024
        }
    );
}

#[test]
fn pid_selectors() {
    assert_eq!(parse_pid("1100").unwrap(), ProcArgs { pid: Some(1100), idx: None });
    assert_eq!(parse_pid("IDX7").unwrap(), ProcArgs { pid: None, idx: Some(7) });
    assert_eq!(parse_pid("i0").unwrap(), ProcArgs { pid: None, idx: Some(0) });
    assert!(matches!(parse_pid("abc"), Err(ParseError::InvalidPid(_))));
    assert!(matches!(parse_pid(""), Err(ParseError::InvalidPid(_))));
}

#[test]
fn sizes_and_units() {
    assert_eq!(parse_size("1024").unwrap(), 1024);
    assert_eq!(parse_size(" 2k ").unwrap(), 2048);
    assert_eq!(parse_size("3MB").unwrap(), 3 * 1024 * 1024);
    assert_eq!(parse_size("1t").unwrap(), 1u64 << 40);
    assert!(matches!(parse_size("   "), Err(ParseError::EmptySize)));
    assert!(matches!(parse_size("g"), Err(ParseError::InvalidSizeNumber(_))));
    assert!(matches!(parse_size("10x"), Err(ParseError::InvalidSizeUnit(_))));
    assert!(matches!(parse_size("99999999999999999999"), Err(ParseError::SizeNumberTooLarge(_))));
}

#[test]
fn buffer_locations() {
    assert_eq!(parse_buffer_location("GPU").unwrap(), BufferLocation::Gpu(GlobalDeviceId(0)));
    assert_eq!(parse_buffer_location("gpu7").unwrap(), BufferLocation::Gpu(GlobalDeviceId(7)));
    assert_eq!(parse_buffer_location("disk").unwrap(), BufferLocation::Storage);
    assert_eq!(parse_buffer_location("host").unwrap(), BufferLocation::HostMem);
    assert!(matches!(parse_buffer_location("gpu8"), Err(ParseError::GpuIdOutOfRange(8))));
    assert!(matches!(parse_buffer_location("gpux"), Err(ParseError::InvalidGpuId(_))));
    assert!(matches!(parse_buffer_location("ram"), Err(ParseError::InvalidLocation(_))));
}

#[test]
fn move_order_errors() {
    assert!(matches!(parse_move_op("1100"), Err(ParseError::MissingColon(_))));
    assert!(matches!(parse_move_op("1100:gpu->shm"), Err(ParseError::MissingEquals(_))));
    assert!(matches!(parse_move_op("1100:gpu=1g"), Err(ParseError::MissingArrow(_))));
    assert!(matches!(parse_move_ops("1100:gpu->shm=1g,x:shm->gpu=1g"), Err(ParseError::InvalidPid(_))));
}

fn cs(s: &str) -> Vec<char> {
    s.chars().collect()
}

#[test]
fn grammar_pieces_on_given_text() {
    // Cutting an order and a movement.
    let (pid_str, pieces) = split_move_op(&cs("12:shm->gpu1=2m,host->shm=1k")).unwrap();
    assert_eq!(pid_str, cs("12"));
    assert_eq!(pieces, vec![cs("shm->gpu1=2m"), cs("host->shm=1k")]);
    assert!(matches!(split_move_op(&cs("shm->gpu")), Err(ParseError::MissingColon(_))));
    let (src, dest, size) = split_microop(&cs("shm->gpu1=2m")).unwrap();
    assert_eq!((src.clone(), dest.clone(), size.clone()), (cs("shm"), cs("gpu1"), cs("2m")));
    assert!(matches!(split_microop(&cs("shm->gpu1")), Err(ParseError::MissingEquals(_))));
    assert!(matches!(split_microop(&cs("shm=1")), Err(ParseError::MissingArrow(_))));
    // Reading the parts.
    let pid = parse_pid_lowercased(&cs("12")).unwrap();
    assert_eq!(pid, ProcArgs { pid: Some(12), idx: None });
    let op = microop_from_parts(pid, &src, &src, &dest, &dest, &size).unwrap();
    assert_eq!(op, MoveOperation { pid, src: BufferLocation::Shm, dest: BufferLocation::Gpu(GlobalDeviceId(1)), size: 2 * 1024 * 1024 });
    assert!(matches!(microop_from_parts(pid, &cs("x"), &cs("x"), &dest, &dest, &size), Err(ParseError::InvalidLocation(_))));
    assert_eq!(parse_buffer_location_lowercased(&cs("Disk"), &cs("disk")).unwrap(), BufferLocation::Storage);
    assert!(matches!(parse_buffer_location_lowercased(&cs("gpu9"), &cs("gpu9")), Err(ParseError::GpuIdOutOfRange(9))));
    assert_eq!(size_from_parts(&cs("3GB"), &cs("3"), &cs("gb")).unwrap(), 3 * 1024 * 1024 * 1024);
    assert!(matches!(size_from_parts(&cs("3x"), &cs("3"), &cs("x")), Err(ParseError::InvalidSizeUnit(_))));
}
