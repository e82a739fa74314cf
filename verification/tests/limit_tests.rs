use nixie::limit::{
    assemble_device_limit, limit_pieces, validate_device_limit, DeviceLimit, DeviceLimitEntry,
    LimitCheckError, LimitError, LimitPiece,
};
use nixie::parse::parse_size;
use nixie::types::GlobalDeviceId;

const GIB: u64 = 1024 * 1024 * 1024;

/// A value is a ratio when it reads as a float, else a size.
fn read_value(v: &[char]) -> Result<DeviceLimitEntry<f64>, String> {
    let s: String = v.iter().collect();
    if let Ok(ratio) = s.parse::<f64>() {
        if !(0.0..=1.0).contains(&ratio) {
            return Err(format!("ratio {} is out of range [0.0, 1.0]", ratio));
        }
        return Ok(DeviceLimitEntry::Ratio(ratio));
    }
    parse_size(&s).map(DeviceLimitEntry::Absolute).map_err(|e| format!("{:?}", e))
}

fn parse_device_limit(s: &str) -> Result<DeviceLimit<f64>, Vec<LimitError<String>>> {
    let pieces = match limit_pieces(s) {
        Ok(p) => p,
        Err(()) => return Err(vec![LimitError::Empty]),
    };
    let values = pieces
        .iter()
        .map(|p| match p {
            LimitPiece::Pair(_, v) => read_value(v),
            LimitPiece::MissingColon(_) => Err(String::new()),
        })
        .collect();
    assemble_device_limit(&pieces, values)
}

fn device_entry(dl: &DeviceLimit<f64>, d: i32) -> Option<DeviceLimitEntry<f64>> {
    dl.per_device.iter().find(|(k, _)| *k == GlobalDeviceId(d)).map(|(_, e)| *e)
}

#[test]
fn test_parse_device_limit_ratio() {
    let dl = parse_device_limit("g:0.95").unwrap();
    assert!(matches!(dl.global, DeviceLimitEntry::Ratio(r) if (r - 0.95).abs() < 1e-9));
    assert!(dl.per_device.is_empty());
}

#[test]
fn test_parse_device_limit_absolute() {
    let dl = parse_device_limit("g:31g").unwrap();
    assert!(matches!(dl.global, DeviceLimitEntry::Absolute(b) if b == 31 * 1024 * 1024 * 1024));
}

#[test]
fn test_parse_device_limit_per_device() {
    let dl = parse_device_limit("g:31g/3:24g").unwrap();
    assert!(matches!(dl.global, DeviceLimitEntry::Absolute(b) if b == 31 * 1024 * 1024 * 1024));
    assert!(
        matches!(device_entry(&dl, 3), Some(DeviceLimitEntry::Absolute(b)) if b == 24 * 1024 * 1024 * 1024)
    );
}

#[test]
fn test_parse_device_limit_missing_global() {
    assert!(parse_device_limit("3:24g").is_err());
}

#[test]
fn test_parse_device_limit_duplicate_global() {
    assert!(parse_device_limit("g:31g/g:24g").is_err());
}

#[test]
fn test_parse_device_limit_ratio_out_of_range() {
    assert!(parse_device_limit("g:2.0").is_err());
    assert!(parse_device_limit("g:-0.1").is_err());
}

#[test]
fn test_validate_device_limit_exceeds_memory() {
    let dl = parse_device_limit("g:999g").unwrap();
    assert!(validate_device_limit(&dl, &vec![24576]).is_err());
}

#[test]
fn test_validate_device_limit_index_out_of_range() {
    let dl = parse_device_limit("g:0.9/99:24g").unwrap();
    assert!(validate_device_limit(&dl, &vec![24576]).is_err());
}

#[test]
fn test_validate_device_limit_ok() {
    let dl = parse_device_limit("g:0.9/0:24g").unwrap();
    assert!(validate_device_limit(&dl, &vec![40960, 40960]).is_ok());
}

#[test]
fn limit_pieces_are_trimmed_and_split() {
    let pieces = limit_pieces("  G : 0.5 / 2:1g /oops ").unwrap();
    assert_eq!(pieces.len(), 3);
    match &pieces[0] {
        LimitPiece::Pair(k, v) => {
            assert_eq!(k.iter().collect::<String>(), "G");
            assert_eq!(v.iter().collect::<String>(), "0.5");
        }
        _ => panic!("expected a pair"),
    }
    assert!(matches!(&pieces[2], LimitPiece::MissingColon(t) if t.iter().collect::<String>() == "oops"));
    assert!(limit_pieces("   ").is_err());
}

#[test]
fn limit_errors_are_all_reported() {
    let errs = parse_device_limit("g:1g/x:2g/nocolon/1:bad/1:1g/1:2g/GLOBAL:3g").unwrap_err();
    assert_eq!(errs.len(), 5);
    assert!(matches!(&errs[0], LimitError::InvalidKey(k) if k.iter().collect::<String>() == "x"));
    assert!(matches!(&errs[1], LimitError::MissingColon(_)));
    assert!(matches!(&errs[2], LimitError::InvalidValue(v, _) if v.iter().collect::<String>() == "bad"));
    assert!(matches!(&errs[3], LimitError::DuplicateDevice(1)));
    assert!(matches!(&errs[4], LimitError::DuplicateGlobal));
    assert!(matches!(parse_device_limit("1:1g").unwrap_err()[0], LimitError::MissingGlobal));
    assert!(matches!(parse_device_limit("").unwrap_err()[0], LimitError::Empty));
}

#[test]
fn validation_reports_first_problem() {
    let dl = parse_device_limit("g:10g/1:30g").unwrap();
    assert_eq!(
        validate_device_limit(&dl, &vec![20480, 20480]),
        Err(LimitCheckError::DeviceLimitTooLarge { index: 1, bytes: 30 * GIB, memory_mb: 20480 })
    );
    let dl = parse_device_limit("g:30g/0:10g").unwrap();
    assert_eq!(
        validate_device_limit(&dl, &vec![20480, 20480]),
        Err(LimitCheckError::GlobalLimitTooLarge { index: 1, bytes: 30 * GIB, memory_mb: 20480 })
    );
    let dl = parse_device_limit("g:1g/-1:1g").unwrap();
    assert_eq!(
        validate_device_limit(&dl, &vec![20480]),
        Err(LimitCheckError::DeviceMissing { index: -1, available: 1 })
    );
    let dl = parse_device_limit("g:30g/0:10g/1:0.5").unwrap();
    assert!(validate_device_limit(&dl, &vec![20480, 20480]).is_ok());
}
