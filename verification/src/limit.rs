//! The device memory limit: its grammar `g:<value>[/<n>:<value>]*` and its
//! check against the devices' memory. A value is a ratio of a device's
//! memory or a size; which values are ratios is decided by the caller, who
//! reads numbers with fractions.

use vstd::prelude::*;
use crate::text::{
    chars_of, eq_str, lowercase_of, parse_i32, parse_i32_spec, split, split_once, split_once_spec,
    split_spec, to_lowercase, trim, trim_of,
};
use crate::types::GlobalDeviceId;

verus! {

/// A limit: a ratio of a device's memory (of the caller's number type
/// `R`), or a number of bytes.
#[derive(Debug, Clone, Copy, PartialEq)]
pub enum DeviceLimitEntry<R> {
    Ratio(R),
    Absolute(u64),
}

/// The limit of every device, with overrides for some devices (no device
/// twice).
#[derive(Debug, Clone)]
pub struct DeviceLimit<R> {
    pub global: DeviceLimitEntry<R>,
    pub per_device: Vec<(GlobalDeviceId, DeviceLimitEntry<R>)>,
}

/// One `/`-separated piece of a limit text, trimmed: a key and a value
/// (each trimmed), or a piece without `:`.
#[derive(Debug, Clone)]
pub enum LimitPiece {
    MissingColon(Vec<char>),
    Pair(Vec<char>, Vec<char>),
}

/// A piece as plain values.
pub enum LimitPieceView {
    MissingColon(Seq<char>),
    Pair(Seq<char>, Seq<char>),
}

impl View for LimitPiece {
    type V = LimitPieceView;

    open spec fn view(&self) -> LimitPieceView {
        match self {
            LimitPiece::MissingColon(s) => LimitPieceView::MissingColon(s@),
            LimitPiece::Pair(k, v) => LimitPieceView::Pair(k@, v@),
        }
    }
}

/// Why a limit text was refused; `E` is the caller's reason for a value
/// it could not read.
#[derive(Debug, Clone)]
pub enum LimitError<E> {
    Empty,
    MissingColon(Vec<char>),
    InvalidValue(Vec<char>, E),
    DuplicateGlobal,
    DuplicateDevice(i32),
    InvalidKey(Vec<char>),
    MissingGlobal,
}

/// A refusal as plain values.
pub enum LimitErrorView<E> {
    Empty,
    MissingColon(Seq<char>),
    InvalidValue(Seq<char>, E),
    DuplicateGlobal,
    DuplicateDevice(i32),
    InvalidKey(Seq<char>),
    MissingGlobal,
}

impl<E> View for LimitError<E> {
    type V = LimitErrorView<E>;

    open spec fn view(&self) -> LimitErrorView<E> {
        match self {
            LimitError::Empty => LimitErrorView::Empty,
            LimitError::MissingColon(s) => LimitErrorView::MissingColon(s@),
            LimitError::InvalidValue(s, e) => LimitErrorView::InvalidValue(s@, *e),
            LimitError::DuplicateGlobal => LimitErrorView::DuplicateGlobal,
            LimitError::DuplicateDevice(i) => LimitErrorView::DuplicateDevice(*i),
            LimitError::InvalidKey(s) => LimitErrorView::InvalidKey(s@),
            LimitError::MissingGlobal => LimitErrorView::MissingGlobal,
        }
    }
}

/// A piece of a limit text, trimmed and split at its first `:`.
pub open spec fn spec_piece(e: Seq<char>) -> LimitPieceView {
    let t = trim_of(e);
    match split_once_spec(t, ":"@) {
        None => LimitPieceView::MissingColon(t),
        Some((k, v)) => LimitPieceView::Pair(trim_of(k), trim_of(v)),
    }
}

/// The pieces of a limit text: none if it is empty once trimmed.
pub open spec fn spec_pieces(s: Seq<char>) -> Option<Seq<LimitPieceView>> {
    let t = trim_of(s);
    if t.len() == 0 {
        None
    } else {
        Some(split_spec(t, '/').map_values(|e: Seq<char>| spec_piece(e)))
    }
}

/// Splits a limit text into its pieces (see `spec_pieces`); an empty text
/// is refused.
pub fn limit_pieces(s: &str) -> (r: Result<Vec<LimitPiece>, ()>)
    ensures
        match r {
            Ok(v) => spec_pieces(s@) is Some && v@.len() == spec_pieces(s@)->0.len()
                && forall|i: int| 0 <= i < v@.len() ==> (#[trigger] v@[i])@ == spec_pieces(s@)->0[i],
            Err(_) => spec_pieces(s@) is None,
        },
{
    let cs = chars_of(s);
    let t = trim(cs.as_slice());
    if t.len() == 0 {
        return Err(());
    }
    let colon = chars_of(":");
    proof { reveal_strlit(":"); }
    let parts = split(t.as_slice(), '/');
    let ghost sp = split_spec(t@, '/');
    let mut out: Vec<LimitPiece> = Vec::new();
    let mut i: usize = 0;
    while i < parts.len()
        invariant
            i <= parts@.len(),
            parts@.len() == sp.len(),
            colon@ == ":"@,
            colon@.len() == 1,
            forall|k: int| 0 <= k < sp.len() ==> (#[trigger] parts@[k])@ == sp[k],
            out@.len() == i,
            forall|k: int| 0 <= k < i ==> (#[trigger] out@[k])@ == spec_piece(sp[k]),
        decreases parts@.len() - i,
    {
        let e = trim(parts[i].as_slice());
        let piece = match split_once(e.as_slice(), colon.as_slice()) {
            None => LimitPiece::MissingColon(e),
            Some((k, v)) => LimitPiece::Pair(trim(k.as_slice()), trim(v.as_slice())),
        };
        out.push(piece);
        i += 1;
    }
    proof {
        assert forall|k: int| 0 <= k < out@.len() implies (#[trigger] out@[k])@ == spec_pieces(s@)->0[k] by {
            assert(spec_pieces(s@)->0[k] == spec_piece(sp[k]));
        }
    }
    Ok(out)
}

/// What has been gathered from the pieces read so far: the global limit,
/// the device overrides, and the refusals.
pub struct LimitAcc<R, E> {
    pub global: Option<DeviceLimitEntry<R>>,
    pub per_device: Seq<(GlobalDeviceId, DeviceLimitEntry<R>)>,
    pub errors: Seq<LimitErrorView<E>>,
}

/// Whether device `d` has an override in `per`.
pub open spec fn has_device<R>(per: Seq<(GlobalDeviceId, DeviceLimitEntry<R>)>, d: GlobalDeviceId) -> bool {
    exists|i: int| 0 <= i < per.len() && (#[trigger] per[i]).0 == d
}

/// What the key of a limit piece names.
#[derive(Debug, Clone, Copy, PartialEq, Eq, Structural)]
pub enum LimitKey {
    /// `g` or `global`.
    Global,
    /// A device index.
    Device(i32),
    /// Anything else.
    Invalid,
}

/// What lowercased key `key` names: the global limit for `g` or
/// `global`, the device it reads as an `i32`, else nothing valid.
pub open spec fn spec_limit_key(key: Seq<char>) -> LimitKey {
    if key == "g"@ || key == "global"@ {
        LimitKey::Global
    } else {
        match parse_i32_spec(key) {
            Some(idx) => LimitKey::Device(idx as i32),
            None => LimitKey::Invalid,
        }
    }
}

/// Reads lowercased key `key` (see `spec_limit_key`).
pub fn limit_key_lowercased(key: &[char]) -> (r: LimitKey)
    ensures
        r == spec_limit_key(key@),
{
    if eq_str(key, "g") || eq_str(key, "global") {
        LimitKey::Global
    } else {
        match parse_i32(key) {
            Some(idx) => LimitKey::Device(idx),
            None => LimitKey::Invalid,
        }
    }
}

/// The gathering after one more piece with its value: a piece without `:`
/// or with a value the caller could not read is refused; a global key
/// (`g` or `global`, in any case) sets the global limit unless already set;
/// a key that reads as an `i32` once lowercased sets that device's limit
/// unless already set; any other key is refused.
pub open spec fn spec_step<R, E>(acc: LimitAcc<R, E>, piece: LimitPieceView, value: Result<DeviceLimitEntry<R>, E>) -> LimitAcc<R, E> {
    match piece {
        LimitPieceView::MissingColon(t) => LimitAcc { errors: acc.errors.push(LimitErrorView::MissingColon(t)), ..acc },
        LimitPieceView::Pair(k, v) => match value {
            Err(e) => LimitAcc { errors: acc.errors.push(LimitErrorView::InvalidValue(v, e)), ..acc },
            Ok(limit) => match spec_limit_key(lowercase_of(k)) {
                LimitKey::Global => if acc.global is Some {
                    LimitAcc { errors: acc.errors.push(LimitErrorView::DuplicateGlobal), ..acc }
                } else {
                    LimitAcc { global: Some(limit), ..acc }
                },
                LimitKey::Device(idx) => if has_device(acc.per_device, GlobalDeviceId(idx)) {
                    LimitAcc { errors: acc.errors.push(LimitErrorView::DuplicateDevice(idx)), ..acc }
                } else {
                    LimitAcc { per_device: acc.per_device.push((GlobalDeviceId(idx), limit)), ..acc }
                },
                LimitKey::Invalid => LimitAcc { errors: acc.errors.push(LimitErrorView::InvalidKey(k)), ..acc },
            },
        },
    }
}

/// The gathering over the pieces `pieces` with their values, in order.
pub open spec fn spec_gather<R, E>(pieces: Seq<LimitPieceView>, values: Seq<Result<DeviceLimitEntry<R>, E>>) -> LimitAcc<R, E>
    decreases pieces.len(),
{
    if pieces.len() == 0 || values.len() < pieces.len() {
        LimitAcc { global: None, per_device: Seq::empty(), errors: Seq::empty() }
    } else {
        spec_step(
            spec_gather(pieces.drop_last(), values.take(pieces.len() - 1)),
            pieces.last(),
            values[pieces.len() - 1],
        )
    }
}

/// The limit read from the pieces with their values: all refusals, if
/// any; else a refusal for a missing global limit; else the limit.
pub open spec fn spec_assemble<R, E>(pieces: Seq<LimitPieceView>, values: Seq<Result<DeviceLimitEntry<R>, E>>) -> Result<(DeviceLimitEntry<R>, Seq<(GlobalDeviceId, DeviceLimitEntry<R>)>), Seq<LimitErrorView<E>>> {
    let acc = spec_gather(pieces, values);
    if acc.errors.len() > 0 {
        Err(acc.errors)
    } else if acc.global is None {
        Err(seq![LimitErrorView::MissingGlobal])
    } else {
        Ok((acc.global->0, acc.per_device))
    }
}

/// The refusals as plain values.
pub open spec fn errors_view<E>(v: Seq<LimitError<E>>) -> Seq<LimitErrorView<E>> {
    Seq::new(v.len(), |i: int| v[i]@)
}

/// A copy of `s`.
fn copy_chars(s: &Vec<char>) -> (c: Vec<char>)
    ensures
        c@ == s@,
{
    let c = crate::text::substring(s.as_slice(), 0, s.len());
    proof { assert(s@.subrange(0, s@.len() as int) =~= s@); }
    c
}

/// Whether device `d` has an override in `per`.
fn find_device_limit<R>(per: &Vec<(GlobalDeviceId, DeviceLimitEntry<R>)>, d: GlobalDeviceId) -> (found: bool)
    ensures
        found == has_device(per@, d),
{
    let mut i: usize = 0;
    while i < per.len()
        invariant
            i <= per@.len(),
            forall|k: int| 0 <= k < i ==> (#[trigger] per@[k]).0 != d,
        decreases per@.len() - i,
    {
        if per[i].0 == d {
            return true;
        }
        i += 1;
    }
    false
}

/// Reads a limit from its pieces and the caller's reading of each piece's
/// value (see `spec_assemble`; a piece without `:` has its value ignored).
pub fn assemble_device_limit<R, E>(pieces: &Vec<LimitPiece>, values: Vec<Result<DeviceLimitEntry<R>, E>>) -> (r: Result<DeviceLimit<R>, Vec<LimitError<E>>>)
    requires
        values@.len() == pieces@.len(),
    ensures
        match r {
            Ok(l) => spec_assemble(pieces@.map_values(|p: LimitPiece| p@), values@) == Ok::<(DeviceLimitEntry<R>, Seq<(GlobalDeviceId, DeviceLimitEntry<R>)>), Seq<LimitErrorView<E>>>((l.global, l.per_device@)),
            Err(es) => spec_assemble(pieces@.map_values(|p: LimitPiece| p@), values@) == Err::<(DeviceLimitEntry<R>, Seq<(GlobalDeviceId, DeviceLimitEntry<R>)>), Seq<LimitErrorView<E>>>(errors_view(es@)),
        },
{
    let ghost pv = pieces@.map_values(|p: LimitPiece| p@);
    let ghost vals = values@;
    let mut global: Option<DeviceLimitEntry<R>> = None;
    let mut per: Vec<(GlobalDeviceId, DeviceLimitEntry<R>)> = Vec::new();
    let mut errors: Vec<LimitError<E>> = Vec::new();
    let mut rest = values;
    let n = pieces.len();
    let mut i: usize = 0;
    while i < n
        invariant
            n == pieces@.len(),
            n == vals.len(),
            pv == pieces@.map_values(|p: LimitPiece| p@),
            i <= n,
            rest@ == vals.skip(i as int),
            ({
                let acc = spec_gather(pv.take(i as int), vals.take(i as int));
                &&& acc.global == global
                &&& acc.per_device == per@
                &&& acc.errors == errors_view(errors@)
            }),
        decreases n - i,
    {
        let ghost acc0 = spec_gather(pv.take(i as int), vals.take(i as int));
        proof {
            assert(pv.take(i + 1).drop_last() =~= pv.take(i as int));
            assert(vals.take(i + 1).take(i as int) =~= vals.take(i as int));
            assert(pv.take(i + 1).last() == pieces@[i as int]@);
            assert(vals.take(i + 1)[i as int] == vals[i as int]);
            assert(rest@[0] == vals[i as int]);
        }
        let value = rest.remove(0);
        let ghost ev0 = errors@;
        match &pieces[i] {
            LimitPiece::MissingColon(t) => {
                errors.push(LimitError::MissingColon(copy_chars(t)));
            },
            LimitPiece::Pair(k, v) => {
                match value {
                    Err(e) => {
                        errors.push(LimitError::InvalidValue(copy_chars(v), e));
                    },
                    Ok(limit) => {
                        let key = to_lowercase(k.as_slice());
                        match limit_key_lowercased(key.as_slice()) {
                            LimitKey::Global => {
                                if global.is_some() {
                                    errors.push(LimitError::DuplicateGlobal);
                                } else {
                                    global = Some(limit);
                                }
                            },
                            LimitKey::Device(idx) => {
                                if find_device_limit(&per, GlobalDeviceId(idx)) {
                                    errors.push(LimitError::DuplicateDevice(idx));
                                } else {
                                    per.push((GlobalDeviceId(idx), limit));
                                }
                            },
                            LimitKey::Invalid => {
                                errors.push(LimitError::InvalidKey(copy_chars(k)));
                            },
                        }
                    },
                }
            },
        }
        i += 1;
        proof {
            assert(rest@ =~= vals.skip(i as int));
            assert(errors_view(errors@) =~= spec_gather(pv.take(i as int), vals.take(i as int)).errors);
        }
    }
    proof {
        assert(pv.take(n as int) =~= pv);
        assert(vals.take(n as int) =~= vals);
    }
    if errors.len() > 0 {
        return Err(errors);
    }
    match global {
        Some(g) => Ok(DeviceLimit { global: g, per_device: per }),
        None => {
            let mut es: Vec<LimitError<E>> = Vec::new();
            es.push(LimitError::MissingGlobal);
            proof { assert(errors_view(es@) =~= seq![LimitErrorView::<E>::MissingGlobal]); }
            Err(es)
        },
    }
}

/// Why a limit does not fit the devices.
#[derive(Debug, Clone, Copy, PartialEq, Eq, Structural)]
pub enum LimitCheckError {
    /// An override names a device that does not exist.
    DeviceMissing { index: i32, available: usize },
    /// An override asks for more bytes than its device has.
    DeviceLimitTooLarge { index: i32, bytes: u64, memory_mb: usize },
    /// The global limit asks for more bytes than a device it covers has.
    GlobalLimitTooLarge { index: usize, bytes: u64, memory_mb: usize },
}

/// The bytes of a device of `mb` MiB.
pub open spec fn mb_bytes(mb: usize) -> int {
    mb * 1048576
}

/// What is wrong with the override `e` on devices of `mem` MiB, if
/// anything.
pub open spec fn override_error<R>(e: (GlobalDeviceId, DeviceLimitEntry<R>), mem: Seq<usize>) -> Option<LimitCheckError> {
    let idx = e.0.0;
    if idx < 0 || idx >= mem.len() {
        Some(LimitCheckError::DeviceMissing { index: idx, available: mem.len() as usize })
    } else {
        match e.1 {
            DeviceLimitEntry::Absolute(b) => if b > mb_bytes(mem[idx as int]) {
                Some(LimitCheckError::DeviceLimitTooLarge { index: idx, bytes: b, memory_mb: mem[idx as int] })
            } else {
                None
            },
            DeviceLimitEntry::Ratio(_) => None,
        }
    }
}

/// The first thing wrong with the overrides from position `i` on.
pub open spec fn first_override_error<R>(per: Seq<(GlobalDeviceId, DeviceLimitEntry<R>)>, mem: Seq<usize>, i: nat) -> Option<LimitCheckError>
    decreases per.len() - i,
{
    if i >= per.len() {
        None
    } else {
        match override_error(per[i as int], mem) {
            Some(e) => Some(e),
            None => first_override_error(per, mem, i + 1),
        }
    }
}

/// The first device from `i` on that the global limit of `b` bytes covers
/// and that has fewer bytes.
pub open spec fn first_global_error<R>(b: u64, per: Seq<(GlobalDeviceId, DeviceLimitEntry<R>)>, mem: Seq<usize>, i: nat) -> Option<LimitCheckError>
    decreases mem.len() - i,
{
    if i >= mem.len() {
        None
    } else if !has_device(per, GlobalDeviceId(i as i32)) && b > mb_bytes(mem[i as int]) {
        Some(LimitCheckError::GlobalLimitTooLarge { index: i as usize, bytes: b, memory_mb: mem[i as int] })
    } else {
        first_global_error(b, per, mem, i + 1)
    }
}

/// The check of a limit against devices of `mem` MiB: the overrides in
/// order, then the global limit against each device it covers, in order.
pub open spec fn spec_validate<R>(global: DeviceLimitEntry<R>, per: Seq<(GlobalDeviceId, DeviceLimitEntry<R>)>, mem: Seq<usize>) -> Option<LimitCheckError> {
    match first_override_error(per, mem, 0) {
        Some(e) => Some(e),
        None => match global {
            DeviceLimitEntry::Absolute(b) => first_global_error(b, per, mem, 0),
            DeviceLimitEntry::Ratio(_) => None,
        },
    }
}

/// Checks `limit` against devices of `device_memory_mb` MiB (see
/// `spec_validate`).
pub fn validate_device_limit<R>(limit: &DeviceLimit<R>, device_memory_mb: &Vec<usize>) -> (r: Result<(), LimitCheckError>)
    requires
        forall|i: int| 0 <= i < device_memory_mb@.len() ==> mb_bytes(#[trigger] device_memory_mb@[i]) <= u64::MAX,
        device_memory_mb@.len() <= i32::MAX,
    ensures
        match r {
            Ok(()) => spec_validate(limit.global, limit.per_device@, device_memory_mb@) is None,
            Err(e) => spec_validate(limit.global, limit.per_device@, device_memory_mb@) == Some(e),
        },
{
    let per = &limit.per_device;
    let mem = device_memory_mb;
    let n = per.len();
    let mut i: usize = 0;
    while i < n
        invariant
            i <= n,
            n == per@.len(),
            mem@.len() <= i32::MAX,
            forall|k: int| 0 <= k < mem@.len() ==> mb_bytes(#[trigger] mem@[k]) <= u64::MAX,
            first_override_error(per@, mem@, 0) == first_override_error(per@, mem@, i as nat),
            per@ == limit.per_device@,
            mem@ == device_memory_mb@,
        decreases n - i,
    {
        proof {
            assert(first_override_error(per@, mem@, i as nat) == match override_error(per@[i as int], mem@) {
                Some(e) => Some(e),
                None => first_override_error(per@, mem@, (i + 1) as nat),
            });
        }
        let d = per[i].0;
        if d.0 < 0 || d.0 as usize >= mem.len() {
            return Err(LimitCheckError::DeviceMissing { index: d.0, available: mem.len() });
        }
        let idx = d.0 as usize;
        match &per[i].1 {
            DeviceLimitEntry::Absolute(b) => {
                proof { assert(mb_bytes(mem@[idx as int]) <= u64::MAX); }
                let dev = (mem[idx] as u64) * 1048576;
                if *b > dev {
                    return Err(LimitCheckError::DeviceLimitTooLarge { index: d.0, bytes: *b, memory_mb: mem[idx] });
                }
            },
            DeviceLimitEntry::Ratio(_) => {},
        }
        i += 1;
    }
    proof {
        assert(first_override_error(per@, mem@, n as nat) is None);
    }
    match &limit.global {
        DeviceLimitEntry::Absolute(b) => {
            let m = mem.len();
            let mut j: usize = 0;
            while j < m
                invariant
                    j <= m,
                    m == mem@.len(),
                    m <= i32::MAX,
                    forall|k: int| 0 <= k < mem@.len() ==> mb_bytes(#[trigger] mem@[k]) <= u64::MAX,
                    first_global_error(*b, per@, mem@, 0) == first_global_error(*b, per@, mem@, j as nat),
                    per@ == limit.per_device@,
                    mem@ == device_memory_mb@,
                    first_override_error(per@, mem@, 0) is None,
                    limit.global == DeviceLimitEntry::<R>::Absolute(*b),
                decreases m - j,
            {
                let covered = !find_device_limit(per, GlobalDeviceId(j as i32));
                proof { assert(mb_bytes(mem@[j as int]) <= u64::MAX); }
                let dev = (mem[j] as u64) * 1048576;
                if covered && *b > dev {
                    return Err(LimitCheckError::GlobalLimitTooLarge { index: j, bytes: *b, memory_mb: mem[j] });
                }
                j += 1;
            }
            Ok(())
        },
        DeviceLimitEntry::Ratio(_) => Ok(()),
    }
}

} // verus!
