//! The grammars of the control tool: process selectors (`1100`, `idx2`,
//! `i0`), buffer locations (`gpu3`, `shm`, `hostmem`, `storage`), sizes
//! (`10g`, `512m`, `1024`) and migration orders
//! (`1100:gpu->shm=10g,shm->gpu=5g`).

use vstd::prelude::*;
use crate::text::{
    chars_of, digits_of, eq_str, lowercase_of, non_digits_of, parse_i32, parse_i32_spec,
    parse_unsigned, parse_unsigned_spec, partition_digits, split, split_once, split_once_spec,
    split_spec, strip_prefix, strip_prefix_spec, to_lowercase, trim, trim_of, all_digits,
    is_digit, decimal_value,
};
use crate::types::{BufferLocation, GlobalDeviceId};

verus! {

/// A process chosen either by its process id or by its index in the
/// daemon's list.
#[derive(Debug, Clone, Copy, PartialEq, Eq, Structural)]
pub struct ProcArgs {
    pub pid: Option<i32>,
    pub idx: Option<u32>,
}

impl ProcArgs {
    /// The selector of process 0.
    pub fn empty() -> (p: Self)
        ensures
            p == (ProcArgs { pid: Some(0i32), idx: None }),
    {
        ProcArgs { pid: Some(0), idx: None }
    }
}

/// One data movement ordered from the control tool.
#[derive(Debug, Clone, Copy, PartialEq, Eq, Structural)]
pub struct MoveOperation {
    pub pid: ProcArgs,
    pub src: BufferLocation,
    pub dest: BufferLocation,
    pub size: u64,
}

/// Why a command-line value was refused, with the text concerned.
#[derive(Debug, Clone)]
pub enum ParseError {
    InvalidPid(Vec<char>),
    MissingColon(Vec<char>),
    MissingEquals(Vec<char>),
    MissingArrow(Vec<char>),
    InvalidGpuId(Vec<char>),
    GpuIdOutOfRange(i32),
    InvalidLocation(Vec<char>),
    EmptySize,
    InvalidSizeNumber(Vec<char>),
    InvalidSizeUnit(Vec<char>),
    SizeNumberTooLarge(Vec<char>),
}

/// A parse error as plain values.
pub enum ParseErrorView {
    InvalidPid(Seq<char>),
    MissingColon(Seq<char>),
    MissingEquals(Seq<char>),
    MissingArrow(Seq<char>),
    InvalidGpuId(Seq<char>),
    GpuIdOutOfRange(i32),
    InvalidLocation(Seq<char>),
    EmptySize,
    InvalidSizeNumber(Seq<char>),
    InvalidSizeUnit(Seq<char>),
    SizeNumberTooLarge(Seq<char>),
}

impl View for ParseError {
    type V = ParseErrorView;

    open spec fn view(&self) -> ParseErrorView {
        match self {
            ParseError::InvalidPid(s) => ParseErrorView::InvalidPid(s@),
            ParseError::MissingColon(s) => ParseErrorView::MissingColon(s@),
            ParseError::MissingEquals(s) => ParseErrorView::MissingEquals(s@),
            ParseError::MissingArrow(s) => ParseErrorView::MissingArrow(s@),
            ParseError::InvalidGpuId(s) => ParseErrorView::InvalidGpuId(s@),
            ParseError::GpuIdOutOfRange(i) => ParseErrorView::GpuIdOutOfRange(*i),
            ParseError::InvalidLocation(s) => ParseErrorView::InvalidLocation(s@),
            ParseError::EmptySize => ParseErrorView::EmptySize,
            ParseError::InvalidSizeNumber(s) => ParseErrorView::InvalidSizeNumber(s@),
            ParseError::InvalidSizeUnit(s) => ParseErrorView::InvalidSizeUnit(s@),
            ParseError::SizeNumberTooLarge(s) => ParseErrorView::SizeNumberTooLarge(s@),
        }
    }
}

/// A parse result with its error as plain values.
pub open spec fn res_view<T>(r: Result<T, ParseError>) -> Result<T, ParseErrorView> {
    match r {
        Ok(v) => Ok(v),
        Err(e) => Err(e@),
    }
}

/// The characters after an `idx` or `i` prefix, or all of them.
pub open spec fn index_digits(l: Seq<char>) -> Seq<char> {
    match strip_prefix_spec(l, "idx"@) {
        Some(r) => r,
        None => match strip_prefix_spec(l, "i"@) {
            Some(r) => r,
            None => l,
        },
    }
}

/// A process selector read from lowercased text `l`: a process id, or an
/// index written with an optional `idx` or `i` prefix.
pub open spec fn spec_parse_pid(l: Seq<char>) -> Result<ProcArgs, ParseErrorView> {
    match parse_unsigned_spec(l, u32::MAX as int) {
        Some(v) => Ok(ProcArgs { pid: Some((v as u32) as i32), idx: None }),
        None => match parse_unsigned_spec(index_digits(l), u32::MAX as int) {
            Some(v) => Ok(ProcArgs { pid: None, idx: Some(v as u32) }),
            None => Err(ParseErrorView::InvalidPid(l)),
        },
    }
}

/// Reads a process selector from lowercased text (see `spec_parse_pid`).
pub fn parse_pid_lowercased(l: &[char]) -> (r: Result<ProcArgs, ParseError>)
    ensures
        res_view(r) == spec_parse_pid(l@),
{
    match parse_unsigned(l, u32::MAX as u64) {
        Some(v) => Ok(ProcArgs { pid: Some((v as u32) as i32), idx: None }),
        None => {
            let idx_lit = chars_of("idx");
            let i_lit = chars_of("i");
            let digits = match strip_prefix(l, idx_lit.as_slice()) {
                Some(r) => r,
                None => match strip_prefix(l, i_lit.as_slice()) {
                    Some(r) => r,
                    None => crate::text::substring(l, 0, l.len()),
                },
            };
            proof {
                assert(l@.subrange(0, l@.len() as int) =~= l@);
            }
            match parse_unsigned(digits.as_slice(), u32::MAX as u64) {
                Some(v) => Ok(ProcArgs { pid: None, idx: Some(v as u32) }),
                None => Err(ParseError::InvalidPid(crate::text::substring(l, 0, l.len()))),
            }
        },
    }
}

/// Reads a process selector: the text is lowercased, then read as
/// `parse_pid_lowercased` does.
pub fn parse_pid(s: &str) -> (r: Result<ProcArgs, ParseError>)
    ensures
        res_view(r) == spec_parse_pid(lowercase_of(s@)),
{
    let cs = chars_of(s);
    let l = to_lowercase(cs.as_slice());
    parse_pid_lowercased(l.as_slice())
}

/// A buffer location read from text `s` whose lowercased form is `l`.
pub open spec fn spec_parse_buffer_location(s: Seq<char>, l: Seq<char>) -> Result<BufferLocation, ParseErrorView> {
    if l == "gpu"@ {
        Ok(BufferLocation::Gpu(GlobalDeviceId(0)))
    } else if strip_prefix_spec(l, "gpu"@) is Some {
        let id_str = strip_prefix_spec(l, "gpu"@)->0;
        match parse_i32_spec(id_str) {
            None => Err(ParseErrorView::InvalidGpuId(id_str)),
            Some(id) => if 0 <= id < 8 {
                Ok(BufferLocation::Gpu(GlobalDeviceId(id as i32)))
            } else {
                Err(ParseErrorView::GpuIdOutOfRange(id as i32))
            },
        }
    } else if l == "host"@ || l == "hostmem"@ {
        Ok(BufferLocation::HostMem)
    } else if l == "shm"@ {
        Ok(BufferLocation::Shm)
    } else if l == "storage"@ || l == "disk"@ {
        Ok(BufferLocation::Storage)
    } else {
        Err(ParseErrorView::InvalidLocation(s))
    }
}

/// Every name of a location reads as that location, whatever the text
/// was before lowercasing: `gpu` is device 0, `host` and `hostmem` host
/// memory, `shm` shared memory, and `storage` and `disk` storage.
pub proof fn lemma_location_names(s: Seq<char>)
    ensures
        spec_parse_buffer_location(s, "gpu"@) == Ok::<BufferLocation, ParseErrorView>(BufferLocation::Gpu(GlobalDeviceId(0))),
        spec_parse_buffer_location(s, "host"@) == Ok::<BufferLocation, ParseErrorView>(BufferLocation::HostMem),
        spec_parse_buffer_location(s, "hostmem"@) == Ok::<BufferLocation, ParseErrorView>(BufferLocation::HostMem),
        spec_parse_buffer_location(s, "shm"@) == Ok::<BufferLocation, ParseErrorView>(BufferLocation::Shm),
        spec_parse_buffer_location(s, "storage"@) == Ok::<BufferLocation, ParseErrorView>(BufferLocation::Storage),
        spec_parse_buffer_location(s, "disk"@) == Ok::<BufferLocation, ParseErrorView>(BufferLocation::Storage),
{
    reveal_strlit("gpu");
    reveal_strlit("host");
    reveal_strlit("hostmem");
    reveal_strlit("shm");
    reveal_strlit("storage");
    reveal_strlit("disk");
    let g = "gpu"@;
    assert("host"@[0] != g[0] && "hostmem"@[0] != g[0] && "shm"@[0] != g[0] && "storage"@[0] != g[0] && "disk"@[0] != g[0]);
    assert("host"@.subrange(0, 3)[0] != g[0]);
    assert("hostmem"@.subrange(0, 3)[0] != g[0]);
    assert("shm"@.subrange(0, 3)[0] != g[0]);
    assert("storage"@.subrange(0, 3)[0] != g[0]);
    assert("disk"@.subrange(0, 3)[0] != g[0]);
    assert("shm"@[0] != "host"@[0] && "shm"@.len() != "hostmem"@.len());
    assert("storage"@[0] != "host"@[0] && "storage"@[0] != "hostmem"@[0] && "storage"@.len() != "shm"@.len());
    assert("disk"@[0] != "host"@[0] && "disk"@.len() != "hostmem"@.len() && "disk"@.len() != "shm"@.len() && "disk"@[0] != "storage"@[0]);
    assert("hostmem"@.len() != "host"@.len());
}

/// Reads a buffer location from `s` given its lowercased form `l` (see
/// `spec_parse_buffer_location`).
pub fn parse_buffer_location_lowercased(s: &[char], l: &[char]) -> (r: Result<BufferLocation, ParseError>)
    ensures
        res_view(r) == spec_parse_buffer_location(s@, l@),
{
    if eq_str(l, "gpu") {
        return Ok(BufferLocation::Gpu(GlobalDeviceId(0)));
    }
    let gpu_lit = chars_of("gpu");
    match strip_prefix(l, gpu_lit.as_slice()) {
        Some(id_str) => {
            return match parse_i32(id_str.as_slice()) {
                None => Err(ParseError::InvalidGpuId(id_str)),
                Some(id) => {
                    if 0 <= id && id < 8 {
                        Ok(BufferLocation::Gpu(GlobalDeviceId(id)))
                    } else {
                        Err(ParseError::GpuIdOutOfRange(id))
                    }
                },
            };
        },
        None => {},
    }
    if eq_str(l, "host") || eq_str(l, "hostmem") {
        Ok(BufferLocation::HostMem)
    } else if eq_str(l, "shm") {
        Ok(BufferLocation::Shm)
    } else if eq_str(l, "storage") || eq_str(l, "disk") {
        Ok(BufferLocation::Storage)
    } else {
        let n = s.len();
        let copy = crate::text::substring(s, 0, n);
        proof { assert(copy@ =~= s@); }
        Err(ParseError::InvalidLocation(copy))
    }
}

/// Reads a buffer location from the characters `s` (see
/// `parse_buffer_location`).
fn parse_buffer_location_chars(s: &[char]) -> (r: Result<BufferLocation, ParseError>)
    ensures
        res_view(r) == spec_parse_buffer_location(s@, lowercase_of(s@)),
{
    let l = to_lowercase(s);
    parse_buffer_location_lowercased(s, l.as_slice())
}

/// Reads a buffer location (`gpu`, `gpu<n>` for n below 8, `host` or
/// `hostmem`, `shm`, `storage` or `disk`): the text is lowercased, then
/// read as `parse_buffer_location_lowercased` does.
pub fn parse_buffer_location(s: &str) -> (r: Result<BufferLocation, ParseError>)
    ensures
        res_view(r) == spec_parse_buffer_location(s@, lowercase_of(s@)),
{
    let cs = chars_of(s);
    parse_buffer_location_chars(cs.as_slice())
}


/// The factor a lowercased size unit stands for.
pub open spec fn unit_multiplier(u: Seq<char>) -> Option<u64> {
    if u.len() == 0 {
        Some(1u64)
    } else if u == "k"@ || u == "kb"@ {
        Some(1024u64)
    } else if u == "m"@ || u == "mb"@ {
        Some(0x10_0000u64)
    } else if u == "g"@ || u == "gb"@ {
        Some(0x4000_0000u64)
    } else if u == "t"@ || u == "tb"@ {
        Some(0x100_0000_0000u64)
    } else {
        None
    }
}

/// A size read from trimmed text `t` whose digits are `num` and whose
/// lowercased other characters are `unit`: the number times the unit's
/// factor, wrapping at 2^64.
pub open spec fn spec_size_from_parts(t: Seq<char>, num: Seq<char>, unit: Seq<char>) -> Result<u64, ParseErrorView> {
    if t.len() == 0 {
        Err(ParseErrorView::EmptySize)
    } else if num.len() == 0 {
        Err(ParseErrorView::InvalidSizeNumber(t))
    } else {
        match unit_multiplier(unit) {
            None => Err(ParseErrorView::InvalidSizeUnit(t)),
            Some(m) => match parse_unsigned_spec(num, u64::MAX as int) {
                None => Err(ParseErrorView::SizeNumberTooLarge(num)),
                Some(n) => Ok(((n * m) % 0x1_0000_0000_0000_0000) as u64),
            },
        }
    }
}

/// A size read from trimmed text `t`: its digits make the number, its
/// other characters, lowercased, the unit.
pub open spec fn spec_parse_size_trimmed(t: Seq<char>) -> Result<u64, ParseErrorView> {
    spec_size_from_parts(t, digits_of(t), lowercase_of(non_digits_of(t)))
}

/// Every size unit, with or without its `b`, stands for its power of
/// 1024: a size with digits `num` (read as `n`) and unit `k`/`kb`,
/// `m`/`mb`, `g`/`gb` or `t`/`tb` is `n` times 1024, 1024², 1024³ or
/// 1024⁴ (wrapping at 2^64), and a size with no unit is `n` itself.
pub proof fn lemma_size_units(t: Seq<char>, num: Seq<char>, n: int)
    requires
        t.len() > 0,
        num.len() > 0,
        parse_unsigned_spec(num, u64::MAX as int) == Some(n),
    ensures
        spec_size_from_parts(t, num, Seq::empty()) == Ok::<u64, ParseErrorView>(n as u64),
        spec_size_from_parts(t, num, "k"@) == Ok::<u64, ParseErrorView>(((n * 1024) % 0x1_0000_0000_0000_0000) as u64),
        spec_size_from_parts(t, num, "kb"@) == Ok::<u64, ParseErrorView>(((n * 1024) % 0x1_0000_0000_0000_0000) as u64),
        spec_size_from_parts(t, num, "m"@) == Ok::<u64, ParseErrorView>(((n * 1048576) % 0x1_0000_0000_0000_0000) as u64),
        spec_size_from_parts(t, num, "mb"@) == Ok::<u64, ParseErrorView>(((n * 1048576) % 0x1_0000_0000_0000_0000) as u64),
        spec_size_from_parts(t, num, "g"@) == Ok::<u64, ParseErrorView>(((n * 1073741824) % 0x1_0000_0000_0000_0000) as u64),
        spec_size_from_parts(t, num, "gb"@) == Ok::<u64, ParseErrorView>(((n * 1073741824) % 0x1_0000_0000_0000_0000) as u64),
        spec_size_from_parts(t, num, "t"@) == Ok::<u64, ParseErrorView>(((n * 1099511627776) % 0x1_0000_0000_0000_0000) as u64),
        spec_size_from_parts(t, num, "tb"@) == Ok::<u64, ParseErrorView>(((n * 1099511627776) % 0x1_0000_0000_0000_0000) as u64),
{
    reveal_strlit("k");
    reveal_strlit("kb");
    reveal_strlit("m");
    reveal_strlit("mb");
    reveal_strlit("g");
    reveal_strlit("gb");
    reveal_strlit("t");
    reveal_strlit("tb");
    assert(0 <= n <= u64::MAX);
    assert((n * 1) % 0x1_0000_0000_0000_0000 == n);
    assert("m"@[0] != "k"@[0] && "m"@.len() != "kb"@.len());
    assert("mb"@.len() != "k"@.len() && "mb"@[0] != "kb"@[0]);
    assert("g"@[0] != "k"@[0] && "g"@[0] != "m"@[0] && "g"@.len() != "kb"@.len() && "g"@.len() != "mb"@.len());
    assert("gb"@.len() != "k"@.len() && "gb"@[0] != "kb"@[0] && "gb"@.len() != "m"@.len() && "gb"@[0] != "mb"@[0]);
    assert("t"@[0] != "k"@[0] && "t"@[0] != "m"@[0] && "t"@[0] != "g"@[0]);
    assert("tb"@[0] != "kb"@[0] && "tb"@[0] != "mb"@[0] && "tb"@[0] != "gb"@[0]);
    assert(unit_multiplier("m"@) == Some(0x10_0000u64));
    assert(unit_multiplier("mb"@) == Some(0x10_0000u64));
}

/// Keeping the characters of `s` that pass `p`, when all of them pass,
/// keeps `s` whole.
proof fn lemma_filter_keeps_all(s: Seq<char>, p: spec_fn(char) -> bool)
    requires
        forall|i: int| 0 <= i < s.len() ==> p(#[trigger] s[i]),
    ensures
        s.filter(p) == s,
    decreases s.len(),
{
    reveal(Seq::filter);
    if s.len() > 0 {
        lemma_filter_keeps_all(s.drop_last(), p);
        assert(s.drop_last().push(s.last()) =~= s);
    }
}

/// Keeping the characters of `s` that pass `p`, when none of them passes,
/// keeps nothing.
proof fn lemma_filter_keeps_none(s: Seq<char>, p: spec_fn(char) -> bool)
    requires
        forall|i: int| 0 <= i < s.len() ==> !p(#[trigger] s[i]),
    ensures
        s.filter(p) == Seq::<char>::empty(),
    decreases s.len(),
{
    reveal(Seq::filter);
    if s.len() > 0 {
        lemma_filter_keeps_none(s.drop_last(), p);
    }
}

/// A size written as decimal digits `num` followed by a unit `u` with no
/// digit in it reads as the value of `num` times the factor of `u`
/// lowercased: `1024kb` and `1024k` both give 1024 · 1024, `10g` gives
/// 10 · 1024³, and a unit that is no size unit is refused with the text.
pub proof fn lemma_parse_size_number_then_unit(num: Seq<char>, u: Seq<char>)
    requires
        num.len() > 0,
        all_digits(num),
        decimal_value(num) <= u64::MAX,
        forall|i: int| 0 <= i < u.len() ==> !is_digit(#[trigger] u[i]),
    ensures
        spec_parse_size_trimmed(num + u) == spec_size_from_parts(num + u, num, lowercase_of(u)),
        lowercase_of(u) == "k"@ || lowercase_of(u) == "kb"@ ==> spec_parse_size_trimmed(num + u)
            == Ok::<u64, ParseErrorView>(((decimal_value(num) * 1024) % 0x1_0000_0000_0000_0000) as u64),
        lowercase_of(u) == "m"@ || lowercase_of(u) == "mb"@ ==> spec_parse_size_trimmed(num + u)
            == Ok::<u64, ParseErrorView>(((decimal_value(num) * 1048576) % 0x1_0000_0000_0000_0000) as u64),
        lowercase_of(u) == "g"@ || lowercase_of(u) == "gb"@ ==> spec_parse_size_trimmed(num + u)
            == Ok::<u64, ParseErrorView>(((decimal_value(num) * 1073741824) % 0x1_0000_0000_0000_0000) as u64),
        lowercase_of(u) == "t"@ || lowercase_of(u) == "tb"@ ==> spec_parse_size_trimmed(num + u)
            == Ok::<u64, ParseErrorView>(((decimal_value(num) * 1099511627776) % 0x1_0000_0000_0000_0000) as u64),
        unit_multiplier(lowercase_of(u)) is None ==> spec_parse_size_trimmed(num + u)
            == Err::<u64, ParseErrorView>(ParseErrorView::InvalidSizeUnit(num + u)),
{
    let dig = |c: char| is_digit(c);
    let non = |c: char| !is_digit(c);
    Seq::filter_distributes_over_add(num, u, dig);
    Seq::filter_distributes_over_add(num, u, non);
    lemma_filter_keeps_all(num, dig);
    lemma_filter_keeps_none(u, dig);
    lemma_filter_keeps_none(num, non);
    lemma_filter_keeps_all(u, non);
    assert(digits_of(num + u) =~= num);
    assert(non_digits_of(num + u) =~= u);
    assert(is_digit(num[0]));
    assert(parse_unsigned_spec(num, u64::MAX as int) == Some(decimal_value(num) as int));
    lemma_size_units(num + u, num, decimal_value(num) as int);
}

/// The factor of a lowercased size unit.
fn multiplier_of(u: &[char]) -> (m: Option<u64>)
    ensures
        m == unit_multiplier(u@),
{
    if u.len() == 0 {
        Some(1)
    } else if eq_str(u, "k") || eq_str(u, "kb") {
        Some(1024)
    } else if eq_str(u, "m") || eq_str(u, "mb") {
        Some(1024 * 1024)
    } else if eq_str(u, "g") || eq_str(u, "gb") {
        Some(1024 * 1024 * 1024)
    } else if eq_str(u, "t") || eq_str(u, "tb") {
        Some(1024 * 1024 * 1024 * 1024)
    } else {
        None
    }
}

/// Reads a size from trimmed text `t` given its digits `num` and its
/// lowercased unit (see `spec_size_from_parts`).
pub fn size_from_parts(t: &[char], num: &[char], unit: &[char]) -> (r: Result<u64, ParseError>)
    ensures
        res_view(r) == spec_size_from_parts(t@, num@, unit@),
{
    if t.len() == 0 {
        return Err(ParseError::EmptySize);
    }
    if num.len() == 0 {
        let copy = crate::text::substring(t, 0, t.len());
        proof { assert(copy@ =~= t@); }
        return Err(ParseError::InvalidSizeNumber(copy));
    }
    let m = match multiplier_of(unit) {
        Some(m) => m,
        None => {
            let copy = crate::text::substring(t, 0, t.len());
            proof { assert(copy@ =~= t@); }
            return Err(ParseError::InvalidSizeUnit(copy));
        },
    };
    match parse_unsigned(num, u64::MAX) {
        None => {
            let copy = crate::text::substring(num, 0, num.len());
            proof { assert(copy@ =~= num@); }
            Err(ParseError::SizeNumberTooLarge(copy))
        },
        Some(n) => {
            let v = n.wrapping_mul(m);
            Ok(v)
        },
    }
}

/// Reads a size from trimmed text (see `spec_parse_size_trimmed`).
pub fn parse_size_trimmed(t: &[char]) -> (r: Result<u64, ParseError>)
    ensures
        res_view(r) == spec_parse_size_trimmed(t@),
{
    let (num, unit) = partition_digits(t);
    let unit_lower = to_lowercase(unit.as_slice());
    size_from_parts(t, num.as_slice(), unit_lower.as_slice())
}

/// Reads a size such as `10g`, `512m`, `1024kb` or `4096`: the text is
/// trimmed, then read as `parse_size_trimmed` does.
pub fn parse_size(s: &str) -> (r: Result<u64, ParseError>)
    ensures
        res_view(r) == spec_parse_size_trimmed(trim_of(s@)),
{
    let cs = chars_of(s);
    let t = trim(cs.as_slice());
    parse_size_trimmed(t.as_slice())
}


/// Lowercased text `l` of one movement cut into its source, destination
/// and size texts: `src->dest=size`.
pub open spec fn spec_split_microop(l: Seq<char>) -> Result<(Seq<char>, Seq<char>, Seq<char>), ParseErrorView> {
    match split_once_spec(l, "="@) {
        None => Err(ParseErrorView::MissingEquals(l)),
        Some((path, size_str)) => match split_once_spec(path, "->"@) {
            None => Err(ParseErrorView::MissingArrow(l)),
            Some((src, dest)) => Ok((src, dest, size_str)),
        },
    }
}

/// One movement of process `pid` from its source text `src` (lowercased
/// `src_l`), destination text `dest` (lowercased `dest_l`) and trimmed
/// size text `size_t`.
pub open spec fn spec_microop_from_parts(pid: ProcArgs, src: Seq<char>, src_l: Seq<char>, dest: Seq<char>, dest_l: Seq<char>, size_t: Seq<char>) -> Result<MoveOperation, ParseErrorView> {
    match spec_parse_buffer_location(src, src_l) {
        Err(e) => Err(e),
        Ok(a) => match spec_parse_buffer_location(dest, dest_l) {
            Err(e) => Err(e),
            Ok(b) => match spec_parse_size_trimmed(size_t) {
                Err(e) => Err(e),
                Ok(n) => Ok(MoveOperation { pid, src: a, dest: b, size: n }),
            },
        },
    }
}

/// One movement `src->dest=size` of process `pid`, read from trimmed text
/// `s` (lowercased first; locations and size read as their own readers
/// do).
pub open spec fn spec_parse_microop(pid: ProcArgs, s: Seq<char>) -> Result<MoveOperation, ParseErrorView> {
    match spec_split_microop(lowercase_of(s)) {
        Err(e) => Err(e),
        Ok((src, dest, size_str)) => spec_microop_from_parts(pid, src, lowercase_of(src), dest, lowercase_of(dest), trim_of(size_str)),
    }
}

/// `done` followed by the movements of `rest`, or the error of `rest`.
pub open spec fn prepend_ops(done: Seq<MoveOperation>, rest: Result<Seq<MoveOperation>, ParseErrorView>) -> Result<Seq<MoveOperation>, ParseErrorView> {
    match rest {
        Ok(ops) => Ok(done + ops),
        Err(e) => Err(e),
    }
}

/// The movements of process `pid` read from each piece (trimmed) in
/// order, or the first error.
pub open spec fn spec_collect_microops(pid: ProcArgs, pieces: Seq<Seq<char>>) -> Result<Seq<MoveOperation>, ParseErrorView>
    decreases pieces.len(),
{
    if pieces.len() == 0 {
        Ok(Seq::empty())
    } else {
        match spec_parse_microop(pid, trim_of(pieces[0])) {
            Err(e) => Err(e),
            Ok(op) => prepend_ops(seq![op], spec_collect_microops(pid, pieces.drop_first())),
        }
    }
}

/// Lowercased text `l` of a migration order cut into its process text and
/// its movement pieces: `pid:move,move,...`.
pub open spec fn spec_split_move_op(l: Seq<char>) -> Result<(Seq<char>, Seq<Seq<char>>), ParseErrorView> {
    match split_once_spec(l, ":"@) {
        None => Err(ParseErrorView::MissingColon(l)),
        Some((pid_str, rest)) => Ok((pid_str, split_spec(rest, ','))),
    }
}

/// A migration order `pid:move,move,...` read from lowercased text `l`.
pub open spec fn spec_parse_move_op_lowercased(l: Seq<char>) -> Result<Seq<MoveOperation>, ParseErrorView> {
    match spec_split_move_op(l) {
        Err(e) => Err(e),
        Ok((pid_str, pieces)) => match spec_parse_pid(lowercase_of(pid_str)) {
            Err(e) => Err(e),
            Ok(pid) => spec_collect_microops(pid, pieces),
        },
    }
}

/// The movements of each order read from each piece (trimmed) in order,
/// concatenated, or the first error.
pub open spec fn spec_collect_move_ops(pieces: Seq<Seq<char>>) -> Result<Seq<MoveOperation>, ParseErrorView>
    decreases pieces.len(),
{
    if pieces.len() == 0 {
        Ok(Seq::empty())
    } else {
        match spec_parse_move_op_lowercased(lowercase_of(trim_of(pieces[0]))) {
            Err(e) => Err(e),
            Ok(ops) => prepend_ops(ops, spec_collect_move_ops(pieces.drop_first())),
        }
    }
}

/// A result of movements with its error as plain values.
pub open spec fn ops_view(r: Result<Vec<MoveOperation>, ParseError>) -> Result<Seq<MoveOperation>, ParseErrorView> {
    match r {
        Ok(v) => Ok(v@),
        Err(e) => Err(e@),
    }
}

proof fn lemma_prepend_assoc(a: Seq<MoveOperation>, b: Seq<MoveOperation>, r: Result<Seq<MoveOperation>, ParseErrorView>)
    ensures
        prepend_ops(a, prepend_ops(b, r)) == prepend_ops(a + b, r),
{
    match r {
        Ok(ops) => {
            assert(a + (b + ops) =~= (a + b) + ops);
        },
        Err(_) => {},
    }
}

/// Cuts lowercased text `l` of one movement into its parts (see
/// `spec_split_microop`).
pub fn split_microop(l: &[char]) -> (r: Result<(Vec<char>, Vec<char>, Vec<char>), ParseError>)
    ensures
        match r {
            Ok((a, b, c)) => spec_split_microop(l@) == Ok::<(Seq<char>, Seq<char>, Seq<char>), ParseErrorView>((a@, b@, c@)),
            Err(e) => spec_split_microop(l@) == Err::<(Seq<char>, Seq<char>, Seq<char>), ParseErrorView>(e@),
        },
{
    let eq_lit = chars_of("=");
    let arrow_lit = chars_of("->");
    proof {
        reveal_strlit("=");
        reveal_strlit("->");
    }
    let (path, size_str) = match split_once(l, eq_lit.as_slice()) {
        Some(p) => p,
        None => {
            let copy = crate::text::substring(l, 0, l.len());
            proof { assert(copy@ =~= l@); }
            return Err(ParseError::MissingEquals(copy));
        },
    };
    match split_once(path.as_slice(), arrow_lit.as_slice()) {
        Some((src, dest)) => Ok((src, dest, size_str)),
        None => {
            let copy = crate::text::substring(l, 0, l.len());
            proof { assert(copy@ =~= l@); }
            Err(ParseError::MissingArrow(copy))
        },
    }
}

/// Reads one movement of process `pid` from its parts, each already
/// lowercased or trimmed as it is read (see `spec_microop_from_parts`).
pub fn microop_from_parts(pid: ProcArgs, src: &[char], src_l: &[char], dest: &[char], dest_l: &[char], size_t: &[char]) -> (r: Result<MoveOperation, ParseError>)
    ensures
        res_view(r) == spec_microop_from_parts(pid, src@, src_l@, dest@, dest_l@, size_t@),
{
    let a = match parse_buffer_location_lowercased(src, src_l) {
        Ok(a) => a,
        Err(e) => {
            return Err(e);
        },
    };
    let b = match parse_buffer_location_lowercased(dest, dest_l) {
        Ok(b) => b,
        Err(e) => {
            return Err(e);
        },
    };
    let n = match parse_size_trimmed(size_t) {
        Ok(n) => n,
        Err(e) => {
            return Err(e);
        },
    };
    Ok(MoveOperation { pid, src: a, dest: b, size: n })
}

/// Reads one movement of process `pid` (see `spec_parse_microop`).
pub fn parse_move_op_microop(pid: ProcArgs, s: &[char]) -> (r: Result<MoveOperation, ParseError>)
    ensures
        res_view(r) == spec_parse_microop(pid, s@),
{
    let l = to_lowercase(s);
    let (src, dest, size_str) = match split_microop(l.as_slice()) {
        Ok(p) => p,
        Err(e) => {
            return Err(e);
        },
    };
    let src_l = to_lowercase(src.as_slice());
    let dest_l = to_lowercase(dest.as_slice());
    let t = trim(size_str.as_slice());
    microop_from_parts(pid, src.as_slice(), src_l.as_slice(), dest.as_slice(), dest_l.as_slice(), t.as_slice())
}

proof fn lemma_collect_microops_step(pid: ProcArgs, sp: Seq<Seq<char>>, i: int)
    requires
        0 <= i < sp.len(),
    ensures
        spec_collect_microops(pid, sp.subrange(i, sp.len() as int)) == match spec_parse_microop(pid, trim_of(sp[i])) {
            Err(e) => Err(e),
            Ok(op) => prepend_ops(seq![op], spec_collect_microops(pid, sp.subrange(i + 1, sp.len() as int))),
        },
{
    let rest = sp.subrange(i, sp.len() as int);
    assert(rest[0] == sp[i]);
    assert(rest.drop_first() =~= sp.subrange(i + 1, sp.len() as int));
}

proof fn lemma_collect_move_ops_step(sp: Seq<Seq<char>>, i: int)
    requires
        0 <= i < sp.len(),
    ensures
        spec_collect_move_ops(sp.subrange(i, sp.len() as int)) == match spec_parse_move_op_lowercased(lowercase_of(trim_of(sp[i]))) {
            Err(e) => Err(e),
            Ok(ops) => prepend_ops(ops, spec_collect_move_ops(sp.subrange(i + 1, sp.len() as int))),
        },
{
    let rest = sp.subrange(i, sp.len() as int);
    assert(rest[0] == sp[i]);
    assert(rest.drop_first() =~= sp.subrange(i + 1, sp.len() as int));
}

proof fn lemma_prepend_empty(done: Seq<MoveOperation>)
    ensures
        prepend_ops(done, Ok(Seq::empty())) == Ok::<Seq<MoveOperation>, ParseErrorView>(done),
{
    assert(done + Seq::<MoveOperation>::empty() =~= done);
}

/// Cuts lowercased text `l` of a migration order into its parts (see
/// `spec_split_move_op`).
pub fn split_move_op(l: &[char]) -> (r: Result<(Vec<char>, Vec<Vec<char>>), ParseError>)
    ensures
        match r {
            Ok((p, pieces)) => spec_split_move_op(l@) is Ok
                && spec_split_move_op(l@)->Ok_0.0 == p@
                && pieces@.len() == spec_split_move_op(l@)->Ok_0.1.len()
                && forall|k: int| 0 <= k < pieces@.len() ==> (#[trigger] pieces@[k])@ == spec_split_move_op(l@)->Ok_0.1[k],
            Err(e) => spec_split_move_op(l@) == Err::<(Seq<char>, Seq<Seq<char>>), ParseErrorView>(e@),
        },
{
    let colon_lit = chars_of(":");
    proof { reveal_strlit(":"); }
    match split_once(l, colon_lit.as_slice()) {
        Some((pid_str, rest)) => {
            let pieces = split(rest.as_slice(), ',');
            Ok((pid_str, pieces))
        },
        None => {
            let copy = crate::text::substring(l, 0, l.len());
            proof { assert(copy@ =~= l@); }
            Err(ParseError::MissingColon(copy))
        },
    }
}

/// Reads a migration order from lowercased text (see
/// `spec_parse_move_op_lowercased`).
pub fn parse_move_op_lowercased(l: &[char]) -> (r: Result<Vec<MoveOperation>, ParseError>)
    ensures
        ops_view(r) == spec_parse_move_op_lowercased(l@),
{
    let colon_lit = chars_of(":");
    proof { reveal_strlit(":"); }
    let (pid_str, rest) = match split_once(l, colon_lit.as_slice()) {
        Some(p) => p,
        None => {
            let copy = crate::text::substring(l, 0, l.len());
            proof { assert(copy@ =~= l@); }
            return Err(ParseError::MissingColon(copy));
        },
    };
    let pid_lower = to_lowercase(pid_str.as_slice());
    let pid = match parse_pid_lowercased(pid_lower.as_slice()) {
        Ok(p) => p,
        Err(e) => {
            return Err(e);
        },
    };
    let pieces = split(rest.as_slice(), ',');
    let ghost sp = split_spec(rest@, ',');
    let mut ops: Vec<MoveOperation> = Vec::new();
    let n = pieces.len();
    let mut i: usize = 0;
    proof { assert(sp.subrange(0, n as int) =~= sp); }
    while i < n
        invariant
            n == pieces@.len(),
            n == sp.len(),
            forall|k: int| 0 <= k < n ==> (#[trigger] pieces@[k])@ == sp[k],
            i <= n,
            spec_parse_move_op_lowercased(l@) == spec_collect_microops(pid, sp),
            spec_collect_microops(pid, sp) == prepend_ops(ops@, spec_collect_microops(pid, sp.subrange(i as int, n as int))),
        decreases n - i,
    {
        proof { lemma_collect_microops_step(pid, sp, i as int); }
        let t = trim(pieces[i].as_slice());
        match parse_move_op_microop(pid, t.as_slice()) {
            Ok(op) => {
                proof {
                    lemma_prepend_assoc(ops@, seq![op], spec_collect_microops(pid, sp.subrange(i + 1, n as int)));
                }
                let ghost before = ops@;
                ops.push(op);
                proof { assert(ops@ =~= before + seq![op]); }
            },
            Err(e) => {
                return Err(e);
            },
        }
        i += 1;
    }
    proof {
        assert(sp.subrange(n as int, n as int) =~= Seq::<Seq<char>>::empty());
        lemma_prepend_empty(ops@);
    }
    Ok(ops)
}

/// Reads a migration order from the characters `s` (see `parse_move_op`).
fn parse_move_op_chars(s: &[char]) -> (r: Result<Vec<MoveOperation>, ParseError>)
    ensures
        ops_view(r) == spec_parse_move_op_lowercased(lowercase_of(s@)),
{
    let l = to_lowercase(s);
    parse_move_op_lowercased(l.as_slice())
}

/// Reads a migration order such as `1100:gpu->shm=10g,shm->gpu=5g`: the
/// text is lowercased, then read as `parse_move_op_lowercased` does.
pub fn parse_move_op(s: &str) -> (r: Result<Vec<MoveOperation>, ParseError>)
    ensures
        ops_view(r) == spec_parse_move_op_lowercased(lowercase_of(s@)),
{
    let cs = chars_of(s);
    parse_move_op_chars(cs.as_slice())
}

/// Reads a list of migration orders separated by commas, each trimmed and
/// read as `parse_move_op` does; their movements are concatenated.
pub fn parse_move_ops(s: &str) -> (r: Result<Vec<MoveOperation>, ParseError>)
    ensures
        ops_view(r) == spec_collect_move_ops(split_spec(s@, ',')),
{
    let cs = chars_of(s);
    let pieces = split(cs.as_slice(), ',');
    let ghost sp = split_spec(s@, ',');
    let mut all: Vec<MoveOperation> = Vec::new();
    let n = pieces.len();
    let mut i: usize = 0;
    proof { assert(sp.subrange(0, n as int) =~= sp); }
    while i < n
        invariant
            n == pieces@.len(),
            n == sp.len(),
            forall|k: int| 0 <= k < n ==> (#[trigger] pieces@[k])@ == sp[k],
            i <= n,
            sp == split_spec(s@, ','),
            spec_collect_move_ops(sp) == prepend_ops(all@, spec_collect_move_ops(sp.subrange(i as int, n as int))),
        decreases n - i,
    {
        proof { lemma_collect_move_ops_step(sp, i as int); }
        let t = trim(pieces[i].as_slice());
        match parse_move_op_chars(t.as_slice()) {
            Ok(ops) => {
                proof {
                    lemma_prepend_assoc(all@, ops@, spec_collect_move_ops(sp.subrange(i + 1, n as int)));
                }
                let mut more = ops;
                all.append(&mut more);
            },
            Err(e) => {
                return Err(e);
            },
        }
        i += 1;
    }
    proof {
        assert(sp.subrange(n as int, n as int) =~= Seq::<Seq<char>>::empty());
        lemma_prepend_empty(all@);
    }
    Ok(all)
}

} // verus!
