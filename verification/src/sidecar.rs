//! The side of a client process: its settings from the `NIHIL_CFG`
//! variable, the times of its last launches, and whether it may run.

use vstd::prelude::*;
use std::time::{SystemTime, UNIX_EPOCH};
use crate::statistics::sat_sub;
use crate::text::{chars_of, eq_str, lowercase_of, parse_unsigned, parse_unsigned_spec, split, split_spec, to_lowercase};

verus! {

/// The settings of the client side.
#[derive(Debug, Clone, Copy, PartialEq, Eq, Structural)]
pub struct SidecarConfig {
    /// 0 none, 1 warnings, 2 information, 3 debugging.
    pub log_level: u8,
    pub auto_dup: bool,
    pub auto_dup_delay: u64,
    pub auto_idle: bool,
}

/// The log level when none (or an unknown one) is given.
pub const DEFAULT_LOG_LEVEL: u8 = 1;
/// Whether duplication is automatic when not said.
pub const DEFAULT_AUTO_DUP: bool = false;
/// The duplication delay when none (or an unreadable one) is given.
pub const DEFAULT_AUTO_DUP_DELAY: u64 = 5;
/// Whether idling is automatic when not said.
pub const DEFAULT_AUTO_IDLE: bool = true;

/// The default settings.
pub open spec fn default_sidecar_config() -> SidecarConfig {
    SidecarConfig {
        log_level: DEFAULT_LOG_LEVEL,
        auto_dup: DEFAULT_AUTO_DUP,
        auto_dup_delay: DEFAULT_AUTO_DUP_DELAY,
        auto_idle: DEFAULT_AUTO_IDLE,
    }
}

impl Default for SidecarConfig {
    fn default() -> (c: Self)
        ensures
            c == default_sidecar_config(),
    {
        SidecarConfig {
            log_level: DEFAULT_LOG_LEVEL,
            auto_dup: DEFAULT_AUTO_DUP,
            auto_dup_delay: DEFAULT_AUTO_DUP_DELAY,
            auto_idle: DEFAULT_AUTO_IDLE,
        }
    }
}

/// The log level named by lowercased text `v`.
pub open spec fn spec_log_level(v: Seq<char>) -> u8 {
    if v == "0"@ || v == "none"@ {
        0
    } else if v == "1"@ || v == "warn"@ || v == "error"@ {
        1
    } else if v == "2"@ || v == "info"@ {
        2
    } else if v == "3"@ || v == "debug"@ {
        3
    } else {
        DEFAULT_LOG_LEVEL
    }
}

/// The switch named by lowercased text `v`, or `default`.
pub open spec fn spec_flag(v: Seq<char>, default: bool) -> bool {
    if v == "true"@ || v == "1"@ || v == "yes"@ {
        true
    } else if v == "false"@ || v == "0"@ || v == "no"@ {
        false
    } else {
        default
    }
}

/// A switch is on for `true`, `1` and `yes`, off for `false`, `0` and
/// `no`, whatever its default.
pub proof fn lemma_flag_names(default: bool)
    ensures
        spec_flag("true"@, default),
        spec_flag("1"@, default),
        spec_flag("yes"@, default),
        !spec_flag("false"@, default),
        !spec_flag("0"@, default),
        !spec_flag("no"@, default),
{
    reveal_strlit("true");
    reveal_strlit("1");
    reveal_strlit("yes");
    reveal_strlit("false");
    reveal_strlit("0");
    reveal_strlit("no");
    assert("false"@.len() != "true"@.len() && "false"@.len() != "1"@.len() && "false"@.len() != "yes"@.len());
    assert("0"@.len() != "true"@.len() && "0"@[0] != "1"@[0] && "0"@.len() != "yes"@.len());
    assert("no"@.len() != "true"@.len() && "no"@.len() != "1"@.len() && "no"@.len() != "yes"@.len());
}

/// Each log level can be set by its number or by its name, to the same
/// effect: `0`/`none` is 0, `1`/`warn`/`error` is 1, `2`/`info` is 2 and
/// `3`/`debug` is 3, under either of the keys `log` and `log_level`, and
/// the other settings stay as they were.
pub proof fn lemma_log_level_names(cfg: SidecarConfig, val: Seq<char>)
    ensures
        spec_apply_setting_lowered(cfg, "log"@, val, "0"@) == (SidecarConfig { log_level: 0, ..cfg }),
        spec_apply_setting_lowered(cfg, "log"@, val, "none"@) == (SidecarConfig { log_level: 0, ..cfg }),
        spec_apply_setting_lowered(cfg, "log"@, val, "1"@) == (SidecarConfig { log_level: 1, ..cfg }),
        spec_apply_setting_lowered(cfg, "log"@, val, "warn"@) == (SidecarConfig { log_level: 1, ..cfg }),
        spec_apply_setting_lowered(cfg, "log"@, val, "error"@) == (SidecarConfig { log_level: 1, ..cfg }),
        spec_apply_setting_lowered(cfg, "log"@, val, "2"@) == (SidecarConfig { log_level: 2, ..cfg }),
        spec_apply_setting_lowered(cfg, "log"@, val, "info"@) == (SidecarConfig { log_level: 2, ..cfg }),
        spec_apply_setting_lowered(cfg, "log"@, val, "3"@) == (SidecarConfig { log_level: 3, ..cfg }),
        spec_apply_setting_lowered(cfg, "log"@, val, "debug"@) == (SidecarConfig { log_level: 3, ..cfg }),
        forall|v: Seq<char>| #[trigger] spec_apply_setting_lowered(cfg, "log_level"@, val, v)
            == spec_apply_setting_lowered(cfg, "log"@, val, v),
{
    reveal_strlit("log");
    reveal_strlit("log_level");
    reveal_strlit("0");
    reveal_strlit("1");
    reveal_strlit("2");
    reveal_strlit("3");
    reveal_strlit("none");
    reveal_strlit("warn");
    reveal_strlit("error");
    reveal_strlit("info");
    reveal_strlit("debug");
    assert("0"@[0] != "1"@[0] && "0"@[0] != "2"@[0] && "0"@[0] != "3"@[0]);
    assert("1"@[0] != "2"@[0] && "1"@[0] != "3"@[0] && "2"@[0] != "3"@[0]);
    assert("none"@[0] != "warn"@[0] && "none"@[0] != "info"@[0]);
    assert("warn"@[0] != "info"@[0] && "error"@.len() != "info"@.len() && "error"@.len() != "none"@.len());
    assert("info"@[0] != "none"@[0] && "debug"@.len() != "info"@.len() && "debug"@[0] != "error"@[0]);
    assert("none"@.len() != "1"@.len() && "info"@.len() != "2"@.len());
}

/// The settings after the setting named by lowercased `key` is given the
/// text `val`, whose lowercased form is `val_l`; unknown keys change
/// nothing.
pub open spec fn spec_apply_setting_lowered(cfg: SidecarConfig, key: Seq<char>, val: Seq<char>, val_l: Seq<char>) -> SidecarConfig {
    if key == "log_level"@ || key == "log"@ {
        SidecarConfig { log_level: spec_log_level(val_l), ..cfg }
    } else if key == "auto_dup"@ || key == "autodup"@ || key == "dup"@ {
        SidecarConfig { auto_dup: spec_flag(val_l, DEFAULT_AUTO_DUP), ..cfg }
    } else if key == "auto_dup_delay"@ || key == "autodup_delay"@ || key == "delay"@ {
        SidecarConfig {
            auto_dup_delay: match parse_unsigned_spec(val, u64::MAX as int) {
                Some(n) => n as u64,
                None => DEFAULT_AUTO_DUP_DELAY,
            },
            ..cfg
        }
    } else if key == "auto_idle"@ || key == "autoidle"@ || key == "idle"@ {
        SidecarConfig { auto_idle: spec_flag(val_l, DEFAULT_AUTO_IDLE), ..cfg }
    } else {
        cfg
    }
}

/// The settings after the setting named by lowercased `key` is given the
/// text `val` (lowercased where a name is expected).
pub open spec fn spec_apply_setting(cfg: SidecarConfig, key: Seq<char>, val: Seq<char>) -> SidecarConfig {
    spec_apply_setting_lowered(cfg, key, val, lowercase_of(val))
}

/// The settings after the pair `key:val` (text after a second `:` is
/// ignored); a piece without `:` changes nothing.
pub open spec fn spec_apply_pair(cfg: SidecarConfig, pair: Seq<char>) -> SidecarConfig {
    let parts = split_spec(pair, ':');
    if parts.len() >= 2 {
        spec_apply_setting(cfg, lowercase_of(parts[0]), parts[1])
    } else {
        cfg
    }
}

/// The settings after the pairs `pairs`, in order.
pub open spec fn spec_apply_pairs(cfg: SidecarConfig, pairs: Seq<Seq<char>>) -> SidecarConfig
    decreases pairs.len(),
{
    if pairs.len() == 0 {
        cfg
    } else {
        spec_apply_pair(spec_apply_pairs(cfg, pairs.drop_last()), pairs.last())
    }
}

/// The settings read from `content`: pairs `key:value` separated by `/`,
/// applied in order to the defaults.
pub open spec fn spec_sidecar_config(content: Seq<char>) -> SidecarConfig {
    spec_apply_pairs(default_sidecar_config(), split_spec(content, '/'))
}

/// The log level named by lowercased text `v` (see `spec_log_level`).
pub fn log_level_lowercased(v: &[char]) -> (l: u8)
    ensures
        l == spec_log_level(v@),
{
    if eq_str(v, "0") || eq_str(v, "none") {
        0
    } else if eq_str(v, "1") || eq_str(v, "warn") || eq_str(v, "error") {
        1
    } else if eq_str(v, "2") || eq_str(v, "info") {
        2
    } else if eq_str(v, "3") || eq_str(v, "debug") {
        3
    } else {
        DEFAULT_LOG_LEVEL
    }
}

/// The switch named by lowercased text `v`, or `default` (see
/// `spec_flag`).
pub fn flag_lowercased(v: &[char], default: bool) -> (b: bool)
    ensures
        b == spec_flag(v@, default),
{
    if eq_str(v, "true") || eq_str(v, "1") || eq_str(v, "yes") {
        true
    } else if eq_str(v, "false") || eq_str(v, "0") || eq_str(v, "no") {
        false
    } else {
        default
    }
}

/// Gives the setting named by lowercased `key` the text `val`, whose
/// lowercased form is `val_l` (see `spec_apply_setting_lowered`).
pub fn apply_setting_lowered(cfg: SidecarConfig, key: &[char], val: &[char], val_l: &[char]) -> (c: SidecarConfig)
    ensures
        c == spec_apply_setting_lowered(cfg, key@, val@, val_l@),
{
    if eq_str(key, "log_level") || eq_str(key, "log") {
        SidecarConfig { log_level: log_level_lowercased(val_l), ..cfg }
    } else if eq_str(key, "auto_dup") || eq_str(key, "autodup") || eq_str(key, "dup") {
        SidecarConfig { auto_dup: flag_lowercased(val_l, DEFAULT_AUTO_DUP), ..cfg }
    } else if eq_str(key, "auto_dup_delay") || eq_str(key, "autodup_delay") || eq_str(key, "delay") {
        let d = match parse_unsigned(val, u64::MAX) {
            Some(n) => n,
            None => DEFAULT_AUTO_DUP_DELAY,
        };
        SidecarConfig { auto_dup_delay: d, ..cfg }
    } else if eq_str(key, "auto_idle") || eq_str(key, "autoidle") || eq_str(key, "idle") {
        SidecarConfig { auto_idle: flag_lowercased(val_l, DEFAULT_AUTO_IDLE), ..cfg }
    } else {
        cfg
    }
}

/// Applies the pair `pair` to `cfg` (see `spec_apply_pair`).
fn apply_pair(cfg: SidecarConfig, pair: &[char]) -> (c: SidecarConfig)
    ensures
        c == spec_apply_pair(cfg, pair@),
{
    let parts = split(pair, ':');
    if parts.len() < 2 {
        return cfg;
    }
    let key = to_lowercase(parts[0].as_slice());
    let val = parts[1].as_slice();
    let val_l = to_lowercase(val);
    apply_setting_lowered(cfg, key.as_slice(), val, val_l.as_slice())
}

/// Reads the client-side settings from the text of `NIHIL_CFG` (see
/// `spec_sidecar_config`).
pub fn parse_sidecar_config(content: &str) -> (c: SidecarConfig)
    ensures
        c == spec_sidecar_config(content@),
{
    let cs = chars_of(content);
    let pairs = split(cs.as_slice(), '/');
    let ghost sp = split_spec(content@, '/');
    let mut cfg = SidecarConfig::default();
    let mut i: usize = 0;
    while i < pairs.len()
        invariant
            i <= pairs@.len(),
            pairs@.len() == sp.len(),
            forall|k: int| 0 <= k < sp.len() ==> (#[trigger] pairs@[k])@ == sp[k],
            cfg == spec_apply_pairs(default_sidecar_config(), sp.take(i as int)),
        decreases pairs@.len() - i,
    {
        proof {
            assert(sp.take(i + 1).drop_last() =~= sp.take(i as int));
            assert(sp.take(i + 1).last() == sp[i as int]);
        }
        cfg = apply_pair(cfg, pairs[i].as_slice());
        i += 1;
    }
    proof { assert(sp.take(i as int) =~= sp); }
    cfg
}

/// Whether messages of `level` are shown under `config`.
pub fn should_log(config: &SidecarConfig, level: u8) -> (r: bool)
    ensures
        r == (config.log_level >= level),
{
    config.log_level >= level
}

/// The dimensions of a kernel launch grid or block.
#[derive(Debug, Clone, Copy, PartialEq, Eq, Structural)]
pub struct CudaDim3 {
    pub x: u32,
    pub y: u32,
    pub z: u32,
}

#[verifier::external_type_specification]
#[verifier::external_body]
pub struct ExSystemTime(SystemTime);

/// Calls `std::time::SystemTime::now`; nothing is claimed of the time it
/// returns.
#[verifier::external_body]
fn system_now() -> SystemTime {
    SystemTime::now()
}

/// Calls `SystemTime::duration_since` with the Unix epoch and gives the
/// nanoseconds elapsed (zero for a time before the epoch); nothing is
/// claimed of the value.
#[verifier::external_body]
fn nanos_since_epoch(t: &SystemTime) -> u64 {
    match t.duration_since(UNIX_EPOCH) {
        Ok(d) => d.as_nanos() as u64,
        Err(_) => 0,
    }
}

/// The wall-clock time in nanoseconds since the Unix epoch.
fn wall_clock_nanos() -> u64 {
    let t = system_now();
    nanos_since_epoch(&t)
}

/// When the process last launched each kind of work (nanoseconds since the
/// Unix epoch; zero for never), the size of its last transfer, and when
/// its last synchronization started and ended.
#[derive(Debug, Clone, Copy, PartialEq, Eq, Structural)]
pub struct LaunchStats {
    pub last_kernel: u64,
    pub last_graph: u64,
    pub last_malloc: u64,
    pub last_transfer: u64,
    pub last_transfer_size: usize,
    pub last_sync_start: u64,
    pub last_sync_end: u64,
}

impl LaunchStats {
    /// Nothing launched yet: every time is the epoch.
    pub fn new() -> (s: Self)
        ensures
            s == (LaunchStats {
                last_kernel: 0,
                last_graph: 0,
                last_malloc: 0,
                last_transfer: 0,
                last_transfer_size: 0,
                last_sync_start: 0,
                last_sync_end: 0,
            }),
    {
        LaunchStats {
            last_kernel: 0,
            last_graph: 0,
            last_malloc: 0,
            last_transfer: 0,
            last_transfer_size: 0,
            last_sync_start: 0,
            last_sync_end: 0,
        }
    }

    /// Records a kernel launch at `now`.
    pub fn record_launch_kernel_at(&mut self, now: u64)
        ensures
            *final(self) == (LaunchStats { last_kernel: now, ..*old(self) }),
    {
        self.last_kernel = now;
    }

    /// Records a graph launch at `now`.
    pub fn record_launch_graph_at(&mut self, now: u64)
        ensures
            *final(self) == (LaunchStats { last_graph: now, ..*old(self) }),
    {
        self.last_graph = now;
    }

    /// Records an allocation at `now`.
    pub fn record_launch_malloc_at(&mut self, now: u64)
        ensures
            *final(self) == (LaunchStats { last_malloc: now, ..*old(self) }),
    {
        self.last_malloc = now;
    }

    /// Records a transfer of `size` bytes at `now`.
    pub fn record_launch_transfer_at(&mut self, size: usize, now: u64)
        ensures
            *final(self) == (LaunchStats { last_transfer: now, last_transfer_size: size, ..*old(self) }),
    {
        self.last_transfer = now;
        self.last_transfer_size = size;
    }

    /// Records the start of a synchronization at `now`.
    pub fn record_sync_start_at(&mut self, now: u64)
        ensures
            *final(self) == (LaunchStats { last_sync_start: now, ..*old(self) }),
    {
        self.last_sync_start = now;
    }

    /// Records the end of a synchronization at `now`.
    pub fn record_sync_end_at(&mut self, now: u64)
        ensures
            *final(self) == (LaunchStats { last_sync_end: now, ..*old(self) }),
    {
        self.last_sync_end = now;
    }

    /// Nanoseconds from the last kernel launch to `now` (zero if `now` is
    /// earlier).
    pub fn kernel_elapsed_at(&self, now: u64) -> (d: u64)
        ensures
            d == sat_sub(now, self.last_kernel),
    {
        now.saturating_sub(self.last_kernel)
    }

    /// Nanoseconds from the last graph launch to `now`.
    pub fn graph_elapsed_at(&self, now: u64) -> (d: u64)
        ensures
            d == sat_sub(now, self.last_graph),
    {
        now.saturating_sub(self.last_graph)
    }

    /// Nanoseconds from the last allocation to `now`.
    pub fn malloc_elapsed_at(&self, now: u64) -> (d: u64)
        ensures
            d == sat_sub(now, self.last_malloc),
    {
        now.saturating_sub(self.last_malloc)
    }

    /// Nanoseconds from the last transfer to `now`, and its size.
    pub fn transfer_elapsed_at(&self, now: u64) -> (r: (u64, usize))
        ensures
            r == (sat_sub(now, self.last_transfer), self.last_transfer_size),
    {
        (now.saturating_sub(self.last_transfer), self.last_transfer_size)
    }

    /// While a synchronization is under way (it started after the last one
    /// ended), nanoseconds from its start to `now`.
    pub fn pending_sync_elapsed_at(&self, now: u64) -> (d: Option<u64>)
        ensures
            d == (if self.last_sync_end < self.last_sync_start {
                Some(sat_sub(now, self.last_sync_start))
            } else {
                None
            }),
    {
        if self.last_sync_end < self.last_sync_start {
            Some(now.saturating_sub(self.last_sync_start))
        } else {
            None
        }
    }

    /// Nanoseconds from the end of the last synchronization to `now`.
    pub fn sync_elapsed_at(&self, now: u64) -> (d: u64)
        ensures
            d == sat_sub(now, self.last_sync_end),
    {
        now.saturating_sub(self.last_sync_end)
    }

    /// Records a kernel launch now.
    pub fn record_launch_kernel(&mut self)
        ensures
            *final(self) == (LaunchStats { last_kernel: final(self).last_kernel, ..*old(self) }),
    {
        self.record_launch_kernel_at(wall_clock_nanos());
    }

    /// Records a graph launch now.
    pub fn record_launch_graph(&mut self)
        ensures
            *final(self) == (LaunchStats { last_graph: final(self).last_graph, ..*old(self) }),
    {
        self.record_launch_graph_at(wall_clock_nanos());
    }

    /// Records an allocation now.
    pub fn record_launch_malloc(&mut self)
        ensures
            *final(self) == (LaunchStats { last_malloc: final(self).last_malloc, ..*old(self) }),
    {
        self.record_launch_malloc_at(wall_clock_nanos());
    }

    /// Records a transfer of `size` bytes now.
    pub fn record_launch_transfer(&mut self, size: usize)
        ensures
            *final(self) == (LaunchStats { last_transfer: final(self).last_transfer, last_transfer_size: size, ..*old(self) }),
    {
        self.record_launch_transfer_at(size, wall_clock_nanos());
    }

    /// Records the start of a synchronization now.
    pub fn record_sync_start(&mut self)
        ensures
            *final(self) == (LaunchStats { last_sync_start: final(self).last_sync_start, ..*old(self) }),
    {
        self.record_sync_start_at(wall_clock_nanos());
    }

    /// Records the end of a synchronization now.
    pub fn record_sync_end(&mut self)
        ensures
            *final(self) == (LaunchStats { last_sync_end: final(self).last_sync_end, ..*old(self) }),
    {
        self.record_sync_end_at(wall_clock_nanos());
    }

    /// Nanoseconds since the last kernel launch, by the wall clock.
    pub fn kernel_elapsed(&self) -> (d: u64)
        ensures
            exists|now: u64| d == sat_sub(now, self.last_kernel),
    {
        self.kernel_elapsed_at(wall_clock_nanos())
    }

    /// Nanoseconds since the last graph launch, by the wall clock.
    pub fn graph_elapsed(&self) -> (d: u64)
        ensures
            exists|now: u64| d == sat_sub(now, self.last_graph),
    {
        self.graph_elapsed_at(wall_clock_nanos())
    }

    /// Nanoseconds since the last allocation, by the wall clock.
    pub fn malloc_elapsed(&self) -> (d: u64)
        ensures
            exists|now: u64| d == sat_sub(now, self.last_malloc),
    {
        self.malloc_elapsed_at(wall_clock_nanos())
    }

    /// Nanoseconds since the last transfer, by the wall clock, and its
    /// size.
    pub fn transfer_elapsed(&self) -> (r: (u64, usize))
        ensures
            exists|now: u64| r == (sat_sub(now, self.last_transfer), self.last_transfer_size),
    {
        self.transfer_elapsed_at(wall_clock_nanos())
    }

    /// While a synchronization is under way, nanoseconds since it started,
    /// by the wall clock.
    pub fn pending_sync_elapsed(&self) -> (d: Option<u64>)
        ensures
            self.last_sync_end < self.last_sync_start <==> d is Some,
            d matches Some(x) ==> exists|now: u64| x == sat_sub(now, self.last_sync_start),
    {
        self.pending_sync_elapsed_at(wall_clock_nanos())
    }

    /// Nanoseconds since the last synchronization ended, by the wall clock.
    pub fn sync_elapsed(&self) -> (d: u64)
        ensures
            exists|now: u64| d == sat_sub(now, self.last_sync_end),
    {
        self.sync_elapsed_at(wall_clock_nanos())
    }
}

/// Whether the process may run.
#[derive(Debug, Clone, Copy, PartialEq, Eq, Structural)]
pub enum ProgramState {
    Running,
    Paused,
}

/// The client side's scheduling state: whether it may run, and its launch
/// times.
#[derive(Debug, Clone, Copy, PartialEq, Eq, Structural)]
pub struct Context {
    pub program_state: ProgramState,
    pub stats: LaunchStats,
}

impl Context {
    /// A paused process that has launched nothing.
    pub fn new() -> (c: Self)
        ensures
            c.program_state == ProgramState::Paused,
            c.stats == LaunchStats::spec_new(),
    {
        Context { program_state: ProgramState::Paused, stats: LaunchStats::new() }
    }
}

impl LaunchStats {
    /// The statistics of a process that has launched nothing.
    pub open spec fn spec_new() -> LaunchStats {
        LaunchStats {
            last_kernel: 0,
            last_graph: 0,
            last_malloc: 0,
            last_transfer: 0,
            last_transfer_size: 0,
            last_sync_start: 0,
            last_sync_end: 0,
        }
    }
}

/// The kinds of work whose launch waits for the process to be allowed to
/// run.
#[derive(Debug, Clone, Copy, PartialEq, Eq, Structural)]
pub enum LaunchType {
    Kernel,
    Graph,
    Malloc,
    Transfer,
}

/// How long without allocations before the process counts as idle (200 ms).
pub const MALLOC_INTERVAL: u64 = 200_000_000;
/// How long without kernel launches before the process counts as idle
/// (500 ms).
pub const KERNEL_INTERVAL: u64 = 500_000_000;
/// How long without graph launches before the process counts as idle
/// (500 ms).
pub const GRAPH_INTERVAL: u64 = 500_000_000;
/// The transfer interval of the idle check (500 ms); the check compares it
/// with the time since the last kernel launch.
pub const TRANSFER_INTERVAL: u64 = 500_000_000;

/// Whether, at `now`, a running process with statistics `s` counts as
/// idle: no graph, kernel or allocation for longer than their intervals
/// (the kernel time also stands against the transfer interval).
pub open spec fn spec_is_idle(s: LaunchStats, now: u64) -> bool {
    &&& sat_sub(now, s.last_graph) > GRAPH_INTERVAL
    &&& sat_sub(now, s.last_kernel) > KERNEL_INTERVAL
    &&& sat_sub(now, s.last_malloc) > MALLOC_INTERVAL
    &&& sat_sub(now, s.last_kernel) > TRANSFER_INTERVAL
}

/// The statistics after a launch of `kind` at `now`; a transfer keeps the
/// size of the last recorded transfer.
pub open spec fn spec_record_launch(s: LaunchStats, kind: LaunchType, now: u64) -> LaunchStats {
    match kind {
        LaunchType::Kernel => LaunchStats { last_kernel: now, ..s },
        LaunchType::Graph => LaunchStats { last_graph: now, ..s },
        LaunchType::Malloc => LaunchStats { last_malloc: now, ..s },
        LaunchType::Transfer => LaunchStats { last_transfer: now, ..s },
    }
}

impl Context {
    /// The daemon allows the process to run (`true`) or pauses it.
    pub fn set_allow_running(&mut self, enable: bool)
        ensures
            *final(self) == (Context {
                program_state: if enable { ProgramState::Running } else { ProgramState::Paused },
                ..*old(self)
            }),
    {
        self.program_state = if enable { ProgramState::Running } else { ProgramState::Paused };
    }

    /// Pauses the process.
    pub fn pause(&mut self)
        ensures
            *final(self) == (Context { program_state: ProgramState::Paused, ..*old(self) }),
    {
        self.program_state = ProgramState::Paused;
    }

    /// Whether launches may go ahead.
    pub fn may_launch(&self) -> (r: bool)
        ensures
            r == (self.program_state == ProgramState::Running),
    {
        self.program_state == ProgramState::Running
    }

    /// Whether a launch must first ask the daemon to be scheduled: it must
    /// when the process is paused.
    pub fn must_request_scheduling(&self) -> (r: bool)
        ensures
            r == (self.program_state == ProgramState::Paused),
    {
        self.program_state == ProgramState::Paused
    }

    /// Records a launch of `kind` at `now`, once the process may run.
    pub fn record_launch_at(&mut self, kind: LaunchType, now: u64)
        ensures
            *final(self) == (Context { stats: spec_record_launch(old(self).stats, kind, now), ..*old(self) }),
    {
        match kind {
            LaunchType::Kernel => self.stats.record_launch_kernel_at(now),
            LaunchType::Graph => self.stats.record_launch_graph_at(now),
            LaunchType::Malloc => self.stats.record_launch_malloc_at(now),
            LaunchType::Transfer => {
                self.stats.last_transfer = now;
            },
        }
    }

    /// The idle check at `now`: a running process that counts as idle is
    /// paused, and `true` tells the caller to report it idle.
    pub fn check_idle_at(&mut self, now: u64) -> (went_idle: bool)
        ensures
            went_idle == (old(self).program_state == ProgramState::Running && spec_is_idle(old(self).stats, now)),
            *final(self) == (if went_idle {
                Context { program_state: ProgramState::Paused, ..*old(self) }
            } else {
                *old(self)
            }),
    {
        if self.program_state == ProgramState::Running {
            if self.stats.graph_elapsed_at(now) > GRAPH_INTERVAL
                && self.stats.kernel_elapsed_at(now) > KERNEL_INTERVAL
                && self.stats.malloc_elapsed_at(now) > MALLOC_INTERVAL
                && self.stats.kernel_elapsed_at(now) > TRANSFER_INTERVAL
            {
                self.program_state = ProgramState::Paused;
                return true;
            }
        }
        false
    }
}

/// A process that launched a kernel or a graph at most 500 ms ago, or
/// allocated memory at most 200 ms ago, is not idle; one whose last graph
/// and last kernel are both more than 500 ms old and whose last
/// allocation is more than 200 ms old is idle.
pub proof fn lemma_idle_windows(s: LaunchStats, kind: LaunchType, t: u64, now: u64)
    ensures
        t <= now && now - t <= 500_000_000 && (kind == LaunchType::Kernel || kind == LaunchType::Graph)
            ==> !spec_is_idle(spec_record_launch(s, kind, t), now),
        t <= now && now - t <= 200_000_000 && kind == LaunchType::Malloc
            ==> !spec_is_idle(spec_record_launch(s, kind, t), now),
        (s.last_graph < now && now - s.last_graph > 500_000_000)
            && (s.last_kernel < now && now - s.last_kernel > 500_000_000)
            && (s.last_malloc < now && now - s.last_malloc > 200_000_000)
            ==> spec_is_idle(s, now),
{
}

/// A process that was just allowed to run and launched a kernel at `now`
/// does not count as idle at `now`.
pub proof fn lemma_fresh_launch_not_idle(c: Context, now: u64)
    ensures
        !spec_is_idle(spec_record_launch(c.stats, LaunchType::Kernel, now), now),
{
}

} // verus!
