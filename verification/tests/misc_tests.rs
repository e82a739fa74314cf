use nixie::alloc_tracking::{AllocRecord, AllocTracker};
use nixie::cli::SetPriorityLevel;
use nixie::config::{device_limit_spec, BaseConfig, CliConfig, ConfigError, InitConfig};
use nixie::parse::parse_size;
use nixie::priority::{Priority, PriorityLevel};
use nixie::sidecar::{
    apply_setting_lowered, flag_lowercased, log_level_lowercased, parse_sidecar_config, should_log, Context,
    LaunchStats, ProgramState, SidecarConfig,
};
use nixie::limit::{limit_key_lowercased, LimitKey};
use nixie::summary::sizes_by_pid;
use nixie::swap::{HybridMigrationSpecEntry, MigrationSpecEntry, ShmMigrationSpecEntry};
use nixie::text::{chars_of, split, split_once, to_lowercase, trim};
use nixie::types::{AllocationCount, BufferId, GlobalDeviceId, ShmBufferRequest};
use std::time::Duration;

fn defaults() -> SidecarConfig {
    SidecarConfig { log_level: 1, auto_dup: false, auto_dup_delay: 5, auto_idle: true }
}

#[test]
fn sidecar_defaults() {
    assert_eq!(SidecarConfig::default(), defaults());
    assert_eq!(parse_sidecar_config(""), defaults());
    assert_eq!(parse_sidecar_config("unknown:3/nocolon"), defaults());
}

#[test]
fn sidecar_settings_are_read_in_order() {
    let c = parse_sidecar_config("LOG:Debug/dup:yes/delay:30/idle:no");
    assert_eq!(c, SidecarConfig { log_level: 3, auto_dup: true, auto_dup_delay: 30, auto_idle: false });
    let c = parse_sidecar_config("log:info/log:0");
    assert_eq!(c.log_level, 0);
    let c = parse_sidecar_config("delay:abc/auto_idle:maybe/log_level:loud");
    assert_eq!(c, defaults());
    let c = parse_sidecar_config("autodup:1:extra");
    assert!(c.auto_dup);
}

#[test]
fn sidecar_log_threshold() {
    let c = parse_sidecar_config("log:warn");
    assert!(should_log(&c, 1));
    assert!(!should_log(&c, 2));
}

#[test]
fn launch_stats_times() {
    let mut s = LaunchStats::new();
    s.record_launch_kernel_at(100);
    s.record_launch_transfer_at(4096, 150);
    assert_eq!(s.kernel_elapsed_at(250), 150);
    assert_eq!(s.kernel_elapsed_at(50), 0);
    assert_eq!(s.transfer_elapsed_at(200), (50, 4096));
    assert_eq!(s.pending_sync_elapsed_at(300), None);
    s.record_sync_start_at(300);
    assert_eq!(s.pending_sync_elapsed_at(340), Some(40));
    s.record_sync_end_at(360);
    assert_eq!(s.pending_sync_elapsed_at(400), None);
    assert_eq!(s.sync_elapsed_at(400), 40);
    let c = Context::new();
    assert_eq!(c.program_state, ProgramState::Paused);
    assert_eq!(c.stats, LaunchStats::new());
}

#[test]
fn alloc_tracker_finds_covering_record() {
    let mut t = AllocTracker::new();
    assert!(!t.insert(0x1000, 0x100, 0x200, 0));
    assert!(!t.insert(0x3000, 0x100, 0x100, 1));
    assert!(t.insert(0x1080, 0x10, 0x10, 0));
    assert_eq!(t.find_exact(0x3000), Some(AllocRecord { dev_ptr: 0x3000, size: 0x100, alloc_size: 0x100, device: 1 }));
    assert_eq!(t.find_exact(0x3001), None);
    assert_eq!(t.find(0x1050).unwrap().dev_ptr, 0x1000);
    assert_eq!(t.find(0x1085).unwrap().dev_ptr, 0x1080);
    assert_eq!(t.find(0x2000), None);
    assert_eq!(t.find(0x10), None);
    assert!(t.remove(0x1000));
    assert!(!t.remove(0x1000));
    assert_eq!(t.find(0x1050), None);
}

#[test]
fn sizes_totalled_per_process() {
    let id = |pid: i32, size: u32| BufferId { pid, device_id: GlobalDeviceId(0), block_id: 0, size };
    let totals = sizes_by_pid(&vec![id(1, 10), id(2, 5), id(1, 7)]);
    assert_eq!(totals, vec![(1, 17), (2, 5)]);
    assert!(sizes_by_pid(&vec![]).is_empty());
}

#[test]
fn config_layers() {
    let mut c = BaseConfig::defaults(vec![24576]);
    assert_eq!(c.shmem_size_mb, 32 * 1024);
    assert!(c.automatic_prefetch);
    c.merge_from(InitConfig {
        shmem_size_mb: Some(1024),
        hostmem_size_mb: None,
        device_memory_mb: Some(vec![1, 2]),
        device_limit: Some("g:0.5".to_string()),
        schedule_cooldown: Some(Duration::from_secs(3)),
        automatic_prefetch: Some(false),
        preallocate_hostmem: Some(true),
    });
    assert_eq!(c.shmem_size_mb, 1024);
    assert_eq!(c.hostmem_size_mb, 32 * 1024);
    assert_eq!(c.device_memory_mb, vec![1, 2]);
    assert_eq!(c.schedule_cooldown, Some(Duration::from_secs(3)));
    assert!(c.automatic_prefetch);
    assert!(c.preallocate_hostmem);
    c.apply_cli(&CliConfig { shmem_size: Some(3 * 1024 * 1024 + 5), hostmem_size: None, device_limit: None, automatic_prefetch: Some(false) });
    assert_eq!(c.shmem_size_mb, 3);
    assert!(!c.automatic_prefetch);
    assert_eq!(c.check_sizes(), Err(ConfigError::OddSizes { shmem_size_mb: 3, hostmem_size_mb: 32 * 1024 }));
    c.apply_cli(&CliConfig { shmem_size: Some(4 * 1024 * 1024), ..CliConfig::default() });
    assert_eq!(c.check_sizes(), Ok(()));
    c.update_from(None, Some(true));
    assert_eq!(c.schedule_cooldown, None);
    assert!(c.automatic_prefetch);
    assert_eq!(device_limit_spec(Some("a".to_string()), Some("b".to_string())), Some("b".to_string()));
    assert_eq!(device_limit_spec(Some("a".to_string()), None), Some("a".to_string()));
}

#[test]
fn priority_choices_are_fixed() {
    assert_eq!(SetPriorityLevel::Batch.to_fixed(), Priority::Fixed(PriorityLevel::Batch));
    assert_eq!(SetPriorityLevel::Interactive.to_fixed(), Priority::Fixed(PriorityLevel::Interactive));
}

#[test]
fn staged_entry_sizes() {
    assert_eq!(MigrationSpecEntry::Shm(ShmMigrationSpecEntry { size: 3, handle_idx: 1 }).size(), 3);
    assert_eq!(MigrationSpecEntry::Storage(HybridMigrationSpecEntry { size: 9, handle_idx: 1 }).size(), 9);
}

#[test]
fn allocation_units() {
    let b = BufferId { pid: 1, device_id: GlobalDeviceId(0), block_id: 0, size: 2 * 1024 * 1024 + 1 };
    assert_eq!(b.get_allocation_count(), AllocationCount(2));
    let b0 = BufferId { size: 0, ..b };
    assert_eq!(b0.get_allocation_count(), AllocationCount(0));
    assert_eq!(AllocationCount(2).add(AllocationCount(3)), AllocationCount(5));
    let mut c = AllocationCount(1);
    c.add_assign(AllocationCount(4));
    assert_eq!(c, AllocationCount(5));
    assert_eq!(ShmBufferRequest::FromBackend(AllocationCount(4)).count(), AllocationCount(4));
    assert_eq!(ShmBufferRequest::FromGPU(AllocationCount(1)).count(), AllocationCount(1));
}

#[test]
fn text_helpers() {
    let s = chars_of("  Hello/World  ");
    assert_eq!(trim(&s).iter().collect::<String>(), "Hello/World");
    assert_eq!(to_lowercase(&s).iter().collect::<String>(), "  hello/world  ");
    let parts = split(&chars_of("a/b//c"), '/');
    let parts: Vec<String> = parts.iter().map(|p| p.iter().collect()).collect();
    assert_eq!(parts, vec!["a", "b", "", "c"]);
    let (k, v) = split_once(&chars_of("x->y->z"), &chars_of("->")).unwrap();
    assert_eq!(k.iter().collect::<String>(), "x");
    assert_eq!(v.iter().collect::<String>(), "y->z");
    assert!(split_once(&chars_of("xyz"), &chars_of(":")).is_none());
}

#[test]
fn readme_memory_sizes() {
    let mut c = BaseConfig::defaults(vec![]);
    let shmem = parse_size("16g").unwrap();
    let hostmem = parse_size("32g").unwrap();
    c.apply_cli(&CliConfig { shmem_size: Some(shmem), hostmem_size: Some(hostmem), ..CliConfig::default() });
    assert_eq!(c.shmem_size_mb, 16 * 1024);
    assert_eq!(c.hostmem_size_mb, 32 * 1024);
    assert_eq!(c.check_sizes(), Ok(()));
}

#[test]
fn alloc_tracker_lookup_after_insert() {
    let mut t = AllocTracker::new();
    t.insert(0x5000, 0x40, 0x80, 2);
    t.insert(0x4000, 0x20, 0x20, 1);
    t.insert(0x6000, 0x10, 0x10, 3);
    let rec = AllocRecord { dev_ptr: 0x5000, size: 0x40, alloc_size: 0x80, device: 2 };
    assert_eq!(t.find(0x5000), Some(rec));
    assert_eq!(t.find_exact(0x5000), Some(rec));
    // Replacing the record at the same address.
    t.insert(0x5000, 0x8, 0x8, 4);
    assert_eq!(t.find(0x5000), Some(AllocRecord { dev_ptr: 0x5000, size: 0x8, alloc_size: 0x8, device: 4 }));
    assert_eq!(t.find(0x5010), None);
}

#[test]
fn setting_grammar_on_given_text() {
    let c = |s: &str| -> Vec<char> { s.chars().collect() };
    assert_eq!(log_level_lowercased(&c("debug")), 3);
    assert_eq!(log_level_lowercased(&c("none")), 0);
    assert_eq!(log_level_lowercased(&c("loud")), 1);
    assert!(flag_lowercased(&c("yes"), false));
    assert!(!flag_lowercased(&c("0"), true));
    assert!(flag_lowercased(&c("maybe"), true));
    let base = SidecarConfig { log_level: 1, auto_dup: false, auto_dup_delay: 5, auto_idle: true };
    let cfg = apply_setting_lowered(base, &c("delay"), &c("42"), &c("42"));
    assert_eq!(cfg.auto_dup_delay, 42);
    let cfg = apply_setting_lowered(base, &c("dup"), &c("True"), &c("true"));
    assert!(cfg.auto_dup);
    assert_eq!(apply_setting_lowered(base, &c("other"), &c("1"), &c("1")), base);
    assert_eq!(limit_key_lowercased(&c("global")), LimitKey::Global);
    assert_eq!(limit_key_lowercased(&c("3")), LimitKey::Device(3));
    assert_eq!(limit_key_lowercased(&c("-1")), LimitKey::Device(-1));
    assert_eq!(limit_key_lowercased(&c("gpu")), LimitKey::Invalid);
}
