//! The daemon's settings: defaults, the settings file, the command line,
//! and the changes the control tool may make at run time.

use vstd::prelude::*;
use std::time::Duration;

verus! {

/// The settings as read from a settings file; each one is optional.
#[derive(Debug, Clone)]
pub struct InitConfig {
    pub shmem_size_mb: Option<usize>,
    pub hostmem_size_mb: Option<usize>,
    pub device_memory_mb: Option<Vec<usize>>,
    pub device_limit: Option<String>,
    pub schedule_cooldown: Option<Duration>,
    pub automatic_prefetch: Option<bool>,
    pub preallocate_hostmem: Option<bool>,
}

/// Settings given on the command line, which override the settings file.
#[derive(Debug, Clone, Default)]
pub struct CliConfig {
    pub shmem_size: Option<u64>,
    pub hostmem_size: Option<u64>,
    pub device_limit: Option<String>,
    pub automatic_prefetch: Option<bool>,
}

/// The daemon's settings other than the device memory limit.
#[derive(Debug, Clone)]
pub struct BaseConfig {
    pub shmem_size_mb: usize,
    pub hostmem_size_mb: usize,
    pub device_memory_mb: Vec<usize>,
    pub schedule_cooldown: Option<Duration>,
    pub automatic_prefetch: bool,
    pub preallocate_hostmem: bool,
}

/// Why the settings were refused.
#[derive(Debug, Clone, Copy, PartialEq, Eq, Structural)]
pub enum ConfigError {
    /// The shared-memory or host-memory size (in MiB) is odd.
    OddSizes { shmem_size_mb: usize, hostmem_size_mb: usize },
}

/// One mebibyte.
pub const MIB: u64 = 1024 * 1024;

impl BaseConfig {
    /// The defaults for devices of `device_memory_mb` MiB each: 32 GiB of
    /// shared memory and of host memory, no cooldown, automatic prefetch,
    /// host memory not allocated in advance.
    pub fn defaults(device_memory_mb: Vec<usize>) -> (c: Self)
        ensures
            c.shmem_size_mb == 32 * 1024,
            c.hostmem_size_mb == 32 * 1024,
            c.device_memory_mb == device_memory_mb,
            c.schedule_cooldown is None,
            c.automatic_prefetch,
            !c.preallocate_hostmem,
    {
        BaseConfig {
            shmem_size_mb: 32 * 1024,
            hostmem_size_mb: 32 * 1024,
            device_memory_mb,
            schedule_cooldown: None,
            automatic_prefetch: true,
            preallocate_hostmem: false,
        }
    }

    /// Takes every setting the file gives, except the device limit (read
    /// apart) and automatic prefetch (not taken from the file).
    pub fn merge_from(&mut self, other: InitConfig)
        ensures
            final(self).shmem_size_mb == (match other.shmem_size_mb { Some(v) => v, None => old(self).shmem_size_mb }),
            final(self).hostmem_size_mb == (match other.hostmem_size_mb { Some(v) => v, None => old(self).hostmem_size_mb }),
            final(self).device_memory_mb == (match other.device_memory_mb { Some(v) => v, None => old(self).device_memory_mb }),
            final(self).schedule_cooldown == (match other.schedule_cooldown { Some(v) => Some(v), None => old(self).schedule_cooldown }),
            final(self).preallocate_hostmem == (match other.preallocate_hostmem { Some(v) => v, None => old(self).preallocate_hostmem }),
            final(self).automatic_prefetch == old(self).automatic_prefetch,
    {
        if let Some(v) = other.shmem_size_mb {
            self.shmem_size_mb = v;
        }
        if let Some(v) = other.hostmem_size_mb {
            self.hostmem_size_mb = v;
        }
        if let Some(v) = other.device_memory_mb {
            self.device_memory_mb = v;
        }
        if let Some(v) = other.schedule_cooldown {
            self.schedule_cooldown = Some(v);
        }
        if let Some(v) = other.preallocate_hostmem {
            self.preallocate_hostmem = v;
        }
    }

    /// Takes the command-line settings: sizes given in bytes become whole
    /// MiB (rounded down).
    pub fn apply_cli(&mut self, cli: &CliConfig)
        ensures
            final(self).shmem_size_mb == (match cli.shmem_size { Some(b) => (b / MIB) as usize, None => old(self).shmem_size_mb }),
            final(self).hostmem_size_mb == (match cli.hostmem_size { Some(b) => (b / MIB) as usize, None => old(self).hostmem_size_mb }),
            final(self).automatic_prefetch == (match cli.automatic_prefetch { Some(v) => v, None => old(self).automatic_prefetch }),
            final(self).device_memory_mb == old(self).device_memory_mb,
            final(self).schedule_cooldown == old(self).schedule_cooldown,
            final(self).preallocate_hostmem == old(self).preallocate_hostmem,
    {
        if let Some(b) = cli.shmem_size {
            self.shmem_size_mb = (b / MIB) as usize;
        }
        if let Some(b) = cli.hostmem_size {
            self.hostmem_size_mb = (b / MIB) as usize;
        }
        if let Some(v) = cli.automatic_prefetch {
            self.automatic_prefetch = v;
        }
    }

    /// Accepts the settings when both memory sizes are even numbers of
    /// MiB.
    pub fn check_sizes(&self) -> (r: Result<(), ConfigError>)
        ensures
            r is Ok <==> (self.shmem_size_mb % 2 == 0 && self.hostmem_size_mb % 2 == 0),
            r is Err ==> r == Err::<(), ConfigError>(
                ConfigError::OddSizes { shmem_size_mb: self.shmem_size_mb, hostmem_size_mb: self.hostmem_size_mb },
            ),
    {
        if self.shmem_size_mb % 2 != 0 || self.hostmem_size_mb % 2 != 0 {
            return Err(ConfigError::OddSizes { shmem_size_mb: self.shmem_size_mb, hostmem_size_mb: self.hostmem_size_mb });
        }
        Ok(())
    }

    /// Takes the changes made at run time: the cooldown always (none
    /// clears it), automatic prefetch if given.
    pub fn update_from(&mut self, schedule_cooldown: Option<Duration>, automatic_prefetch: Option<bool>)
        ensures
            final(self).schedule_cooldown == schedule_cooldown,
            final(self).automatic_prefetch == (match automatic_prefetch { Some(v) => v, None => old(self).automatic_prefetch }),
            final(self).shmem_size_mb == old(self).shmem_size_mb,
            final(self).hostmem_size_mb == old(self).hostmem_size_mb,
            final(self).device_memory_mb == old(self).device_memory_mb,
            final(self).preallocate_hostmem == old(self).preallocate_hostmem,
    {
        self.schedule_cooldown = schedule_cooldown;
        if let Some(v) = automatic_prefetch {
            self.automatic_prefetch = v;
        }
    }
}

/// The device limit text to use: the command line's if given, else the
/// settings file's.
pub fn device_limit_spec(file: Option<String>, cli: Option<String>) -> (s: Option<String>)
    ensures
        s == (match cli { Some(c) => Some(c), None => file }),
{
    match cli {
        Some(c) => Some(c),
        None => file,
    }
}

} // verus!
