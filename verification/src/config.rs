//! Settings, read from a snapshot of the process environment.
use vstd::prelude::*;
use vstd::string::*;

use crate::text::{chars_of, parse_u64, parse_u64_str, span_eq};

verus! {

/// The service's settings. Durations are in the unit their variable is given in.
pub struct Config {
    pub bind: String,
    pub data_dir: String,
    pub live_interval_ms: u64,
    pub persist_interval_ms: u64,
    pub retention_secs: u64,
    pub prune_interval_secs: u64,
    pub log_max_bytes: u64,
    pub log_keep: u32,
    pub log_tail_default: usize,
    pub log_backfill: usize,
    pub force_docker_stats: bool,
}

/// The value of the first variable named `key`.
pub open spec fn lookup(vars: Seq<(String, String)>, key: Seq<char>) -> Option<Seq<char>>
    decreases vars.len(),
{
    if vars.len() == 0 {
        None
    } else if vars[0].0@ == key {
        Some(vars[0].1@)
    } else {
        lookup(vars.drop_first(), key)
    }
}

pub open spec fn env_string_spec(
    vars: Seq<(String, String)>,
    key: Seq<char>,
    default: Seq<char>,
) -> Seq<char> {
    match lookup(vars, key) {
        Some(v) => v,
        None => default,
    }
}

pub open spec fn env_u64_spec(vars: Seq<(String, String)>, key: Seq<char>, default: u64) -> u64 {
    match lookup(vars, key) {
        Some(v) => match parse_u64(v) {
            Some(n) => n,
            None => default,
        },
        None => default,
    }
}

pub open spec fn ascii_lower(c: char) -> char {
    if 'A' as u32 <= c as u32 <= 'Z' as u32 {
        ((c as u32) + 32) as char
    } else {
        c
    }
}

/// The words that switch a flag on, compared after ASCII lowercasing.
pub open spec fn truthy(v: Seq<char>) -> bool {
    let l = v.map_values(|c: char| ascii_lower(c));
    ||| l == seq!['1']
    ||| l == seq!['t', 'r', 'u', 'e']
    ||| l == seq!['y', 'e', 's']
    ||| l == seq!['o', 'n']
}

pub open spec fn env_bool_spec(vars: Seq<(String, String)>, key: Seq<char>, default: bool) -> bool {
    match lookup(vars, key) {
        Some(v) => truthy(v),
        None => default,
    }
}

/// Whether two strings hold the same characters.
pub fn str_eq(a: &str, b: &str) -> (r: bool)
    ensures
        r == (a@ == b@),
{
    let x = chars_of(a);
    let y = chars_of(b);
    assert(x@.subrange(0, x@.len() as int) =~= x@);
    span_eq(&x, 0, x.len(), y.as_slice())
}

/// The value of the first variable named `key`.
pub fn env_lookup<'a>(vars: &'a Vec<(String, String)>, key: &str) -> (r: Option<&'a String>)
    ensures
        match r {
            Some(v) => lookup(vars@, key@) == Some(v@),
            None => lookup(vars@, key@).is_none(),
        },
{
    let mut i: usize = 0;
    assert(vars@.skip(0) =~= vars@);
    while i < vars.len()
        invariant
            i <= vars@.len(),
            lookup(vars@, key@) == lookup(vars@.skip(i as int), key@),
        decreases vars@.len() - i,
    {
        assert(vars@.skip(i as int).drop_first() =~= vars@.skip(i + 1));
        if str_eq(vars[i].0.as_str(), key) {
            return Some(&vars[i].1);
        }
        i = i + 1;
    }
    None
}

/// The variable `key`, or `default` when it is not set.
pub fn env_string(vars: &Vec<(String, String)>, key: &str, default: &str) -> (r: String)
    ensures
        r@ == env_string_spec(vars@, key@, default@),
{
    match env_lookup(vars, key) {
        Some(v) => v.clone(),
        None => String::from_str(default),
    }
}

/// The variable `key` read as a `u64`, or `default` when it is not set or not a number.
pub fn env_u64(vars: &Vec<(String, String)>, key: &str, default: u64) -> (r: u64)
    ensures
        r == env_u64_spec(vars@, key@, default),
{
    match env_lookup(vars, key) {
        Some(v) => match parse_u64_str(v.as_str()) {
            Some(n) => n,
            None => default,
        },
        None => default,
    }
}

/// The variable `key` read as a flag (`1`, `true`, `yes`, `on` in any ASCII case),
/// or `default` when it is not set.
pub fn env_bool(vars: &Vec<(String, String)>, key: &str, default: bool) -> (r: bool)
    ensures
        r == env_bool_spec(vars@, key@, default),
{
    match env_lookup(vars, key) {
        Some(v) => {
            let cs = chars_of(v.as_str());
            let mut low: Vec<char> = Vec::new();
            let mut i: usize = 0;
            while i < cs.len()
                invariant
                    i <= cs@.len(),
                    low@ == cs@.take(i as int).map_values(|c: char| ascii_lower(c)),
                decreases cs@.len() - i,
            {
                let c = cs[i];
                let u = c as u32;
                let l = if 'A' as u32 <= u && u <= 'Z' as u32 {
                    ((u + 32) as u8) as char
                } else {
                    c
                };
                proof {
                    assert(l == ascii_lower(c)) by {
                        if 'A' as u32 <= u <= 'Z' as u32 {
                            assert(((u + 32) as u8) as char == ((u + 32) as char));
                        }
                    }
                }
                low.push(l);
                i = i + 1;
                assert(low@ =~= cs@.take(i as int).map_values(|c: char| ascii_lower(c)));
            }
            assert(cs@.take(cs@.len() as int) =~= cs@);
            let n = low.len();
            assert(low@.subrange(0, n as int) =~= low@);
            let one: [char; 1] = ['1'];
            let tr: [char; 4] = ['t', 'r', 'u', 'e'];
            let ye: [char; 3] = ['y', 'e', 's'];
            let on: [char; 2] = ['o', 'n'];
            let r = span_eq(&low, 0, n, &one) || span_eq(&low, 0, n, &tr) || span_eq(
                &low,
                0,
                n,
                &ye,
            ) || span_eq(&low, 0, n, &on);
            assert(one@ =~= seq!['1']);
            assert(tr@ =~= seq!['t', 'r', 'u', 'e']);
            assert(ye@ =~= seq!['y', 'e', 's']);
            assert(on@ =~= seq!['o', 'n']);
            r
        },
        None => default,
    }
}

/// Seconds in a day.
pub const SECS_PER_DAY: u64 = 86400;

impl Config {
    /// The settings that the variables `vars` (name, value) select, with the
    /// documented defaults for those that are missing or malformed.
    pub fn from_env(vars: &Vec<(String, String)>) -> (r: Config)
        requires
            env_u64_spec(vars@, "DOCKUI_RETENTION_DAYS"@, 7) * SECS_PER_DAY <= u64::MAX,
        ensures
            r.bind@ == env_string_spec(vars@, "DOCKUI_BIND"@, "0.0.0.0:8080"@),
            r.data_dir@ == env_string_spec(vars@, "DOCKUI_DATA_DIR"@, "./data"@),
            r.live_interval_ms == env_u64_spec(vars@, "DOCKUI_LIVE_INTERVAL_MS"@, 2000),
            r.persist_interval_ms == env_u64_spec(vars@, "DOCKUI_PERSIST_INTERVAL_MS"@, 15000),
            r.retention_secs == env_u64_spec(vars@, "DOCKUI_RETENTION_DAYS"@, 7) * SECS_PER_DAY,
            r.prune_interval_secs == env_u64_spec(vars@, "DOCKUI_PRUNE_INTERVAL_SECS"@, 3600),
            r.log_max_bytes == env_u64_spec(vars@, "DOCKUI_LOG_MAX_BYTES"@, 10485760),
            r.log_keep == env_u64_spec(vars@, "DOCKUI_LOG_KEEP"@, 3) as u32,
            r.log_tail_default == env_u64_spec(vars@, "DOCKUI_LOG_TAIL_DEFAULT"@, 500) as usize,
            r.log_backfill == env_u64_spec(vars@, "DOCKUI_LOG_BACKFILL"@, 200) as usize,
            r.force_docker_stats == env_bool_spec(vars@, "DOCKUI_FORCE_DOCKER_STATS"@, false),
    {
        let days = env_u64(vars, "DOCKUI_RETENTION_DAYS", 7);
        Config {
            bind: env_string(vars, "DOCKUI_BIND", "0.0.0.0:8080"),
            data_dir: env_string(vars, "DOCKUI_DATA_DIR", "./data"),
            live_interval_ms: env_u64(vars, "DOCKUI_LIVE_INTERVAL_MS", 2000),
            persist_interval_ms: env_u64(vars, "DOCKUI_PERSIST_INTERVAL_MS", 15000),
            retention_secs: days * SECS_PER_DAY,
            prune_interval_secs: env_u64(vars, "DOCKUI_PRUNE_INTERVAL_SECS", 3600),
            log_max_bytes: env_u64(vars, "DOCKUI_LOG_MAX_BYTES", 10485760),
            log_keep: env_u64(vars, "DOCKUI_LOG_KEEP", 3) as u32,
            log_tail_default: env_u64(vars, "DOCKUI_LOG_TAIL_DEFAULT", 500) as usize,
            log_backfill: env_u64(vars, "DOCKUI_LOG_BACKFILL", 200) as usize,
            force_docker_stats: env_bool(vars, "DOCKUI_FORCE_DOCKER_STATS", false),
        }
    }

    /// A copy of these settings.
    pub fn duplicate(&self) -> (r: Config)
        ensures
            r.bind@ == self.bind@,
            r.data_dir@ == self.data_dir@,
            r.live_interval_ms == self.live_interval_ms,
            r.persist_interval_ms == self.persist_interval_ms,
            r.retention_secs == self.retention_secs,
            r.prune_interval_secs == self.prune_interval_secs,
            r.log_max_bytes == self.log_max_bytes,
            r.log_keep == self.log_keep,
            r.log_tail_default == self.log_tail_default,
            r.log_backfill == self.log_backfill,
            r.force_docker_stats == self.force_docker_stats,
    {
        Config {
            bind: self.bind.clone(),
            data_dir: self.data_dir.clone(),
            live_interval_ms: self.live_interval_ms,
            persist_interval_ms: self.persist_interval_ms,
            retention_secs: self.retention_secs,
            prune_interval_secs: self.prune_interval_secs,
            log_max_bytes: self.log_max_bytes,
            log_keep: self.log_keep,
            log_tail_default: self.log_tail_default,
            log_backfill: self.log_backfill,
            force_docker_stats: self.force_docker_stats,
        }
    }
}

} // verus!
