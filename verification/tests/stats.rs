use dockui::stats::cgroup::{
    read_field, read_max, read_paths, read_u64, resolve_v1, resolve_v2, v1_cpu_candidates,
    v1_mem_candidates, v2_candidates, CgFiles, CgPaths, CgroupSource,
};
use dockui::stats::dockerapi::{DockerApiSource, DockerSample};
use dockui::stats::host::{
    check_readings, read_meminfo, read_ncpu, try_read_meminfo, try_stat_counters, total_mem,
    FallbackHost, HostBackend, HostReadings, ProcHost,
};
use dockui::stats::{complete_tick, missing_refs, use_proc_host, ContainerBackend, PersistClock};
use dockui::types::{ContainerRef, ContainerStat, CpuShare, HostCpu};

fn t(s: &str) -> Option<String> {
    Some(s.to_string())
}

fn refs(ids: &[&str]) -> Vec<ContainerRef> {
    ids.iter().map(|i| ContainerRef { id: i.to_string() }).collect()
}

#[test]
fn cgroup_file_formats() {
    assert_eq!(read_u64(&t(" 123\n")), Some(123));
    assert_eq!(read_u64(&t("x")), None);
    assert_eq!(read_u64(&None), None);
    assert_eq!(read_max(&t("max\n")), 0);
    assert_eq!(read_max(&t("1048576\n")), 1048576);
    assert_eq!(read_max(&t("junk")), 0);
    assert_eq!(read_max(&None), 0);
    let stat = t("usage_usec 5000\nuser_usec 3000\nusage_usec 1\n");
    let key: Vec<char> = "usage_usec".chars().collect();
    assert_eq!(read_field(&stat, &key), Some(5000));
    let key2: Vec<char> = "system_usec".chars().collect();
    assert_eq!(read_field(&stat, &key2), None);
    assert_eq!(read_field(&t("usage_usec\n"), &key), None);
    assert_eq!(read_field(&t("usage_usec abc\nusage_usec 4"), &key), None);
}

#[test]
fn cgroup_v2_reading() {
    let files = CgFiles {
        cpu: t("usage_usec 1000000\nuser_usec 1\n"),
        mem_current: t("500000\n"),
        mem_stat: t("anon 1\ninactive_file 200000\n"),
        mem_limit: t("max\n"),
    };
    assert_eq!(read_paths(true, &files), Some((1000000, 300000, 0)));
    let small = CgFiles { cpu: t("usage_usec 7"), mem_current: t("10"), mem_stat: t("inactive_file 20"), mem_limit: t("64") };
    assert_eq!(read_paths(true, &small), Some((7, 0, 64)));
    let no_cpu = CgFiles { cpu: None, mem_current: None, mem_stat: None, mem_limit: None };
    assert_eq!(read_paths(true, &no_cpu), None);
}

#[test]
fn cgroup_v1_reading() {
    let files = CgFiles {
        cpu: t("123456789\n"),
        mem_current: t("800\n"),
        mem_stat: t("total_inactive_file 300\n"),
        mem_limit: t("9223372036854771712\n"),
    };
    assert_eq!(read_paths(false, &files), Some((123456, 500, 0)));
    let limited = CgFiles { cpu: t("999"), mem_current: None, mem_stat: None, mem_limit: t("1024") };
    assert_eq!(read_paths(false, &limited), Some((0, 0, 1024)));
}

#[test]
fn cgroup_locations() {
    let v2 = v2_candidates("abc");
    assert_eq!(
        v2,
        vec![
            "/sys/fs/cgroup/system.slice/docker-abc.scope".to_string(),
            "/sys/fs/cgroup/docker/abc".to_string(),
            "/sys/fs/cgroup/system.slice/docker-abc.scope/init.scope".to_string(),
        ]
    );
    assert_eq!(v1_cpu_candidates("abc")[1], "/sys/fs/cgroup/cpuacct/docker/abc");
    assert_eq!(v1_mem_candidates("abc")[0], "/sys/fs/cgroup/memory/docker/abc");
    match resolve_v2("abc", &vec![false, true, true]) {
        Some(CgPaths::V2 { base }) => assert_eq!(base, "/sys/fs/cgroup/docker/abc"),
        _ => panic!("expected v2 paths"),
    }
    assert!(resolve_v2("abc", &vec![false, false, false]).is_none());
    match resolve_v1("abc", &vec![false, false, true], &vec![true, false]) {
        Some(CgPaths::V1 { cpu, mem }) => {
            assert_eq!(cpu, "/sys/fs/cgroup/cpu,cpuacct/system.slice/docker-abc.scope");
            assert_eq!(mem, "/sys/fs/cgroup/memory/docker/abc");
        }
        _ => panic!("expected v1 paths"),
    }
    assert!(resolve_v1("abc", &vec![true, false, false], &vec![false, false]).is_none());
}

#[test]
fn cgroup_sampling_uses_previous_counters() {
    let mut src = CgroupSource::new(true);
    src.resolve("a".to_string(), Some(CgPaths::V2 { base: "/x".to_string() }));
    src.resolve("gone".to_string(), None);
    assert!(src.cached_paths("a").is_some());
    let first = src.sample(&refs(&["a", "b"]), &vec![Some((1000, 10, 0)), None], 1_000_000, 4096);
    assert_eq!(first.len(), 1);
    assert_eq!(first[0].id, "a");
    assert_eq!(first[0].cpu, CpuShare { busy: 0, total: 0, cpus: 1 });
    assert_eq!(first[0].mem_limit, 4096);
    assert!(src.cached_paths("gone").is_none());
    let second = src.sample(&refs(&["a"]), &vec![Some((1500, 20, 100))], 3_000_000, 4096);
    assert_eq!(second[0].cpu, CpuShare { busy: 500, total: 2_000_000, cpus: 1 });
    assert_eq!(second[0].mem_bytes, 20);
    assert_eq!(second[0].mem_limit, 100);
    let _ = src.sample(&refs(&[]), &vec![], 4_000_000, 4096);
    assert!(src.cached_paths("a").is_none());
    src.resolve("a".to_string(), Some(CgPaths::V2 { base: "/x".to_string() }));
    let again = src.sample(&refs(&["a"]), &vec![Some((2000, 20, 100))], 5_000_000, 4096);
    assert_eq!(again[0].cpu, CpuShare { busy: 0, total: 0, cpus: 1 });
}

#[test]
fn cgroup_failed_lookup_is_kept() {
    let mut src = CgroupSource::new(true);
    src.resolve("a".to_string(), Some(CgPaths::V2 { base: "/x".to_string() }));
    src.resolve("b".to_string(), None);
    let r = refs(&["a", "b", "c"]);
    let out = src.sample(&r, &vec![Some((1, 2, 3)), Some((4, 5, 6)), Some((7, 8, 9))], 10, 4096);
    let ids: Vec<String> = out.iter().map(|s| s.id.clone()).collect();
    assert_eq!(ids, vec!["a".to_string()]);
    assert!(matches!(src.cached_paths("b"), Some(None)));
    let out = src.sample(&r, &vec![None, Some((4, 5, 6)), None], 20, 4096);
    assert!(out.is_empty());
    assert!(matches!(src.cached_paths("b"), Some(None)));
}

fn ds(total: u64, system: u64, online: u64, mem: u64, limit: u64) -> Option<DockerSample> {
    Some(DockerSample { total_usage: total, system_usage: system, online_cpus: online, mem_bytes: mem, mem_limit: limit })
}

#[test]
fn docker_api_sampling() {
    let mut src = DockerApiSource::new();
    let r = refs(&["a", "b"]);
    let first = src.sample(&r, &vec![ds(100, 1000, 2, 5, 0), ds(50, 1000, 0, 6, 100)], 1000, 8);
    assert_eq!(first[0].cpu, CpuShare { busy: 0, total: 0, cpus: 1 });
    assert_eq!(first[0].mem_limit, 1000);
    assert_eq!(first[1].mem_limit, 100);
    let second = src.sample(&r, &vec![ds(300, 2000, 2, 5, 4000), ds(40, 3000, 0, 6, 3999)], 1000, 8);
    assert_eq!(second[0].cpu, CpuShare { busy: 200, total: 1000, cpus: 2 });
    assert_eq!(second[0].mem_limit, 1000);
    assert_eq!(second[1].cpu, CpuShare { busy: 0, total: 2000, cpus: 8 });
    assert_eq!(second[1].mem_limit, 3999);
    let none_host = src.sample(&r, &vec![ds(300, 2000, 2, 5, 123), None], 0, 8);
    assert_eq!(none_host.len(), 1);
    assert_eq!(none_host[0].id, "a");
    assert_eq!(none_host[0].mem_limit, 123);
    let later = src.sample(&r, &vec![ds(400, 2500, 2, 5, 0), ds(60, 4000, 0, 6, 0)], 1000, 8);
    assert_eq!(later[0].cpu, CpuShare { busy: 100, total: 500, cpus: 2 });
    assert_eq!(later[1].cpu, CpuShare { busy: 20, total: 1000, cpus: 8 });
}

#[test]
fn proc_stat_counters() {
    let stat = t("cpu  100 0 50 800 50 0 0 0 0 0\ncpu0 1 2 3 4\ncpu1 1 2 3 4\nintr 5\n");
    assert_eq!(try_stat_counters(&stat), Some(Some((150, 1000))));
    assert_eq!(try_stat_counters(&t("cpu 1 2 3\n")), Some(None));
    assert_eq!(try_stat_counters(&t("cpux 1 2 3 4\n")), Some(None));
    assert_eq!(try_stat_counters(&t("cpu\t1 x 2 3 4\n")), Some(Some((6, 10))));
    assert_eq!(try_stat_counters(&None), Some(None));
    assert_eq!(try_stat_counters(&t("cpu 18446744073709551615 1 1 1\n")), None);
    assert_eq!(read_ncpu(&stat, 1), 2);
    assert_eq!(read_ncpu(&stat, 4), 4);
    assert_eq!(read_ncpu(&None, 3), 3);
}

#[test]
fn proc_meminfo() {
    let m = t("MemTotal:       16000 kB\nMemFree: 1 kB\nMemAvailable:    4000 kB\n");
    assert_eq!(read_meminfo(&m), (16000 * 1024, 4000 * 1024));
    assert_eq!(read_meminfo(&t("MemTotal: 10 kB\nMemAvailable: 20 kB\n")), (10240, 10240));
    assert_eq!(read_meminfo(&t("MemTotal: x kB\n")), (0, 0));
    assert_eq!(read_meminfo(&None), (0, 0));
    assert_eq!(try_read_meminfo(&t("MemTotal: 18446744073709551615 kB\n")), None);
}

#[test]
fn proc_host_samples() {
    let mut h = ProcHost::new();
    let r1 = HostReadings {
        ncpu_stat: t("cpu 1 1 1 1\ncpu0 1 1 1 1\ncpu1 1 1 1 1\n"),
        parallelism: 1,
        meminfo_before: t("MemTotal: 100 kB\n"),
        stat: t("cpu 100 0 100 800 0\n"),
        meminfo: t("MemTotal: 100 kB\nMemAvailable: 40 kB\n"),
    };
    assert!(check_readings(&r1));
    let s1 = h.sample(&r1);
    assert_eq!(s1.cpu, HostCpu::Share(CpuShare { busy: 0, total: 0, cpus: 1 }));
    assert_eq!(s1.mem_total, 102400);
    assert_eq!(s1.mem_used, 61440);
    assert_eq!(s1.ncpu, 2);
    assert_eq!(h.ncpu, 2);
    let r2 = HostReadings { stat: t("cpu 150 0 150 900 0\n"), ..r1 };
    let s2 = h.sample(&r2);
    assert_eq!(s2.cpu, HostCpu::Share(CpuShare { busy: 100, total: 200, cpus: 1 }));
}

fn cs(id: &str, mem: u64) -> ContainerStat {
    ContainerStat { id: id.to_string(), cpu: CpuShare::idle(), mem_bytes: mem, mem_limit: 0 }
}

#[test]
fn fallback_host() {
    let f = FallbackHost::from_info(Some((Some(0), Some(-5))), 9);
    assert_eq!((f.ncpu, f.mem_total), (1, 0));
    let f = FallbackHost::from_info(Some((Some(6), Some(1000))), 9);
    assert_eq!((f.ncpu, f.mem_total), (6, 1000));
    let f2 = FallbackHost::from_info(None, 9);
    assert_eq!((f2.ncpu, f2.mem_total), (9, 0));
    let s = f.sample(&vec![cs("a", 600), cs("b", 600)]);
    assert_eq!(s.mem_used, 1000);
    assert_eq!(s.cpu, HostCpu::ContainerAverage);
    assert_eq!(total_mem(&vec![cs("a", u64::MAX), cs("b", 1)]), None);
    let mut b = HostBackend::Fallback(f);
    assert_eq!(b.ncpu(), 6);
    assert_eq!(b.mem_total(), 1000);
    let empty = HostReadings { ncpu_stat: None, parallelism: 1, meminfo_before: None, stat: None, meminfo: None };
    let s = b.sample(&empty, &vec![cs("a", 10)]);
    assert_eq!(s.mem_used, 10);
    let p = HostBackend::Proc(ProcHost::new());
    assert_eq!(p.ncpu(), 1);
}

#[test]
fn collector_decisions() {
    let stats = vec![cs("b", 1)];
    let missing = missing_refs(&refs(&["a", "b", "c"]), &stats);
    let ids: Vec<String> = missing.into_iter().map(|r| r.id).collect();
    assert_eq!(ids, vec!["a".to_string(), "c".to_string()]);
    let mut fallback = DockerApiSource::new();
    let missing = missing_refs(&refs(&["a", "b", "c"]), &stats);
    let tick = complete_tick(stats, &missing, &mut fallback, &vec![ds(10, 100, 1, 7, 0), None], 1000, 2);
    let ids: Vec<String> = tick.iter().map(|s| s.id.clone()).collect();
    assert_eq!(ids, vec!["b".to_string(), "a".to_string()]);
    assert_eq!(tick[1].mem_bytes, 7);
    let none_missing = missing_refs(&refs(&["b"]), &vec![cs("b", 1)]);
    let tick = complete_tick(vec![cs("b", 1)], &none_missing, &mut fallback, &vec![], 1000, 2);
    assert_eq!(tick.len(), 1);
    let again = complete_tick(vec![], &refs(&["a"]), &mut fallback, &vec![ds(30, 300, 1, 7, 0)], 1000, 2);
    assert_eq!(again[0].cpu, CpuShare { busy: 20, total: 200, cpus: 1 });
    let mut clock = PersistClock::new(100_000, 15_000);
    assert!(clock.due(100_000, 15_000));
    assert!(!clock.due(110_000, 15_000));
    assert!(clock.due(115_000, 15_000));
    assert_eq!(clock.last, 115_000);
    let early = PersistClock::new(10, 15_000);
    assert_eq!(early.last, 10);
}

#[test]
fn backend_choice() {
    match ContainerBackend::for_host(false, true, true) {
        ContainerBackend::Cgroup { cgroup, .. } => assert!(cgroup.v2),
        ContainerBackend::Docker(_) => panic!("expected cgroup reads"),
    }
    assert!(matches!(ContainerBackend::for_host(true, true, true), ContainerBackend::Docker(_)));
    assert!(matches!(ContainerBackend::for_host(false, false, false), ContainerBackend::Docker(_)));
    assert!(use_proc_host(true, true));
    assert!(!use_proc_host(false, true));
    assert!(!use_proc_host(true, false));
}
