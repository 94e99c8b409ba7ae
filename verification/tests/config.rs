use dockui::config::{env_bool, env_string, env_u64, str_eq, Config};
use dockui::ids::{is_hex_id, short_id};

fn vars(v: &[(&str, &str)]) -> Vec<(String, String)> {
    v.iter().map(|(k, x)| (k.to_string(), x.to_string())).collect()
}

#[test]
fn defaults_when_unset() {
    let c = Config::from_env(&Vec::new());
    assert_eq!(c.bind, "0.0.0.0:8080");
    assert_eq!(c.data_dir, "./data");
    assert_eq!(c.live_interval_ms, 2000);
    assert_eq!(c.persist_interval_ms, 15000);
    assert_eq!(c.retention_secs, 7 * 86400);
    assert_eq!(c.prune_interval_secs, 3600);
    assert_eq!(c.log_max_bytes, 10 * 1024 * 1024);
    assert_eq!(c.log_keep, 3);
    assert_eq!(c.log_tail_default, 500);
    assert_eq!(c.log_backfill, 200);
    assert!(!c.force_docker_stats);
}

#[test]
fn values_from_variables() {
    let v = vars(&[
        ("DOCKUI_BIND", "127.0.0.1:9000"),
        ("DOCKUI_RETENTION_DAYS", "2"),
        ("DOCKUI_LOG_KEEP", "4294967297"),
        ("DOCKUI_LIVE_INTERVAL_MS", "abc"),
        ("DOCKUI_FORCE_DOCKER_STATS", "YeS"),
        ("DOCKUI_LOG_TAIL_DEFAULT", "+10"),
    ]);
    let c = Config::from_env(&v);
    assert_eq!(c.bind, "127.0.0.1:9000");
    assert_eq!(c.retention_secs, 2 * 86400);
    assert_eq!(c.log_keep, 1);
    assert_eq!(c.live_interval_ms, 2000);
    assert!(c.force_docker_stats);
    assert_eq!(c.log_tail_default, 10);
    let d = c.duplicate();
    assert_eq!(d.bind, c.bind);
}

#[test]
fn flag_words() {
    for (s, want) in [("1", true), ("true", true), ("ON", true), ("yes", true), ("0", false), ("no", false), (" true", false)] {
        assert_eq!(env_bool(&vars(&[("F", s)]), "F", false), want, "value {:?}", s);
    }
    assert!(env_bool(&Vec::new(), "F", true));
}

#[test]
fn first_variable_wins() {
    let v = vars(&[("K", "1"), ("K", "2")]);
    assert_eq!(env_u64(&v, "K", 9), 1);
    assert_eq!(env_string(&v, "K", "d"), "1");
    assert_eq!(env_string(&v, "X", "d"), "d");
    assert!(str_eq("abc", "abc"));
    assert!(!str_eq("abc", "abd"));
}

#[test]
fn container_ids() {
    assert!(is_hex_id("0123456789abcdefABCDEF"));
    assert!(is_hex_id(&"a".repeat(64)));
    assert!(!is_hex_id(&"a".repeat(65)));
    assert!(!is_hex_id(""));
    assert!(!is_hex_id("../etc"));
    assert_eq!(short_id("0123456789abcdef"), "0123456789ab");
    assert_eq!(short_id("abc"), "abc");
}
