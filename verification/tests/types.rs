use dockui::types::{range_to_millis, try_range_to_millis, ContainerInfo, ContainerRef, CpuShare};
use dockui::web::{log_tail_count, log_view_tail, prune_cutoff, try_prune_cutoff, try_window, window, asset_path, static_reply, StaticReply, needs_channel};
use dockui::types::LogQuery;
use dockui::idmap::IdMap;

fn r(s: &str) -> Option<String> {
    Some(s.to_string())
}

#[test]
fn named_ranges() {
    assert_eq!(range_to_millis(&None), 3_600_000);
    assert_eq!(range_to_millis(&r("5m")), 300_000);
    assert_eq!(range_to_millis(&r("15m")), 900_000);
    assert_eq!(range_to_millis(&r("1h")), 3_600_000);
    assert_eq!(range_to_millis(&r("6h")), 21_600_000);
    assert_eq!(range_to_millis(&r("24h")), 86_400_000);
    assert_eq!(range_to_millis(&r("1d")), 86_400_000);
    assert_eq!(range_to_millis(&r("7d")), 604_800_000);
}

#[test]
fn minute_ranges_and_fallback() {
    assert_eq!(range_to_millis(&r("30m")), 1_800_000);
    assert_eq!(range_to_millis(&r("30")), 1_800_000);
    assert_eq!(range_to_millis(&r("2mmm")), 120_000);
    assert_eq!(range_to_millis(&r("-5m")), -300_000);
    assert_eq!(range_to_millis(&r("3h")), 3_600_000);
    assert_eq!(range_to_millis(&r("")), 3_600_000);
    assert_eq!(try_range_to_millis(&r("153722867280913m")), None);
    assert_eq!(try_range_to_millis(&r("153722867280912m")), Some(153722867280912 * 60_000));
}

#[test]
fn history_window() {
    let (since, bucket) = window(&r("7d"), 15_000, 1_000_000_000_000);
    assert_eq!(since, 1_000_000_000_000 - 604_800_000);
    assert_eq!(bucket, 756_000);
    let (since, bucket) = window(&r("15m"), 15_000, 10_000_000);
    assert_eq!(since, 10_000_000 - 900_000);
    assert_eq!(bucket, 15_000);
    let (_, bucket) = window(&r("-5m"), 0, 0);
    assert_eq!(bucket, 1);
    let (_, bucket) = window(&r("-800m"), -100_000, 0);
    assert_eq!(bucket, 1);
    assert_eq!(try_window(&r("-153722867280912m"), 15_000, 1_700_000_000_000), None);
    assert_eq!(try_window(&r("1h"), 15_000, i64::MIN + 10), None);
}

#[test]
fn log_tail_requests() {
    assert_eq!(log_tail_count(&LogQuery { tail: None }, 500), 500);
    assert_eq!(log_tail_count(&LogQuery { tail: Some(20) }, 500), 20);
    assert_eq!(log_tail_count(&LogQuery { tail: Some(9000) }, 500), 5000);
    assert_eq!(log_tail_count(&LogQuery { tail: None }, 7000), 5000);
    assert_eq!(log_view_tail("abc", &LogQuery { tail: Some(9000) }, 500), Some(5000));
    assert_eq!(log_view_tail("abc", &LogQuery { tail: None }, 500), Some(500));
    assert_eq!(log_view_tail("not-an-id", &LogQuery { tail: Some(1) }, 500), None);
}

#[test]
fn prune_cutoff_subtracts_retention() {
    assert_eq!(prune_cutoff(1_000_000_000, 3600), 1_000_000_000 - 3_600_000);
    assert_eq!(try_prune_cutoff(i64::MIN, 1), None);
}

#[test]
fn static_files() {
    assert_eq!(asset_path("/"), "index.html");
    assert_eq!(asset_path("//assets/app.js"), "assets/app.js");
    assert_eq!(asset_path(""), "index.html");
    match static_reply("assets/app.js", true, true) {
        StaticReply::Asset { path, content_type } => {
            assert_eq!(path, "assets/app.js");
            assert_eq!(content_type, "text/javascript");
        }
        StaticReply::NotFound => panic!("expected the asset"),
    }
    match static_reply("logo.svg", true, true) {
        StaticReply::Asset { content_type, .. } => assert_eq!(content_type, "image/svg+xml"),
        StaticReply::NotFound => panic!("expected the asset"),
    }
    match static_reply("blob.unknownext", true, false) {
        StaticReply::Asset { content_type, .. } => assert_eq!(content_type, "application/octet-stream"),
        StaticReply::NotFound => panic!("expected the asset"),
    }
    match static_reply("missing/route", false, true) {
        StaticReply::Asset { path, content_type } => {
            assert_eq!(path, "index.html");
            assert_eq!(content_type, "text/html");
        }
        StaticReply::NotFound => panic!("expected the index"),
    }
    assert!(matches!(static_reply("x", false, false), StaticReply::NotFound));
}

#[test]
fn channels_started_once_for_valid_ids() {
    let mut m: IdMap<u32> = IdMap::new();
    assert!(needs_channel(&m, "abc123"));
    m.insert("abc123".to_string(), 1);
    assert!(!needs_channel(&m, "abc123"));
    assert!(!needs_channel(&m, "not-hex"));
}

#[test]
fn small_values() {
    assert_eq!(CpuShare::idle(), CpuShare { busy: 0, total: 0, cpus: 1 });
    let c = ContainerInfo {
        id: "a".into(),
        name: "n".into(),
        image: "i".into(),
        state: "running".into(),
        status: "Up".into(),
        created: 5,
    };
    let d = c.duplicate();
    assert_eq!((d.id, d.name, d.image, d.state, d.status, d.created), (c.id, c.name, c.image, c.state, c.status, c.created));
    let r = ContainerRef { id: "x".into() };
    assert_eq!(r.duplicate().id, "x");
}
