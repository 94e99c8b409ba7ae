use dockui::docker::{containers_from_summaries, ContainerEvent, ContainerSummary};
use dockui::idmap::IdMap;
use dockui::registry::Registry;
use dockui::types::ContainerInfo;

fn info(id: &str, name: &str, state: &str) -> ContainerInfo {
    ContainerInfo { id: id.into(), name: name.into(), image: String::new(), state: state.into(), status: String::new(), created: 0 }
}

fn summary(id: Option<&str>, names: Option<Vec<&str>>, state: &str) -> ContainerSummary {
    ContainerSummary {
        id: id.map(|s| s.to_string()),
        names: names.map(|v| v.into_iter().map(|s| s.to_string()).collect()),
        image: Some("img".into()),
        state: Some(state.into()),
        status: None,
        created: Some(12),
    }
}

#[test]
fn registry_lists_and_filters_running() {
    let mut r = Registry::new();
    assert!(r.list().is_empty());
    r.refresh(Some(vec![info("a", "x", "running"), info("b", "y", "exited"), info("c", "z", "running")]));
    let ids: Vec<String> = r.running().into_iter().map(|c| c.id).collect();
    assert_eq!(ids, vec!["a".to_string(), "c".to_string()]);
    assert_eq!(r.running_ids(), vec!["a".to_string(), "c".to_string()]);
    r.refresh(None);
    assert_eq!(r.list().len(), 3);
    let d = Registry::default();
    assert!(d.running().is_empty());
}

#[test]
fn listing_sorted_by_lowercase_name() {
    let out = containers_from_summaries(vec![
        summary(Some("1111111111111111"), Some(vec!["/Zeta"]), "running"),
        summary(None, Some(vec!["/ghost"]), "running"),
        summary(Some("2222222222222222"), Some(vec!["//alpha", "/other"]), "exited"),
        summary(Some("3333333333333333aaaa"), None, "running"),
        summary(Some("4444"), Some(vec![]), "running"),
        summary(Some("5555"), Some(vec!["/ALPHA"]), "running"),
    ]);
    let names: Vec<String> = out.iter().map(|c| c.name.clone()).collect();
    assert_eq!(names, vec!["333333333333", "4444", "alpha", "ALPHA", "Zeta"]);
    assert_eq!(out[2].id, "2222222222222222");
    assert_eq!(out[2].image, "img");
    assert_eq!(out[2].status, "");
    assert_eq!(out[2].created, 12);
}

#[test]
fn container_events() {
    let e = ContainerEvent::from_parts(Some("start".into()), Some("abc".into())).unwrap();
    assert_eq!((e.action.as_str(), e.id.as_str()), ("start", "abc"));
    assert!(ContainerEvent::from_parts(None, Some("abc".into())).is_none());
    assert!(ContainerEvent::from_parts(Some("die".into()), None).is_none());
}

#[test]
fn id_map_operations() {
    let mut m: IdMap<u32> = IdMap::new();
    m.insert("a".into(), 1);
    m.insert("b".into(), 2);
    m.insert("a".into(), 3);
    assert_eq!(m.len(), 2);
    assert_eq!(m.get("a"), Some(&3));
    assert!(m.contains_key("b"));
    let stale = m.keys_not_in(&vec!["a".to_string()]);
    assert_eq!(stale, vec!["b".to_string()]);
    m.retain_ids(&vec!["b".to_string(), "z".to_string()]);
    assert_eq!(m.len(), 1);
    assert_eq!(m.remove("b"), Some(2));
    assert_eq!(m.remove("b"), None);
    assert_eq!(m.len(), 0);
}
