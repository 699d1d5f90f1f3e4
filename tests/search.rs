use rocket::search_manager::{ListedEntry, SearchManager, SearchPhase};
use rocket::text::contains_text;

fn entry(dir: &str, name: &str, is_dir: bool) -> ListedEntry {
    ListedEntry { path: format!("{}/{}", dir, name), name: name.to_string(), is_dir }
}

fn fake_fs(dir: &str, siblings: usize) -> Option<Vec<ListedEntry>> {
    match dir {
        "/r" => {
            let mut v = vec![entry("/r", "locked", true), entry("/r", "a", true)];
            for i in 0..siblings {
                v.push(entry("/r", &format!("other{}", i), i % 2 == 0));
            }
            Some(v)
        }
        "/r/a" => {
            let mut v = vec![entry("/r/a", "b", true)];
            for i in 0..siblings {
                v.push(entry("/r/a", &format!("x{}", i), false));
            }
            Some(v)
        }
        "/r/a/b" => Some(vec![entry("/r/a/b", "Target.TXT", false), entry("/r/a/b", "plain", false)]),
        "/r/locked" => None,
        _ => Some(Vec::new()),
    }
}

fn run_to_end(m: &mut SearchManager, siblings: usize) -> Vec<String> {
    let mut out = Vec::new();
    while let Some(d) = m.next_directory() {
        m.complete_directory(fake_fs(&d, siblings));
        out.extend(m.drain());
    }
    out
}

#[test]
fn contains_text_cases() {
    assert!(contains_text("target.txt", "get"));
    assert!(contains_text("target.txt", ""));
    assert!(!contains_text("tar", "target"));
    assert!(!contains_text("target", "tx"));
    assert!(contains_text("șters", "ters"));
}

#[test]
fn deep_match_is_found_among_many_siblings() {
    for siblings in [0, 3, 50] {
        let mut m = SearchManager::new();
        m.search_query = "target".to_string();
        m.search_in_volume(&"/r".to_string());
        assert_eq!(m.phase, SearchPhase::Running);
        let found = run_to_end(&mut m, siblings);
        assert_eq!(found, vec!["/r/a/b/Target.TXT".to_string()]);
        assert_eq!(m.phase, SearchPhase::Completed);
        assert_eq!(m.search_content, vec!["/r/a/b/Target.TXT".to_string()]);
    }
}

#[test]
fn query_is_lowered_before_matching() {
    let mut m = SearchManager::new();
    m.search_query = "TaRgEt".to_string();
    m.search(&vec!["/r".to_string()]);
    assert_eq!(m.search_query, "target");
    let found = run_to_end(&mut m, 1);
    assert_eq!(found, vec!["/r/a/b/Target.TXT".to_string()]);
}

#[test]
fn matches_within_a_directory_come_in_listing_order() {
    let mut m = SearchManager::new();
    m.search_query = "o".to_string();
    m.search_in_volume(&"/r".to_string());
    let d = m.next_directory().unwrap();
    assert_eq!(d, "/r");
    m.complete_directory(fake_fs(&d, 2));
    assert_eq!(m.drain(), vec!["/r/locked".to_string(), "/r/other0".to_string(), "/r/other1".to_string()]);
    assert_eq!(m.drain(), Vec::<String>::new());
}

#[test]
fn unreadable_subtree_does_not_stop_the_run() {
    let mut m = SearchManager::new();
    m.search_query = "target".to_string();
    m.search_in_volume(&"/r".to_string());
    let root = m.next_directory().unwrap();
    m.complete_directory(fake_fs(&root, 0));
    let first = m.next_directory().unwrap();
    assert_eq!(first, "/r/locked");
    m.complete_directory(None);
    assert!(m.is_running());
    let found = run_to_end(&mut m, 0);
    assert_eq!(found, vec!["/r/a/b/Target.TXT".to_string()]);
}

#[test]
fn cancel_stops_scheduling() {
    let mut m = SearchManager::new();
    m.search_query = "target".to_string();
    m.search_in_volume(&"/r".to_string());
    let root = m.next_directory().unwrap();
    let sub = {
        m.complete_directory(fake_fs(&root, 4));
        m.next_directory().unwrap()
    };
    m.cancel();
    assert_eq!(m.phase, SearchPhase::Cancelled);
    assert!(!m.is_running());
    assert_eq!(m.next_directory(), None);
    m.complete_directory(fake_fs(&sub, 4));
    assert_eq!(m.next_directory(), None);
    assert_eq!(m.phase, SearchPhase::Cancelled);
    m.cancel();
    assert_eq!(m.phase, SearchPhase::Cancelled);
}

#[test]
fn search_without_roots_is_complete() {
    let mut m = SearchManager::new();
    assert_eq!(m.phase, SearchPhase::Idle);
    m.search(&Vec::new());
    assert_eq!(m.phase, SearchPhase::Completed);
    assert_eq!(m.next_directory(), None);
}

#[test]
fn run_waits_for_directories_in_flight() {
    let mut m = SearchManager::new();
    m.search(&vec!["/x".to_string(), "/y".to_string()]);
    let x = m.next_directory().unwrap();
    let y = m.next_directory().unwrap();
    assert_eq!((x.as_str(), y.as_str()), ("/x", "/y"));
    assert_eq!(m.next_directory(), None);
    m.complete_directory(Some(Vec::new()));
    assert_eq!(m.phase, SearchPhase::Running);
    m.complete_directory(Some(Vec::new()));
    assert_eq!(m.phase, SearchPhase::Completed);
}
