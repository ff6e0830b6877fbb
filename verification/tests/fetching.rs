use timeledger::data::{Author, Note};
use timeledger::gitlab_api::{filter_time_notes, issues_path, notes_path, page_request_path};
use timeledger::pagination::{parse_page_hint, status_is_success, Paginator, PAGE_SIZE};

#[test]
fn pagination_three_requests_for_250_items() {
    let total: usize = 250;
    let mut pg: Paginator<u64> = Paginator::new();
    let mut requests = 0;
    let mut pages_asked = Vec::new();
    while !pg.done {
        let page = pg.page;
        pages_asked.push(page);
        let start = page * PAGE_SIZE;
        let end = (start + PAGE_SIZE).min(total);
        let items: Vec<u64> = (start as u64..end as u64).collect();
        pg.feed(items, None);
        requests += 1;
    }
    assert_eq!(requests, 3);
    assert_eq!(pages_asked, vec![0, 1, 2]);
    assert_eq!(pg.items.len(), 250);
    let expected: Vec<u64> = (0..250).collect();
    assert_eq!(pg.items, expected);
}

#[test]
fn pagination_follows_next_page_hint() {
    let mut pg: Paginator<u64> = Paginator::new();
    let full: Vec<u64> = (0..PAGE_SIZE as u64).collect();
    pg.feed(full, Some(7));
    assert!(!pg.done);
    assert_eq!(pg.page, 7);
}

#[test]
fn pagination_short_page_ends_walk_despite_hint() {
    let mut pg: Paginator<u64> = Paginator::new();
    pg.feed(vec![1, 2, 3], Some(7));
    assert!(pg.done);
    assert_eq!(pg.items, vec![1, 2, 3]);
}

#[test]
fn page_hint_parses_digits_only() {
    assert_eq!(parse_page_hint("5"), Some(5));
    assert_eq!(parse_page_hint("12"), Some(12));
    assert_eq!(parse_page_hint(""), None);
    assert_eq!(parse_page_hint("x"), None);
    assert_eq!(parse_page_hint("1 2"), None);
}

#[test]
fn success_statuses() {
    assert!(status_is_success(200));
    assert!(status_is_success(299));
    assert!(!status_is_success(199));
    assert!(!status_is_success(300));
    assert!(!status_is_success(404));
}

#[test]
fn note_filter_keeps_time_actions_only() {
    let a = Author { id: 1, username: "alice".to_string(), name: "alice".to_string() };
    let mk = |body: &str| Note { body: body.to_string(), author: a.clone() };
    let notes = vec![
        mk("added 1h of time spent"),
        mk("changed the description"),
        mk("deleted 30m of time spent"),
        mk("added a label"),
        mk("some time spent talking"),
    ];
    let kept = filter_time_notes(notes);
    assert_eq!(kept.len(), 2);
    assert_eq!(kept[0].body, "added 1h of time spent");
    assert_eq!(kept[1].body, "deleted 30m of time spent");
}

#[test]
fn api_paths() {
    assert_eq!(issues_path("projects/42"), "projects/42/issues/");
    assert_eq!(notes_path(3, 5), "/projects/3/issues/5/notes");
    assert_eq!(
        page_request_path("gitlab.example.com", "projects/42/issues/", 2),
        "https://gitlab.example.com/api/v4/projects/42/issues/?per_page=100&page=2"
    );
}
