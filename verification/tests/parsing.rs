use timeledger::data::{Author, Issue, Note};
use timeledger::util::{match_time_str, process_issue, process_note};

fn author(id: u64, name: &str) -> Author {
    Author { id, username: name.to_string(), name: name.to_string() }
}

fn ticket(iid: u64) -> Issue {
    Issue {
        iid,
        project_id: 1,
        title: format!("Ticket {}", iid),
        time_stats: None,
        milestone: None,
        web_url: format!("https://gitlab.example.com/group/project/-/issues/{}", iid),
    }
}

fn note(name: &str, body: &str) -> Note {
    Note { body: body.to_string(), author: author(1, name) }
}

#[test]
fn duration_hours() {
    assert_eq!(match_time_str(vec!["2h"]), 120);
}

#[test]
fn duration_days() {
    assert_eq!(match_time_str(vec!["1d"]), 480);
}

#[test]
fn duration_minutes() {
    assert_eq!(match_time_str(vec!["30m"]), 30);
}

#[test]
fn duration_unknown_unit_counts_nothing() {
    assert_eq!(match_time_str(vec!["5x"]), 0);
    assert_eq!(match_time_str(vec!["2h", "5x", "30m"]), 150);
}

#[test]
fn duration_malformed_counts_nothing() {
    assert_eq!(match_time_str(vec![""]), 0);
    assert_eq!(match_time_str(vec!["h"]), 0);
    assert_eq!(match_time_str(vec!["1x2h"]), 0);
}

#[test]
fn duration_sums_tokens() {
    assert_eq!(match_time_str(vec!["1h", "30m"]), 90);
    assert_eq!(match_time_str(vec!["1d", "1h", "1m"]), 541);
}

#[test]
fn note_added_hour() {
    let r = process_note(note("alice", "added 1h of time spent"));
    let (a, minutes) = r.expect("body carries the separator");
    assert_eq!(a.name, "alice");
    assert_eq!(minutes, 60);
}

#[test]
fn note_deleted_hour() {
    let r = process_note(note("alice", "deleted 1h of time spent"));
    let (_, minutes) = r.expect("body carries the separator");
    assert_eq!(minutes, -60);
}

#[test]
fn note_unknown_action_adds() {
    let r = process_note(note("alice", "worked 1h of time spent"));
    let (_, minutes) = r.expect("body carries the separator");
    assert_eq!(minutes, 60);
}

#[test]
fn note_without_separator_is_skipped() {
    assert!(process_note(note("alice", "added 1h")).is_none());
}

#[test]
fn issue_nets_same_author() {
    let t = ticket(1);
    let notes = vec![
        note("alice", "added 1h of time spent"),
        note("alice", "added 30m of time spent"),
    ];
    let entries = process_issue(notes, &t);
    assert_eq!(entries.len(), 1);
    assert_eq!(entries[0].time_spent, 90);
    assert_eq!(entries[0].author.name, "alice");
    assert_eq!(entries[0].ticket.iid, 1);
}

#[test]
fn issue_zero_net_yields_no_entry() {
    let t = ticket(1);
    let notes = vec![
        note("alice", "added 1h of time spent"),
        note("alice", "deleted 1h of time spent"),
    ];
    let entries = process_issue(notes, &t);
    assert!(entries.is_empty());
}

#[test]
fn issue_keeps_distinct_authors() {
    let t = ticket(1);
    let mut notes = vec![note("alice", "added 1h of time spent")];
    notes.push(Note {
        body: "added 2h of time spent".to_string(),
        author: author(2, "bob"),
    });
    let entries = process_issue(notes, &t);
    assert_eq!(entries.len(), 2);
    assert_eq!(entries[0].author.name, "alice");
    assert_eq!(entries[0].time_spent, 60);
    assert_eq!(entries[1].author.name, "bob");
    assert_eq!(entries[1].time_spent, 120);
}

#[test]
fn issue_skips_malformed_notes() {
    let t = ticket(1);
    let notes = vec![note("alice", "changed the milestone"), note("alice", "added 1h of time spent")];
    let entries = process_issue(notes, &t);
    assert_eq!(entries.len(), 1);
    assert_eq!(entries[0].time_spent, 60);
}
