use timeledger::data::{Author, Issue, Note, TimeEntry};
use timeledger::formatting::{generate_entry, generate_time_table, render_person, render_report};
use timeledger::util::process_issue;

fn author(id: u64, name: &str) -> Author {
    Author { id, username: name.to_string(), name: name.to_string() }
}

fn ticket(iid: u64, title: &str) -> Issue {
    Issue {
        iid,
        project_id: 1,
        title: title.to_string(),
        time_stats: None,
        milestone: None,
        web_url: format!("https://gitlab.example.com/group/project/-/issues/{}", iid),
    }
}

fn entry(a: &Author, t: &Issue, minutes: isize) -> TimeEntry {
    TimeEntry { author: a.clone(), ticket: t.clone(), time_spent: minutes }
}

#[test]
fn entry_label_uses_fourth_from_last_segment() {
    let t = ticket(5, "A ticket");
    let e = entry(&author(1, "alice"), &t, 60);
    let row = generate_entry(&e);
    assert_eq!(row.ticket, "project#5");
    assert_eq!(row.ticket_link, "https://gitlab.example.com/group/project/-/issues/5");
    assert_eq!(row.title, "A ticket");
    assert_eq!(row.time_spent, 60);
}

#[test]
fn percentages_sixty_forty() {
    let alice = author(1, "alice");
    let ta = ticket(1, "A");
    let tb = ticket(2, "B");
    let people = generate_time_table(vec![entry(&alice, &ta, 60), entry(&alice, &tb, 40)]);
    assert_eq!(people.len(), 1);
    assert_eq!(people[0].total_time_spent, 100);
    let text = render_person(&people[0]);
    let expected = "== alice\n2 h\n\n|===\n|Thema |Issues |Prozentangabe\n\n\
        | A \n| https://gitlab.example.com/group/project/-/issues/1[project#1] \n| 60\n\n\
        | B \n| https://gitlab.example.com/group/project/-/issues/2[project#2] \n| 40\n\n\
        |===\n\n";
    assert_eq!(text, expected);
}

#[test]
fn percentage_clamped_to_one() {
    let alice = author(1, "alice");
    let ta = ticket(1, "A");
    let tb = ticket(2, "B");
    let people = generate_time_table(vec![entry(&alice, &ta, 1000), entry(&alice, &tb, 1)]);
    let text = render_person(&people[0]);
    assert!(text.contains("[project#2] \n| 1\n"));
}

#[test]
fn zero_total_causes_no_division_fault() {
    let alice = author(1, "alice");
    let ta = ticket(1, "A");
    let tb = ticket(2, "B");
    let people = generate_time_table(vec![entry(&alice, &ta, 60), entry(&alice, &tb, -60)]);
    assert_eq!(people.len(), 1);
    assert_eq!(people[0].total_time_spent, 0);
    let text = render_person(&people[0]);
    assert!(text.contains("== alice\n0 h\n"));
    assert!(text.contains("[project#1] \n| 1\n"));
    assert!(text.contains("[project#2] \n| 1\n"));
}

#[test]
fn people_sorted_by_display_name() {
    let bob = author(1, "bob");
    let alice = author(2, "alice");
    let t = ticket(1, "A");
    let people = generate_time_table(vec![entry(&bob, &t, 60), entry(&alice, &t, 30)]);
    assert_eq!(people.len(), 2);
    assert_eq!(people[0].user.name, "alice");
    assert_eq!(people[1].user.name, "bob");
}

#[test]
fn rerunning_aggregation_is_byte_identical() {
    let alice = author(1, "alice");
    let bob = author(2, "bob");
    let ta = ticket(1, "A");
    let tb = ticket(2, "B");
    let times = vec![
        entry(&alice, &ta, 60),
        entry(&bob, &ta, 45),
        entry(&alice, &tb, 40),
    ];
    let times_again = vec![
        entry(&alice, &ta, 60),
        entry(&bob, &ta, 45),
        entry(&alice, &tb, 40),
    ];
    let first = render_report(&generate_time_table(times));
    let second = render_report(&generate_time_table(times_again));
    assert_eq!(first, second);
}

#[test]
fn end_to_end_two_tickets_one_person() {
    let t1 = ticket(1, "First");
    let t2 = ticket(2, "Second");
    let n1 = Note {
        body: "added 2h of time spent on issue".to_string(),
        author: author(1, "alice"),
    };
    let n2 = Note {
        body: "added 1h of time spent on issue".to_string(),
        author: author(1, "alice"),
    };
    let mut times = process_issue(vec![n1], &t1);
    times.extend(process_issue(vec![n2], &t2));
    let people = generate_time_table(times);
    assert_eq!(people.len(), 1);
    assert_eq!(people[0].user.name, "alice");
    assert_eq!(people[0].total_time_spent, 180);
    let text = render_person(&people[0]);
    assert!(text.contains("[project#1] \n| 66\n"));
    assert!(text.contains("[project#2] \n| 33\n"));
}

#[test]
fn report_starts_with_toc_marker() {
    let alice = author(1, "alice");
    let t = ticket(1, "A");
    let people = generate_time_table(vec![entry(&alice, &t, 60)]);
    let text = render_report(&people);
    assert!(text.starts_with(":toc:\n== alice\n"));
    assert!(text.ends_with("|===\n\n\n"));
}
