//! The report aggregator: grouping time entries per person, ordering the
//! people by display name, and rendering the deterministic report text.

use vstd::prelude::*;

use crate::data::{Author, AuthorV, TimeEntry, TimeEntryV};
use crate::strutil::{dec_str, int_str, lex_le, split_by, split_spec, str_le, u64_to_string};
use crate::util::sat_add;

verus! {

/// One report row: a ticket one person logged time on.
pub struct TableEntry {
    pub title: String,
    pub time_spent: isize,
    pub ticket: String,
    pub ticket_link: String,
}

#[verifier::ext_equal]
pub ghost struct TableEntryV {
    pub title: Seq<char>,
    pub time_spent: int,
    pub ticket: Seq<char>,
    pub ticket_link: Seq<char>,
}

impl View for TableEntry {
    type V = TableEntryV;

    open spec fn view(&self) -> TableEntryV {
        TableEntryV {
            title: self.title@,
            time_spent: self.time_spent as int,
            ticket: self.ticket@,
            ticket_link: self.ticket_link@,
        }
    }
}

/// One person's block of the final report.
pub struct PersonEntry {
    pub user: Author,
    pub total_time_spent: isize,
    pub tickets: Vec<TableEntry>,
}

#[verifier::ext_equal]
pub ghost struct PersonEntryV {
    pub user: AuthorV,
    pub total_time_spent: int,
    pub tickets: Seq<TableEntryV>,
}

impl View for PersonEntry {
    type V = PersonEntryV;

    open spec fn view(&self) -> PersonEntryV {
        PersonEntryV {
            user: self.user@,
            total_time_spent: self.total_time_spent as int,
            tickets: self.tickets@.map_values(|t: TableEntry| t@),
        }
    }
}

/// The short human-readable ticket label: the fourth-from-last segment of
/// the web link, then `#`, then the ticket's local number.
pub open spec fn ticket_label(web_url: Seq<char>, iid: u64) -> Seq<char> {
    let parts = split_spec(web_url, "/"@);
    parts[parts.len() - 4] + "#"@ + dec_str(iid as nat)
}

/// The web link splits into at least four `/`-separated segments, as every
/// issue link of the remote tracker does.
pub open spec fn url_has_four_segments(web_url: Seq<char>) -> bool {
    split_spec(web_url, "/"@).len() >= 4
}

/// The report row derived from one time entry.
pub open spec fn entry_of(e: TimeEntryV) -> TableEntryV {
    TableEntryV {
        title: e.ticket.title,
        time_spent: e.time_spent,
        ticket: ticket_label(e.ticket.web_url, e.ticket.iid),
        ticket_link: e.ticket.web_url,
    }
}

/// Derive the report row for one time entry.
pub fn generate_entry(entry: &TimeEntry) -> (r: TableEntry)
    requires
        url_has_four_segments(entry@.ticket.web_url),
    ensures
        r@ == entry_of(entry@),
{
    proof {
        reveal_strlit("/");
    }
    let parts = split_by(entry.ticket.web_url.as_str(), "/");
    proof {
        assert(parts.deep_view().len() == parts@.len());
        assert(parts.deep_view()[parts@.len() - 4] == parts@[parts@.len() - 4]@);
    }
    let mut label = parts[parts.len() - 4].clone();
    label.append("#");
    let num = u64_to_string(entry.ticket.iid);
    label.append(num.as_str());
    let r = TableEntry {
        title: entry.ticket.title.clone(),
        time_spent: entry.time_spent,
        ticket: label,
        ticket_link: entry.ticket.web_url.clone(),
    };
    proof {
        assert(r@ =~= entry_of(entry@));
    }
    r
}

/// First position of author `a` in the grouping table.
pub open spec fn find_person(table: Seq<(AuthorV, int, Seq<TableEntryV>)>, a: AuthorV) -> Option<
    int,
>
    decreases table.len(),
{
    if table.len() == 0 {
        None
    } else if table[0].0 == a {
        Some(0int)
    } else {
        match find_person(table.skip(1), a) {
            None => None,
            Some(j) => Some(j + 1),
        }
    }
}

pub proof fn lemma_find_person(table: Seq<(AuthorV, int, Seq<TableEntryV>)>, a: AuthorV)
    ensures
        match find_person(table, a) {
            Some(j) => 0 <= j < table.len() && table[j].0 == a && forall|k: int|
                0 <= k < j ==> (#[trigger] table[k]).0 != a,
            None => forall|k: int| 0 <= k < table.len() ==> (#[trigger] table[k]).0 != a,
        },
    decreases table.len(),
{
    if table.len() > 0 && table[0].0 != a {
        lemma_find_person(table.skip(1), a);
        assert(forall|k: int|
            1 <= k < table.len() ==> (#[trigger] table[k]) == table.skip(1)[k - 1]);
    }
}

/// Fold one time entry into the grouping table: extend the author's row if
/// present, else open a new row at the end.
pub open spec fn group_step(
    table: Seq<(AuthorV, int, Seq<TableEntryV>)>,
    e: TimeEntryV,
) -> Seq<(AuthorV, int, Seq<TableEntryV>)> {
    let te = entry_of(e);
    match find_person(table, e.author) {
        None => table.push((e.author, sat_add(0, te.time_spent), seq![te])),
        Some(j) => table.update(
            j,
            (e.author, sat_add(table[j].1, te.time_spent), table[j].2.push(te)),
        ),
    }
}

/// The grouping table of a list of time entries, rows in order of each
/// author's first entry, rows' tickets in entry order.
pub open spec fn group_entries(times: Seq<TimeEntryV>) -> Seq<(AuthorV, int, Seq<TableEntryV>)>
    decreases times.len(),
{
    if times.len() == 0 {
        Seq::empty()
    } else {
        group_step(group_entries(times.drop_last()), times.last())
    }
}

pub open spec fn person_of(row: (AuthorV, int, Seq<TableEntryV>)) -> PersonEntryV {
    PersonEntryV { user: row.0, total_time_spent: row.1, tickets: row.2 }
}

pub open spec fn people_of(table: Seq<(AuthorV, int, Seq<TableEntryV>)>) -> Seq<PersonEntryV> {
    table.map_values(|row: (AuthorV, int, Seq<TableEntryV>)| person_of(row))
}

/// Insert `p` into a list ordered by display name, behind every person
/// whose name does not come after `p`'s.
pub open spec fn insert_sorted(s: Seq<PersonEntryV>, p: PersonEntryV) -> Seq<PersonEntryV>
    decreases s.len(),
{
    if s.len() == 0 {
        seq![p]
    } else if !lex_le(s[0].user.name, p.user.name) {
        seq![p] + s
    } else {
        seq![s[0]] + insert_sorted(s.skip(1), p)
    }
}

/// The people sorted by display name, insertion order kept among equal
/// names.
pub open spec fn sort_people(s: Seq<PersonEntryV>) -> Seq<PersonEntryV>
    decreases s.len(),
{
    if s.len() == 0 {
        Seq::empty()
    } else {
        insert_sorted(sort_people(s.drop_last()), s.last())
    }
}

/// What the aggregator computes from the flattened entry list.
pub open spec fn time_table_spec(times: Seq<TimeEntryV>) -> Seq<PersonEntryV> {
    sort_people(people_of(group_entries(times)))
}

/// Inserting at the first position whose name comes after `p`'s is exactly
/// `insert_sorted`.
proof fn lemma_insert_sorted_at(s: Seq<PersonEntryV>, p: PersonEntryV, j: int)
    requires
        0 <= j <= s.len(),
        forall|k: int| 0 <= k < j ==> lex_le((#[trigger] s[k]).user.name, p.user.name),
        j < s.len() ==> !lex_le(s[j].user.name, p.user.name),
    ensures
        insert_sorted(s, p) == s.subrange(0, j) + seq![p] + s.skip(j),
    decreases s.len(),
{
    if s.len() == 0 {
        assert(insert_sorted(s, p) =~= s.subrange(0, j) + seq![p] + s.skip(j));
    } else if j == 0 {
        assert(insert_sorted(s, p) =~= s.subrange(0, 0) + seq![p] + s.skip(0));
    } else {
        lemma_insert_sorted_at(s.skip(1), p, j - 1);
        assert(forall|k: int| 1 <= k < s.len() ==> (#[trigger] s[k]) == s.skip(1)[k - 1]);
        assert(insert_sorted(s, p) == seq![s[0]] + insert_sorted(s.skip(1), p));
        assert(seq![s[0]] + (s.skip(1).subrange(0, j - 1) + seq![p] + s.skip(1).skip(j - 1)) =~= s
            .subrange(0, j) + seq![p] + s.skip(j));
    }
}

/// Spec view of one exec grouping row.
pub open spec fn row_view(row: (Author, isize, Vec<TableEntry>)) -> (AuthorV, int, Seq<
    TableEntryV,
>) {
    (row.0@, row.1 as int, row.2@.map_values(|t: TableEntry| t@))
}

/// Spec view of the exec grouping table.
pub open spec fn rows_view(t: Seq<(Author, isize, Vec<TableEntry>)>) -> Seq<(AuthorV, int, Seq<
    TableEntryV,
>)> {
    t.map_values(|row: (Author, isize, Vec<TableEntry>)| row_view(row))
}

/// Group the flattened time entries per person, sum each person's minutes
/// (saturating), and order the people by display name.  The rows of one
/// person keep the order the entries came in.
pub fn generate_time_table(times: Vec<TimeEntry>) -> (r: Vec<PersonEntry>)
    requires
        forall|k: int|
            0 <= k < times@.len() ==> url_has_four_segments(
                (#[trigger] times@[k])@.ticket.web_url,
            ),
    ensures
        r@.map_values(|p: PersonEntry| p@) == time_table_spec(
            times@.map_values(|e: TimeEntry| e@),
        ),
{
    let ghost tview = times@.map_values(|e: TimeEntry| e@);
    let mut table: Vec<(Author, isize, Vec<TableEntry>)> = Vec::new();
    let mut k: usize = 0;
    proof {
        assert(tview.take(0) =~= Seq::<TimeEntryV>::empty());
        assert(rows_view(table@) =~= group_entries(tview.take(0)));
    }
    while k < times.len()
        invariant
            0 <= k <= times.len(),
            tview == times@.map_values(|e: TimeEntry| e@),
            tview.len() == times.len(),
            forall|k2: int|
                0 <= k2 < times@.len() ==> url_has_four_segments(
                    (#[trigger] times@[k2])@.ticket.web_url,
                ),
            rows_view(table@) == group_entries(tview.take(k as int)),
        decreases times.len() - k,
    {
        proof {
            assert(tview.take(k + 1).drop_last() =~= tview.take(k as int));
            assert(tview.take(k + 1).last() == tview[k as int]);
        }
        let ghost tv = rows_view(table@);
        let entry = &times[k];
        let te = generate_entry(entry);
        proof {
            lemma_find_person(tv, entry@.author);
        }
        let mut j: usize = 0;
        let mut found = false;
        while j < table.len() && !found
            invariant
                0 <= j <= table.len(),
                tv == rows_view(table@),
                tv.len() == table.len(),
                !found ==> forall|k2: int| 0 <= k2 < j ==> (#[trigger] tv[k2]).0 != entry@.author,
                found ==> j < table.len() && tv[j as int].0 == entry@.author && forall|k2: int|
                    0 <= k2 < j ==> (#[trigger] tv[k2]).0 != entry@.author,
            decreases table.len() - j - (if found { 1int } else { 0int }),
        {
            if crate::data::author_eq(&table[j].0, &entry.author) {
                found = true;
            } else {
                j += 1;
            }
        }
        if found {
            proof {
                lemma_find_person(tv, entry@.author);
                assert(find_person(tv, entry@.author) == Some(j as int));
            }
            let mut row = table.remove(j);
            let newv = crate::util::saturating_add_isize(row.1, te.time_spent);
            row.0 = entry.author.clone();
            row.1 = newv;
            row.2.push(te);
            table.insert(j, row);
            proof {
                assert(rows_view(table@) =~~= group_step(tv, tview[k as int]));
            }
        } else {
            proof {
                lemma_find_person(tv, entry@.author);
                assert(find_person(tv, entry@.author) is None);
            }
            let newv = crate::util::saturating_add_isize(0, te.time_spent);
            let mut tickets: Vec<TableEntry> = Vec::new();
            tickets.push(te);
            table.push((entry.author.clone(), newv, tickets));
            proof {
                assert(rows_view(table@) =~~= group_step(tv, tview[k as int]));
            }
        }
        k += 1;
    }
    proof {
        assert(tview.take(times.len() as int) =~= tview);
    }
    let ghost grouped = rows_view(table@);
    let total_rows = table.len();
    proof {
        assert(grouped.len() == total_rows);
    }
    let mut out: Vec<PersonEntry> = Vec::new();
    let mut done: usize = 0;
    proof {
        assert(people_of(grouped).take(0) =~= Seq::<PersonEntryV>::empty());
        assert(out@.map_values(|p: PersonEntry| p@) =~= sort_people(people_of(grouped).take(0)));
    }
    while table.len() > 0
        invariant
            grouped.len() <= usize::MAX,
            done + table.len() == grouped.len(),
            people_of(grouped).len() == grouped.len(),
            rows_view(table@) == grouped.skip(done as int),
            out@.map_values(|p: PersonEntry| p@) == sort_people(people_of(grouped).take(
                done as int,
            )),
            out@.len() == done,
        decreases table.len(),
    {
        let ghost pre = table@;
        let row = table.remove(0);
        proof {
            assert(rows_view(pre)[0] == row_view(pre[0]));
            assert(row_view(row) == grouped.skip(done as int)[0]);
            assert(row_view(row) == grouped[done as int]);
            assert forall|t: int| 0 <= t < table@.len() implies rows_view(table@)[t]
                == grouped.skip(done + 1)[t] by {
                assert(table@[t] == pre[t + 1]);
                assert(rows_view(pre)[t + 1] == row_view(pre[t + 1]));
                assert(rows_view(table@)[t] == row_view(table@[t]));
                assert(grouped.skip(done + 1)[t] == grouped.skip(done as int)[t + 1]);
                assert(grouped.skip(done as int)[t + 1] == rows_view(pre)[t + 1]);
            }
            assert(rows_view(table@) =~= grouped.skip(done + 1));
        }
        let person = PersonEntry { user: row.0, total_time_spent: row.1, tickets: row.2 };
        proof {
            assert(person@ == person_of(grouped[done as int]));
            assert(person@ == people_of(grouped)[done as int]);
        }
        let mut j: usize = 0;
        let mut stop = false;
        while j < out.len() && !stop
            invariant
                0 <= j <= out.len(),
                forall|k2: int|
                    0 <= k2 < j ==> lex_le(
                        (#[trigger] out@[k2])@.user.name,
                        person@.user.name,
                    ),
                stop ==> j < out.len() && !lex_le(out@[j as int]@.user.name, person@.user.name),
            decreases out.len() - j - (if stop { 1int } else { 0int }),
        {
            if !str_le(out[j].user.name.as_str(), person.user.name.as_str()) {
                stop = true;
            } else {
                j += 1;
            }
        }
        let ghost sorted_before = out@.map_values(|p: PersonEntry| p@);
        proof {
            assert(forall|k2: int|
                0 <= k2 < out@.len() ==> (#[trigger] sorted_before[k2]) == out@[k2]@);
            lemma_insert_sorted_at(sorted_before, person@, j as int);
        }
        out.insert(j, person);
        proof {
            assert(out@.map_values(|p: PersonEntry| p@) =~~= sorted_before.subrange(0, j as int)
                + seq![person_of(grouped[done as int])] + sorted_before.skip(j as int));
            assert(people_of(grouped).take(done + 1).drop_last() =~= people_of(grouped).take(
                done as int,
            ));
            assert(people_of(grouped).take(done + 1).last() == people_of(grouped)[done as int]);
            assert(sort_people(people_of(grouped).take(done + 1)) == insert_sorted(
                sort_people(people_of(grouped).take(done as int)),
                people_of(grouped)[done as int],
            ));
        }
        done += 1;
    }
    proof {
        assert(people_of(grouped).take(grouped.len() as int) =~= people_of(grouped));
        assert(rows_view(table@).len() == 0);
        assert(grouped.skip(done as int).len() == 0);
    }
    out
}

/// Law: the grouping holds one row per author: a person appears in the
/// report at most once.
pub proof fn lemma_group_entries_distinct(times: Seq<TimeEntryV>)
    ensures
        forall|i: int, j: int|
            0 <= i < j < group_entries(times).len() ==> (#[trigger] group_entries(times)[i]).0 != (
            #[trigger] group_entries(times)[j]).0,
    decreases times.len(),
{
    if times.len() > 0 {
        lemma_group_entries_distinct(times.drop_last());
        let t = group_entries(times.drop_last());
        let e = times.last();
        lemma_find_person(t, e.author);
        match find_person(t, e.author) {
            None => {
                let r = group_step(t, e);
                assert forall|i: int, j: int| 0 <= i < j < r.len() implies (#[trigger] r[i]).0
                    != (#[trigger] r[j]).0 by {
                    if j < t.len() {
                        assert(r[i] == t[i] && r[j] == t[j]);
                    } else {
                        assert(r[i] == t[i] && r[j].0 == e.author);
                    }
                }
            },
            Some(k) => {
                let r = group_step(t, e);
                assert(forall|i: int| 0 <= i < r.len() ==> (#[trigger] r[i]).0 == t[i].0);
            },
        }
    }
}

/// Law: every author with at least one time entry has a grouping row.
pub proof fn lemma_group_entries_complete(times: Seq<TimeEntryV>)
    ensures
        forall|k: int|
            0 <= k < times.len() ==> exists|j: int|
                0 <= j < group_entries(times).len() && (#[trigger] times[k]).author
                    == group_entries(times)[j].0,
    decreases times.len(),
{
    if times.len() > 0 {
        lemma_group_entries_complete(times.drop_last());
        let t = group_entries(times.drop_last());
        let e = times.last();
        let r = group_entries(times);
        lemma_find_person(t, e.author);
        assert(forall|j: int| 0 <= j < t.len() ==> (#[trigger] r[j]).0 == t[j].0);
        assert forall|k: int| 0 <= k < times.len() implies exists|j: int|
            0 <= j < r.len() && (#[trigger] times[k]).author == r[j].0 by {
            if k < times.len() - 1 {
                assert(times.drop_last()[k] == times[k]);
                let j = choose|j: int|
                    0 <= j < t.len() && (#[trigger] times.drop_last()[k]).author == t[j].0;
                assert(0 <= j < r.len() && times[k].author == r[j].0);
            } else {
                match find_person(t, e.author) {
                    Some(j) => {
                        assert(r[j].0 == e.author);
                        assert(0 <= j < r.len() && times[k].author == r[j].0);
                    },
                    None => {
                        assert(r[t.len() as int].0 == e.author);
                        assert(0 <= t.len() < r.len() && times[k].author == r[t.len() as int].0);
                    },
                }
            }
        }
    }
}

proof fn lemma_insert_sorted_contains(s: Seq<PersonEntryV>, p: PersonEntryV)
    ensures
        insert_sorted(s, p).len() == s.len() + 1,
        exists|t: int| 0 <= t < insert_sorted(s, p).len() && insert_sorted(s, p)[t] == p,
        forall|u: int|
            0 <= u < s.len() ==> exists|t: int|
                0 <= t < insert_sorted(s, p).len() && (#[trigger] s[u]) == insert_sorted(s, p)[t],
    decreases s.len(),
{
    let r = insert_sorted(s, p);
    if s.len() == 0 {
        assert(r[0] == p);
    } else if !lex_le(s[0].user.name, p.user.name) {
        assert(r[0] == p);
        assert forall|u: int| 0 <= u < s.len() implies exists|t: int|
            0 <= t < r.len() && (#[trigger] s[u]) == r[t] by {
            assert(r[u + 1] == s[u]);
            assert(0 <= u + 1 < r.len() && s[u] == r[u + 1]);
        }
    } else {
        lemma_insert_sorted_contains(s.skip(1), p);
        let r2 = insert_sorted(s.skip(1), p);
        let tp = choose|t: int| 0 <= t < r2.len() && r2[t] == p;
        assert(r[tp + 1] == r2[tp]);
        assert(0 <= tp + 1 < r.len() && r[tp + 1] == p);
        assert forall|u: int| 0 <= u < s.len() implies exists|t: int|
            0 <= t < r.len() && (#[trigger] s[u]) == r[t] by {
            if u == 0 {
                assert(r[0] == s[0]);
                assert(0 <= 0 < r.len() && s[0] == r[0]);
            } else {
                assert(s.skip(1)[u - 1] == s[u]);
                let t2 = choose|t: int| 0 <= t < r2.len() && (s.skip(1)[u - 1]) == r2[t];
                assert(r[t2 + 1] == r2[t2]);
                assert(0 <= t2 + 1 < r.len() && s[u] == r[t2 + 1]);
            }
        }
    }
}

/// Law: sorting only rearranges: the counts agree, every grouped person
/// stands in the sorted list, and every sorted person was grouped.
/// `x` stands somewhere in `s`.
pub open spec fn appears(s: Seq<PersonEntryV>, x: PersonEntryV) -> bool {
    exists|u: int| 0 <= u < s.len() && s[u] == x
}

proof fn lemma_sort_people_forward(s: Seq<PersonEntryV>, u: int)
    requires
        0 <= u < s.len(),
    ensures
        appears(sort_people(s), s[u]),
    decreases s.len(),
{
    let r0 = sort_people(s.drop_last());
    lemma_insert_sorted_contains(r0, s.last());
    if u == s.len() - 1 {
        let t = choose|t: int|
            0 <= t < insert_sorted(r0, s.last()).len() && insert_sorted(r0, s.last())[t]
                == s.last();
        assert(appears(sort_people(s), s[u]));
    } else {
        assert(s.drop_last()[u] == s[u]);
        lemma_sort_people_forward(s.drop_last(), u);
        let t0 = choose|t: int| 0 <= t < r0.len() && r0[t] == s[u];
        let t = choose|t: int|
            0 <= t < insert_sorted(r0, s.last()).len() && (r0[t0]) == insert_sorted(
                r0,
                s.last(),
            )[t];
        assert(appears(sort_people(s), s[u]));
    }
}

proof fn lemma_sort_people_backward(s: Seq<PersonEntryV>, t: int)
    requires
        0 <= t < sort_people(s).len(),
    ensures
        appears(s, sort_people(s)[t]),
    decreases s.len(),
{
    let r = sort_people(s);
    if s.len() > 0 {
        let r0 = sort_people(s.drop_last());
        lemma_insert_sorted_elements(r0, s.last());
        if r[t] == s.last() {
            assert(0 <= s.len() - 1 < s.len() && s[s.len() - 1] == r[t]);
        } else {
            let u0 = choose|u: int| 0 <= u < r0.len() && r[t] == r0[u];
            lemma_sort_people_backward(s.drop_last(), u0);
            let u1 = choose|u: int| 0 <= u < s.drop_last().len() && s.drop_last()[u] == r0[u0];
            assert(s.drop_last()[u1] == s[u1]);
            assert(0 <= u1 < s.len() && s[u1] == r[t]);
        }
    }
}

/// Law: sorting only rearranges: the counts agree, every grouped person
/// stands in the sorted list, and every sorted person was grouped.
pub proof fn lemma_sort_people_permutes(s: Seq<PersonEntryV>)
    ensures
        sort_people(s).len() == s.len(),
        forall|u: int| 0 <= u < s.len() ==> appears(sort_people(s), #[trigger] s[u]),
        forall|t: int|
            0 <= t < sort_people(s).len() ==> appears(s, #[trigger] sort_people(s)[t]),
    decreases s.len(),
{
    if s.len() > 0 {
        lemma_sort_people_permutes(s.drop_last());
        lemma_insert_sorted_contains(sort_people(s.drop_last()), s.last());
    }
    assert forall|u: int| 0 <= u < s.len() implies appears(sort_people(s), #[trigger] s[u]) by {
        lemma_sort_people_forward(s, u);
    }
    assert forall|t: int| 0 <= t < sort_people(s).len() implies appears(
        s,
        #[trigger] sort_people(s)[t],
    ) by {
        lemma_sort_people_backward(s, t);
    }
}

/// Saturating sum of the minutes of a person's rows.
pub open spec fn sat_sum(tickets: Seq<TableEntryV>) -> int
    decreases tickets.len(),
{
    if tickets.len() == 0 {
        0
    } else {
        sat_add(sat_sum(tickets.drop_last()), tickets.last().time_spent)
    }
}

/// Law: in every grouping row the person's total minutes are exactly the
/// saturating sum of that person's row minutes.
pub proof fn lemma_row_totals(times: Seq<TimeEntryV>)
    ensures
        forall|j: int|
            0 <= j < group_entries(times).len() ==> (#[trigger] group_entries(times)[j]).1
                == sat_sum(group_entries(times)[j].2),
    decreases times.len(),
{
    if times.len() > 0 {
        lemma_row_totals(times.drop_last());
        let t = group_entries(times.drop_last());
        let e = times.last();
        let te = entry_of(e);
        lemma_find_person(t, e.author);
        match find_person(t, e.author) {
            None => {
                reveal_with_fuel(sat_sum, 3);
                assert(seq![te].drop_last() =~= Seq::<TableEntryV>::empty());
                assert(seq![te].last() == te);
                assert(sat_sum(Seq::<TableEntryV>::empty()) == 0);
                assert(sat_sum(seq![te]) == sat_add(0, te.time_spent));
            },
            Some(j) => {
                assert(t[j].2.push(te).drop_last() =~= t[j].2);
                assert(t[j].2.push(te).last() == te);
                assert(sat_sum(t[j].2.push(te)) == sat_add(t[j].1, te.time_spent));
            },
        }
    }
}

/// The people stand in ascending display-name order.
pub open spec fn sorted_by_name(s: Seq<PersonEntryV>) -> bool {
    forall|i: int, j: int|
        0 <= i < j < s.len() ==> lex_le((#[trigger] s[i]).user.name, (#[trigger] s[j]).user.name)
}

proof fn lemma_insert_sorted_elements(s: Seq<PersonEntryV>, p: PersonEntryV)
    ensures
        insert_sorted(s, p).len() == s.len() + 1,
        forall|t: int|
            0 <= t < insert_sorted(s, p).len() ==> (#[trigger] insert_sorted(s, p)[t]) == p
                || exists|u: int| 0 <= u < s.len() && insert_sorted(s, p)[t] == s[u],
    decreases s.len(),
{
    let r = insert_sorted(s, p);
    if s.len() == 0 {
    } else if !lex_le(s[0].user.name, p.user.name) {
        assert forall|t: int| 0 <= t < r.len() implies (#[trigger] r[t]) == p || exists|u: int|
            0 <= u < s.len() && r[t] == s[u] by {
            if t > 0 {
                assert(r[t] == s[t - 1]);
                assert(0 <= t - 1 < s.len() && r[t] == s[t - 1]);
            }
        }
    } else {
        lemma_insert_sorted_elements(s.skip(1), p);
        let r2 = insert_sorted(s.skip(1), p);
        assert forall|t: int| 0 <= t < r.len() implies (#[trigger] r[t]) == p || exists|u: int|
            0 <= u < s.len() && r[t] == s[u] by {
            if t == 0 {
                assert(r[0] == s[0]);
                assert(0 <= 0 < s.len() && r[0] == s[0]);
            } else {
                assert(r[t] == r2[t - 1]);
                if r2[t - 1] != p {
                    let u = choose|u: int| 0 <= u < s.skip(1).len() && r2[t - 1] == s.skip(1)[u];
                    assert(s.skip(1)[u] == s[u + 1]);
                    assert(0 <= u + 1 < s.len() && r[t] == s[u + 1]);
                }
            }
        }
    }
}

proof fn lemma_insert_sorted_keeps(s: Seq<PersonEntryV>, p: PersonEntryV)
    requires
        sorted_by_name(s),
    ensures
        sorted_by_name(insert_sorted(s, p)),
    decreases s.len(),
{
    let r = insert_sorted(s, p);
    if s.len() == 0 {
    } else if !lex_le(s[0].user.name, p.user.name) {
        crate::strutil::lemma_lex_le_total(s[0].user.name, p.user.name);
        assert forall|i: int, j: int| 0 <= i < j < r.len() implies lex_le(
            (#[trigger] r[i]).user.name,
            (#[trigger] r[j]).user.name,
        ) by {
            if i == 0 {
                if j == 1 {
                    assert(r[j] == s[0]);
                } else {
                    assert(r[j] == s[j - 1]);
                    crate::strutil::lemma_lex_le_trans(
                        p.user.name,
                        s[0].user.name,
                        s[j - 1].user.name,
                    );
                }
            } else {
                assert(r[i] == s[i - 1] && r[j] == s[j - 1]);
            }
        }
    } else {
        assert(forall|k: int| 1 <= k < s.len() ==> (#[trigger] s[k]) == s.skip(1)[k - 1]);
        assert(sorted_by_name(s.skip(1)));
        lemma_insert_sorted_keeps(s.skip(1), p);
        lemma_insert_sorted_elements(s.skip(1), p);
        let r2 = insert_sorted(s.skip(1), p);
        assert forall|i: int, j: int| 0 <= i < j < r.len() implies lex_le(
            (#[trigger] r[i]).user.name,
            (#[trigger] r[j]).user.name,
        ) by {
            if i == 0 {
                assert(r[j] == r2[j - 1]);
                if r2[j - 1] == p {
                } else {
                    let u = choose|u: int| 0 <= u < s.skip(1).len() && r2[j - 1] == s.skip(1)[u];
                    assert(r2[j - 1] == s[u + 1]);
                }
            } else {
                assert(r[i] == r2[i - 1] && r[j] == r2[j - 1]);
            }
        }
    }
}

proof fn lemma_sort_people_sorted_rec(s: Seq<PersonEntryV>)
    ensures
        sorted_by_name(sort_people(s)),
    decreases s.len(),
{
    if s.len() > 0 {
        lemma_sort_people_sorted_rec(s.drop_last());
        lemma_insert_sorted_keeps(sort_people(s.drop_last()), s.last());
    }
}

/// Law: the aggregated report lists its people in ascending display-name
/// order, whatever order the entries came in.
pub proof fn lemma_time_table_sorted(times: Seq<TimeEntryV>)
    ensures
        sorted_by_name(time_table_spec(times)),
{
    lemma_sort_people_sorted_rec(people_of(group_entries(times)));
}

/// Law: aggregation and rendering are pure functions of the entry list:
/// the same entries always yield the same report text.
pub proof fn lemma_report_deterministic(a: Seq<TimeEntryV>, b: Seq<TimeEntryV>)
    requires
        a == b,
    ensures
        render_report_spec(time_table_spec(a)) == render_report_spec(time_table_spec(b)),
{
}

/// Percentage of one row against the person's total, floored at 1.  The
/// division is guarded: it is computed only when both the row's minutes
/// and the person's total are positive, so a person whose additions and
/// deletions net to zero can never cause a division fault; every other
/// row displays the floor value 1.
pub open spec fn percentage_spec(m: int, total: int) -> int {
    if total > 0 && m > 0 {
        let p = (m * 100) / total;
        if p < 1 {
            1
        } else {
            p
        }
    } else {
        1
    }
}

/// A contributing row never displays as 0%: the percentage is at least 1.
pub proof fn lemma_percentage_at_least_one(m: int, total: int)
    ensures
        percentage_spec(m, total) >= 1,
{
}

/// Compute one row's displayed percentage.
pub fn percentage(m: isize, total: isize) -> (r: u128)
    ensures
        r as int == percentage_spec(m as int, total as int),
{
    if total > 0 && m > 0 {
        let p = (m as u128) * 100 / (total as u128);
        if p < 1 {
            1
        } else {
            p
        }
    } else {
        1
    }
}

/// Total minutes rounded to hours, half away from zero.
pub open spec fn round_hours(t: int) -> int {
    if t >= 0 {
        (t + 30) / 60
    } else {
        -(((-t) + 30) / 60)
    }
}

pub open spec fn clamp_i32(v: int) -> int {
    if v > i32::MAX as int {
        i32::MAX as int
    } else if v < i32::MIN as int {
        i32::MIN as int
    } else {
        v
    }
}

/// Rounded hours for the heading, pinned to the 32-bit display range.
fn hours_rounded(t: isize) -> (r: i64)
    ensures
        r as int == clamp_i32(round_hours(t as int)),
{
    if t >= 0 {
        let h = (t as u64 + 30) / 60;
        if h > i32::MAX as u64 {
            i32::MAX as i64
        } else {
            h as i64
        }
    } else {
        let mag = (-((t as i64) + 1)) as u64 + 1;
        let h = (mag + 30) / 60;
        if h > 2147483648u64 {
            i32::MIN as i64
        } else {
            -(h as i64)
        }
    }
}

/// The two fixed columns of one row.
pub open spec fn render_entry_spec(te: TableEntryV) -> Seq<char> {
    "| "@ + te.title + " \n| "@ + te.ticket_link + "["@ + te.ticket + "] \n"@
}

/// One full row: columns, then the percentage column.
pub open spec fn render_row_spec(te: TableEntryV, total: int) -> Seq<char> {
    render_entry_spec(te) + "| "@ + dec_str(percentage_spec(te.time_spent, total) as nat)
        + "\n\n"@
}

pub open spec fn render_rows_spec(tickets: Seq<TableEntryV>, total: int) -> Seq<char>
    decreases tickets.len(),
{
    if tickets.len() == 0 {
        Seq::empty()
    } else {
        render_rows_spec(tickets.drop_last(), total) + render_row_spec(tickets.last(), total)
    }
}

/// One person's block: heading with name and rounded hours, table header,
/// one row per ticket, table footer.
pub open spec fn render_person_spec(p: PersonEntryV) -> Seq<char> {
    "== "@ + p.user.name + "\n"@ + int_str(clamp_i32(round_hours(p.total_time_spent)))
        + " h\n\n"@ + "|===\n|Thema |Issues |Prozentangabe\n\n"@ + render_rows_spec(
        p.tickets,
        p.total_time_spent,
    ) + "|===\n\n"@
}

/// Render one person's block of the report.
pub fn render_person(p: &PersonEntry) -> (r: String)
    ensures
        r@ == render_person_spec(p@),
{
    let mut s = String::new();
    s.append("== ");
    s.append(p.user.name.as_str());
    s.append("\n");
    let hrs = hours_rounded(p.total_time_spent);
    let hs = crate::strutil::i64_to_string(hrs);
    s.append(hs.as_str());
    s.append(" h\n\n");
    s.append("|===\n|Thema |Issues |Prozentangabe\n\n");
    let ghost header = s@;
    let mut k: usize = 0;
    proof {
        assert(p@.tickets.take(0) =~= Seq::<TableEntryV>::empty());
        assert(s@ =~= header + render_rows_spec(p@.tickets.take(0), p@.total_time_spent));
    }
    while k < p.tickets.len()
        invariant
            0 <= k <= p.tickets.len(),
            p@.tickets.len() == p.tickets.len(),
            s@ == header + render_rows_spec(p@.tickets.take(k as int), p@.total_time_spent),
        decreases p.tickets.len() - k,
    {
        proof {
            assert(p@.tickets.take(k + 1).drop_last() =~= p@.tickets.take(k as int));
            assert(p@.tickets.take(k + 1).last() == p@.tickets[k as int]);
            assert(p@.tickets[k as int] == p.tickets@[k as int]@);
        }
        s.append("| ");
        s.append(p.tickets[k].title.as_str());
        s.append(" \n| ");
        s.append(p.tickets[k].ticket_link.as_str());
        s.append("[");
        s.append(p.tickets[k].ticket.as_str());
        s.append("] \n");
        s.append("| ");
        let pct = percentage(p.tickets[k].time_spent, p.total_time_spent);
        let ps = crate::strutil::u128_to_string(pct);
        s.append(ps.as_str());
        s.append("\n\n");
        proof {
            lemma_percentage_at_least_one(
                p@.tickets[k as int].time_spent,
                p@.total_time_spent,
            );
            assert(s@ =~= header + render_rows_spec(
                p@.tickets.take(k + 1),
                p@.total_time_spent,
            ));
        }
        k += 1;
    }
    proof {
        assert(p@.tickets.take(p.tickets.len() as int) =~= p@.tickets);
    }
    s.append("|===\n\n");
    proof {
        assert(s@ =~= render_person_spec(p@));
    }
    s
}

/// The blocks of all people, in list order, one blank line after each.
pub open spec fn render_people_spec(people: Seq<PersonEntryV>) -> Seq<char>
    decreases people.len(),
{
    if people.len() == 0 {
        Seq::empty()
    } else {
        render_people_spec(people.drop_last()) + render_person_spec(people.last()) + "\n"@
    }
}

/// The whole report text: a table-of-contents marker, then every person's
/// block in list order.
pub open spec fn render_report_spec(people: Seq<PersonEntryV>) -> Seq<char> {
    ":toc:\n"@ + render_people_spec(people)
}

/// Render the whole report.
pub fn render_report(people: &Vec<PersonEntry>) -> (r: String)
    ensures
        r@ == render_report_spec(people@.map_values(|p: PersonEntry| p@)),
{
    let ghost pview = people@.map_values(|p: PersonEntry| p@);
    let mut s = String::new();
    s.append(":toc:\n");
    let mut k: usize = 0;
    proof {
        assert(pview.take(0) =~= Seq::<PersonEntryV>::empty());
        assert(s@ =~= ":toc:\n"@ + render_people_spec(pview.take(0)));
    }
    while k < people.len()
        invariant
            0 <= k <= people.len(),
            pview == people@.map_values(|p: PersonEntry| p@),
            pview.len() == people.len(),
            s@ == ":toc:\n"@ + render_people_spec(pview.take(k as int)),
        decreases people.len() - k,
    {
        proof {
            assert(pview.take(k + 1).drop_last() =~= pview.take(k as int));
            assert(pview.take(k + 1).last() == pview[k as int]);
        }
        let block = render_person(&people[k]);
        s.append(block.as_str());
        s.append("\n");
        proof {
            assert(s@ =~= ":toc:\n"@ + render_people_spec(pview.take(k + 1)));
        }
        k += 1;
    }
    proof {
        assert(pview.take(people.len() as int) =~= pview);
    }
    s
}

} // verus!
