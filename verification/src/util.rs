//! The time-ledger parser: extracting signed minute deltas from free-text
//! annotations and netting them per author within one ticket.
//!
//! The grammar is deliberately forgiving: an annotation reads
//! `<action> <count><unit> ... of <ignored>`, where the action `deleted`
//! negates and any other action adds, units `m`/`h`/`d` stand for 1, 60 and
//! 480 minutes, and anything malformed contributes nothing rather than
//! failing.  Sums saturate at the machine bounds.

use vstd::prelude::*;

use crate::data::{Author, AuthorV, Issue, IssueV, Note, NoteV, TimeEntry, TimeEntryV};
use crate::strutil::{
    find_sub, first_sub_index, lemma_digits_val_bound, parse_digits, parse_digits_spec, pow10,
    split_by, split_spec, str_eq,
};

verus! {

/// Minutes denoted by one unit letter: `m`inute, `h`our, 8-hour working
/// `d`ay; an unknown unit counts for nothing.
pub open spec fn unit_factor(c: char) -> int {
    if c == 'm' {
        1
    } else if c == 'h' {
        60
    } else if c == 'd' {
        480
    } else {
        0
    }
}

/// Minutes denoted by one duration token `<digits><unit>`.  A token without
/// a readable count contributes zero.
pub open spec fn token_minutes(t: Seq<char>) -> int {
    if t.len() < 2 {
        0
    } else {
        match parse_digits_spec(t.drop_last()) {
            Some(v) => v * unit_factor(t.last()),
            None => 0,
        }
    }
}

/// The character sequences of a list of string slices.
pub open spec fn strs_view(s: Seq<&str>) -> Seq<Seq<char>> {
    s.map_values(|x: &str| x@)
}

/// Sum of the minutes of a sequence of duration tokens.
pub open spec fn tokens_minutes(ts: Seq<Seq<char>>) -> int
    decreases ts.len(),
{
    if ts.len() == 0 {
        0
    } else {
        tokens_minutes(ts.drop_last()) + token_minutes(ts.last())
    }
}

/// A positive sum capped at what an `isize` can hold.
pub open spec fn clamp_max(v: int) -> int {
    if v > isize::MAX as int {
        isize::MAX as int
    } else {
        v
    }
}

/// Law: a duration token with an unknown unit letter contributes nothing.
pub proof fn lemma_unknown_unit_counts_nothing(t: Seq<char>)
    requires
        t.len() >= 1,
        t.last() != 'm',
        t.last() != 'h',
        t.last() != 'd',
    ensures
        token_minutes(t) == 0,
{
    if t.len() >= 2 {
        match parse_digits_spec(t.drop_last()) {
            Some(v) => {
                assert(v * unit_factor(t.last()) == 0);
            },
            None => {},
        }
    }
}

pub proof fn lemma_token_minutes_range(t: Seq<char>)
    ensures
        0 <= token_minutes(t) < 480000000000000000,
{
    if t.len() >= 2 && parse_digits_spec(t.drop_last()) is Some {
        lemma_digits_val_bound(t.drop_last());
        crate::strutil::lemma_pow10_mono(t.drop_last().len() as nat, 15nat);
        assert(pow10(15) == 1000000000000000) by {
            reveal_with_fuel(pow10, 17);
        }
    }
}

pub proof fn lemma_tokens_minutes_nonneg(ts: Seq<Seq<char>>)
    ensures
        tokens_minutes(ts) >= 0,
    decreases ts.len(),
{
    if ts.len() > 0 {
        lemma_tokens_minutes_nonneg(ts.drop_last());
        lemma_token_minutes_range(ts.last());
    }
}

/// Minutes of one duration token.
fn token_value(t: &str) -> (v: u64)
    ensures
        v as int == token_minutes(t@),
{
    let n = t.unicode_len();
    if n < 2 {
        return 0;
    }
    let unit = t.get_char(n - 1);
    let digits = t.substring_char(0, n - 1);
    proof {
        assert(digits@ =~= t@.drop_last());
    }
    match parse_digits(digits) {
        None => 0,
        Some(v) => {
            proof {
                lemma_digits_val_bound(t@.drop_last());
                crate::strutil::lemma_pow10_mono(t@.drop_last().len() as nat, 15nat);
                assert(pow10(15) == 1000000000000000) by {
                    reveal_with_fuel(pow10, 17);
                }
            }
            if unit == 'm' {
                v
            } else if unit == 'h' {
                v * 60
            } else if unit == 'd' {
                v * 480
            } else {
                0
            }
        },
    }
}

/// Sum the minutes of a list of duration tokens, saturating at
/// `isize::MAX`.  Tokens with an unknown unit or an unreadable count
/// contribute zero.
pub fn match_time_str(times: Vec<&str>) -> (s: isize)
    ensures
        s as int == clamp_max(tokens_minutes(strs_view(times@))),
{
    let max: u64 = isize::MAX as u64;
    let mut total: u64 = 0;
    let mut k: usize = 0;
    proof {
        assert(strs_view(times@).take(0) =~= Seq::<Seq<char>>::empty());
    }
    while k < times.len()
        invariant
            0 <= k <= times.len(),
            strs_view(times@).len() == times.len(),
            max == isize::MAX as u64,
            total as int == clamp_max(tokens_minutes(strs_view(times@).take(k as int))),
        decreases times.len() - k,
    {
        let tv = token_value(times[k]);
        proof {
            lemma_token_minutes_range(strs_view(times@)[k as int]);
            lemma_tokens_minutes_nonneg(strs_view(times@).take(k as int));
            assert(strs_view(times@).take(k + 1).drop_last() =~= strs_view(times@).take(k as int));
            assert(strs_view(times@).take(k + 1).last() == strs_view(times@)[k as int]);
        }
        let sum = total + tv;
        total = if sum > max {
            max
        } else {
            sum
        };
        k += 1;
    }
    proof {
        assert(strs_view(times@).take(times.len() as int) =~= strs_view(times@));
    }
    total as isize
}

/// `-1` for a `deleted` action; every other action, recognized or not,
/// counts as an addition.
pub open spec fn sign_of(tok: Seq<char>) -> int {
    if tok == "deleted"@ {
        -1
    } else {
        1
    }
}

/// The signed minute delta recorded by one annotation body, if the body
/// carries the expected ` of` separator at all.  Everything before the
/// first ` of` is read as an action word followed by duration tokens.
pub open spec fn note_delta(body: Seq<char>) -> Option<int> {
    match first_sub_index(body, " of"@) {
        None => None,
        Some(i) => {
            let toks = split_spec(body.take(i), " "@);
            Some(sign_of(toks[0]) * clamp_max(tokens_minutes(toks.skip(1))))
        },
    }
}

/// Parse one annotation into its author and signed minute delta.  Bodies
/// without the ` of` separator are reported unusable by `None`.
pub fn process_note(note: Note) -> (r: Option<(Author, isize)>)
    ensures
        match r {
            None => note_delta(note@.body) is None,
            Some(p) => {
                &&& note_delta(note@.body) == Some(p.1 as int)
                &&& p.0@ == note@.author
            },
        },
{
    let i = match find_sub(note.body.as_str(), " of") {
        None => {
            return None;
        },
        Some(i) => i,
    };
    proof {
        crate::strutil::lemma_first_sub_index(note.body@, " of"@);
    }
    let head = note.body.as_str().substring_char(0, i);
    proof {
        reveal_strlit(" ");
        assert(head@ =~= note.body@.take(i as int));
    }
    let toks: Vec<String> = split_by(head, " ");
    let sign_neg = str_eq(toks[0].as_str(), "deleted");
    let mut rest: Vec<&str> = Vec::new();
    let mut j: usize = 1;
    while j < toks.len()
        invariant
            1 <= j <= toks.len(),
            toks.len() >= 1,
            rest@.len() == j - 1,
            forall|t: int| 0 <= t < j - 1 ==> (#[trigger] rest@[t])@ == toks@[t + 1]@,
        decreases toks.len() - j,
    {
        rest.push(toks[j].as_str());
        j += 1;
    }
    proof {
        assert forall|t: int| 0 <= t < rest@.len() implies strs_view(rest@)[t] == toks.deep_view()
            .skip(1)[t] by {
            assert(strs_view(rest@)[t] == rest@[t]@);
            assert(toks.deep_view().skip(1)[t] == toks@[t + 1]@);
        }
        assert(strs_view(rest@) =~~= toks.deep_view().skip(1));
        lemma_tokens_minutes_nonneg(strs_view(rest@));
    }
    let minutes = match_time_str(rest);
    let delta = if sign_neg {
        -minutes
    } else {
        minutes
    };
    Some((note.author, delta))
}

/// First position of author `a` in the netting table.
pub open spec fn find_author(table: Seq<(AuthorV, int)>, a: AuthorV) -> Option<int>
    decreases table.len(),
{
    if table.len() == 0 {
        None
    } else if table[0].0 == a {
        Some(0int)
    } else {
        match find_author(table.skip(1), a) {
            None => None,
            Some(j) => Some(j + 1),
        }
    }
}

pub proof fn lemma_find_author(table: Seq<(AuthorV, int)>, a: AuthorV)
    ensures
        match find_author(table, a) {
            Some(j) => 0 <= j < table.len() && table[j].0 == a && forall|k: int|
                0 <= k < j ==> (#[trigger] table[k]).0 != a,
            None => forall|k: int| 0 <= k < table.len() ==> (#[trigger] table[k]).0 != a,
        },
    decreases table.len(),
{
    if table.len() > 0 && table[0].0 != a {
        lemma_find_author(table.skip(1), a);
        assert(forall|k: int|
            1 <= k < table.len() ==> (#[trigger] table[k]) == table.skip(1)[k - 1]);
    }
}

/// A signed saturating sum, pinned at the `isize` bounds.
pub open spec fn sat_add(a: int, b: int) -> int {
    if a + b > isize::MAX as int {
        isize::MAX as int
    } else if a + b < isize::MIN as int {
        isize::MIN as int
    } else {
        a + b
    }
}

/// Fold one delta for author `a` into the netting table: add it to the
/// author's running net if present, else open a new row at the end.
pub open spec fn accumulate(table: Seq<(AuthorV, int)>, a: AuthorV, d: int) -> Seq<
    (AuthorV, int),
> {
    match find_author(table, a) {
        None => table.push((a, sat_add(0, d))),
        Some(j) => table.update(j, (a, sat_add(table[j].1, d))),
    }
}

/// The netting table of a ticket's annotations, in order of each author's
/// first usable annotation.
pub open spec fn net_table(notes: Seq<NoteV>) -> Seq<(AuthorV, int)>
    decreases notes.len(),
{
    if notes.len() == 0 {
        Seq::empty()
    } else {
        let t = net_table(notes.drop_last());
        match note_delta(notes.last().body) {
            None => t,
            Some(d) => accumulate(t, notes.last().author, d),
        }
    }
}

/// The rows of the netting table with a nonzero net, as time entries for
/// ticket `ticket`, in table order.
pub open spec fn entries_of(table: Seq<(AuthorV, int)>, ticket: IssueV) -> Seq<TimeEntryV>
    decreases table.len(),
{
    if table.len() == 0 {
        Seq::empty()
    } else {
        entries_of(table.drop_last(), ticket) + if table.last().1 != 0 {
            seq![TimeEntryV { author: table.last().0, ticket, time_spent: table.last().1 }]
        } else {
            Seq::empty()
        }
    }
}

/// The time entries one ticket's annotations produce: per-author nets,
/// zero nets dropped.
pub open spec fn issue_entries(notes: Seq<NoteV>, ticket: IssueV) -> Seq<TimeEntryV> {
    entries_of(net_table(notes), ticket)
}

/// Spec view of the exec netting table.
pub open spec fn table_view(t: Seq<(Author, isize)>) -> Seq<(AuthorV, int)> {
    t.map_values(|p: (Author, isize)| (p.0@, p.1 as int))
}

/// A signed saturating add, pinned at the `isize` bounds.
pub fn saturating_add_isize(a: isize, b: isize) -> (r: isize)
    ensures
        r as int == sat_add(a as int, b as int),
{
    match a.checked_add(b) {
        Some(v) => v,
        None => if b > 0 {
            isize::MAX
        } else {
            isize::MIN
        },
    }
}

/// Net all usable annotations of one ticket per author and keep the
/// authors whose net activity is nonzero.
pub fn process_issue(notes: Vec<Note>, ticket: &Issue) -> (r: Vec<TimeEntry>)
    ensures
        r@.map_values(|e: TimeEntry| e@) == issue_entries(notes.deep_view(), ticket@),
{
    let mut table: Vec<(Author, isize)> = Vec::new();
    let mut k: usize = 0;
    proof {
        assert(notes.deep_view().take(0) =~= Seq::<NoteV>::empty());
        assert(table_view(table@) =~= net_table(notes.deep_view().take(0)));
    }
    while k < notes.len()
        invariant
            0 <= k <= notes.len(),
            notes.deep_view().len() == notes.len(),
            table_view(table@) == net_table(notes.deep_view().take(k as int)),
        decreases notes.len() - k,
    {
        proof {
            assert(notes.deep_view().take(k + 1).drop_last() =~= notes.deep_view().take(k as int));
            assert(notes.deep_view().take(k + 1).last() == notes.deep_view()[k as int]);
            assert(notes.deep_view()[k as int] == notes[k as int]@);
        }
        match process_note(notes[k].clone()) {
            None => {},
            Some((author, d)) => {
                let ghost tv = table_view(table@);
                proof {
                    lemma_find_author(tv, author@);
                }
                let mut j: usize = 0;
                let mut found = false;
                while j < table.len() && !found
                    invariant
                        0 <= j <= table.len(),
                        tv == table_view(table@),
                        tv.len() == table.len(),
                        !found ==> forall|k2: int| 0 <= k2 < j ==> (#[trigger] tv[k2]).0 != author@,
                        found ==> j < table.len() && tv[j as int].0 == author@ && forall|k2: int|
                            0 <= k2 < j ==> (#[trigger] tv[k2]).0 != author@,
                    decreases table.len() - j - (if found { 1int } else { 0int }),
                {
                    if crate::data::author_eq(&table[j].0, &author) {
                        found = true;
                    } else {
                        j += 1;
                    }
                }
                if found {
                    proof {
                        lemma_find_author(tv, author@);
                        assert(find_author(tv, author@) == Some(j as int));
                    }
                    let cur = table[j].1;
                    let newv = saturating_add_isize(cur, d);
                    table.set(j, (author, newv));
                    proof {
                        assert(table_view(table@) =~= accumulate(tv, author@, d as int));
                    }
                } else {
                    proof {
                        lemma_find_author(tv, author@);
                        assert(find_author(tv, author@) is None);
                    }
                    let newv = saturating_add_isize(0, d);
                    table.push((author, newv));
                    proof {
                        assert(table_view(table@) =~= accumulate(tv, author@, d as int));
                    }
                }
            },
        }
        k += 1;
    }
    proof {
        assert(notes.deep_view().take(notes.len() as int) =~= notes.deep_view());
    }
    let ghost full = table_view(table@);
    let mut out: Vec<TimeEntry> = Vec::new();
    let mut k2: usize = 0;
    proof {
        assert(out@.map_values(|e: TimeEntry| e@) =~= entries_of(full.take(0), ticket@));
    }
    while k2 < table.len()
        invariant
            0 <= k2 <= table.len(),
            full == table_view(table@),
            full.len() == table.len(),
            out@.map_values(|e: TimeEntry| e@) == entries_of(full.take(k2 as int), ticket@),
        decreases table.len() - k2,
    {
        proof {
            assert(full.take(k2 + 1).drop_last() =~= full.take(k2 as int));
            assert(full.take(k2 + 1).last() == full[k2 as int]);
        }
        if table[k2].1 != 0 {
            let entry = TimeEntry {
                author: table[k2].0.clone(),
                ticket: ticket.clone(),
                time_spent: table[k2].1,
            };
            out.push(entry);
            proof {
                assert(out@.map_values(|e: TimeEntry| e@) =~= entries_of(
                    full.take(k2 + 1),
                    ticket@,
                ));
            }
        } else {
            proof {
                assert(out@.map_values(|e: TimeEntry| e@) =~= entries_of(
                    full.take(k2 + 1),
                    ticket@,
                ));
            }
        }
        k2 += 1;
    }
    proof {
        assert(full.take(table.len() as int) =~= full);
    }
    out
}

/// Law: the netting of one ticket holds one row per author: no author
/// appears twice.
pub proof fn lemma_net_table_distinct(notes: Seq<NoteV>)
    ensures
        forall|i: int, j: int|
            0 <= i < j < net_table(notes).len() ==> (#[trigger] net_table(notes)[i]).0 != (
            #[trigger] net_table(notes)[j]).0,
    decreases notes.len(),
{
    if notes.len() > 0 {
        lemma_net_table_distinct(notes.drop_last());
        let t = net_table(notes.drop_last());
        match note_delta(notes.last().body) {
            None => {},
            Some(d) => {
                let a = notes.last().author;
                lemma_find_author(t, a);
                match find_author(t, a) {
                    None => {
                        let r = t.push((a, sat_add(0, d)));
                        assert forall|i: int, j: int| 0 <= i < j < r.len() implies (
                        #[trigger] r[i]).0 != (#[trigger] r[j]).0 by {
                            if j < t.len() {
                                assert(r[i] == t[i] && r[j] == t[j]);
                            } else {
                                assert(r[i] == t[i] && r[j].0 == a);
                            }
                        }
                    },
                    Some(k) => {
                        let r = t.update(k, (a, sat_add(t[k].1, d)));
                        assert(forall|i: int| 0 <= i < r.len() ==> (#[trigger] r[i]).0 == t[i].0);
                    },
                }
            },
        }
    }
}

proof fn lemma_entries_of_nonzero(table: Seq<(AuthorV, int)>, ticket: IssueV)
    ensures
        forall|j: int|
            0 <= j < entries_of(table, ticket).len() ==> (#[trigger] entries_of(table, ticket)[j])
                .time_spent != 0,
    decreases table.len(),
{
    if table.len() > 0 {
        lemma_entries_of_nonzero(table.drop_last(), ticket);
    }
}

proof fn lemma_entries_of_member(table: Seq<(AuthorV, int)>, ticket: IssueV)
    ensures
        forall|i: int|
            0 <= i < entries_of(table, ticket).len() ==> exists|k: int|
                0 <= k < table.len() && (#[trigger] entries_of(table, ticket)[i]).author == table[k].0,
    decreases table.len(),
{
    if table.len() > 0 {
        lemma_entries_of_member(table.drop_last(), ticket);
        let e = entries_of(table, ticket);
        let e0 = entries_of(table.drop_last(), ticket);
        assert forall|i: int| 0 <= i < e.len() implies exists|k: int|
            0 <= k < table.len() && (#[trigger] e[i]).author == table[k].0 by {
            if i < e0.len() {
                assert(e[i] == e0[i]);
                let k = choose|k: int|
                    0 <= k < table.drop_last().len() && e0[i].author == table.drop_last()[k].0;
                assert(table.drop_last()[k] == table[k]);
                assert(0 <= k < table.len() && e[i].author == table[k].0);
            } else {
                assert(e[i].author == table[table.len() - 1].0);
                assert(0 <= table.len() - 1 < table.len() && e[i].author == table[table.len()
                    - 1].0);
            }
        }
    }
}

proof fn lemma_entries_of_distinct(table: Seq<(AuthorV, int)>, ticket: IssueV)
    requires
        forall|i: int, j: int|
            0 <= i < j < table.len() ==> (#[trigger] table[i]).0 != (#[trigger] table[j]).0,
    ensures
        forall|i: int, j: int|
            0 <= i < j < entries_of(table, ticket).len() ==> (#[trigger] entries_of(
                table,
                ticket,
            )[i]).author != (#[trigger] entries_of(table, ticket)[j]).author,
    decreases table.len(),
{
    if table.len() > 0 {
        assert(forall|i: int|
            0 <= i < table.len() - 1 ==> (#[trigger] table.drop_last()[i]) == table[i]);
        lemma_entries_of_distinct(table.drop_last(), ticket);
        lemma_entries_of_member(table.drop_last(), ticket);
        let e = entries_of(table, ticket);
        let e0 = entries_of(table.drop_last(), ticket);
        assert forall|i: int, j: int| 0 <= i < j < e.len() implies (#[trigger] e[i]).author != (
        #[trigger] e[j]).author by {
            if j < e0.len() {
                assert(e[i] == e0[i] && e[j] == e0[j]);
            } else {
                assert(e[i] == e0[i]);
                assert(e[j].author == table[table.len() - 1].0);
                let k = choose|k: int|
                    0 <= k < table.drop_last().len() && e0[i].author == table.drop_last()[k].0;
                assert(table[k].0 != table[table.len() - 1].0);
            }
        }
    }
}

/// Law: one ticket yields at most one time entry per author.
pub proof fn lemma_issue_entries_distinct(notes: Seq<NoteV>, ticket: IssueV)
    ensures
        forall|i: int, j: int|
            0 <= i < j < issue_entries(notes, ticket).len() ==> (#[trigger] issue_entries(
                notes,
                ticket,
            )[i]).author != (#[trigger] issue_entries(notes, ticket)[j]).author,
{
    lemma_net_table_distinct(notes);
    lemma_entries_of_distinct(net_table(notes), ticket);
}

/// Law: an author whose additions and deletions on a ticket net to zero
/// minutes yields no time entry at all for that ticket.
pub proof fn lemma_issue_entries_nonzero(notes: Seq<NoteV>, ticket: IssueV)
    ensures
        forall|j: int|
            0 <= j < issue_entries(notes, ticket).len() ==> (#[trigger] issue_entries(
                notes,
                ticket,
            )[j]).time_spent != 0,
{
    lemma_entries_of_nonzero(net_table(notes), ticket);
}

} // verus!
