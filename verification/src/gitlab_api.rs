//! Paths of the remote issue-tracker API and the filter that keeps only
//! time-tracking annotations.  The HTTP requests themselves are issued by
//! the surrounding application against these paths.

use vstd::prelude::*;

use crate::data::{Note, NoteV};
use crate::strutil::{dec_str, has_sub, u64_to_string};

verus! {

/// The annotation speaks of a time-log action: it mentions `added` or
/// `deleted`, and the phrase `time spent`.
pub open spec fn note_matches(body: Seq<char>) -> bool {
    (has_sub(body, "added"@) || has_sub(body, "deleted"@)) && has_sub(body, "time spent"@)
}

/// The annotations that carry a time-log action, in the order they came.
pub open spec fn kept_notes(notes: Seq<NoteV>) -> Seq<NoteV>
    decreases notes.len(),
{
    if notes.len() == 0 {
        Seq::empty()
    } else {
        kept_notes(notes.drop_last()) + if note_matches(notes.last().body) {
            seq![notes.last()]
        } else {
            Seq::empty()
        }
    }
}

/// Keep only the annotations that record a time-log action.
pub fn filter_time_notes(notes: Vec<Note>) -> (r: Vec<Note>)
    ensures
        r.deep_view() == kept_notes(notes.deep_view()),
{
    let mut out: Vec<Note> = Vec::new();
    let mut k: usize = 0;
    proof {
        assert(notes.deep_view().take(0) =~= Seq::<NoteV>::empty());
        assert(out.deep_view() =~= kept_notes(notes.deep_view().take(0)));
    }
    while k < notes.len()
        invariant
            0 <= k <= notes.len(),
            notes.deep_view().len() == notes.len(),
            out.deep_view() == kept_notes(notes.deep_view().take(k as int)),
        decreases notes.len() - k,
    {
        proof {
            assert(notes.deep_view().take(k + 1).drop_last() =~= notes.deep_view().take(k as int));
            assert(notes.deep_view().take(k + 1).last() == notes.deep_view()[k as int]);
            assert(notes.deep_view()[k as int] == notes[k as int]@);
        }
        let keep = (crate::strutil::contains_sub(notes[k].body.as_str(), "added")
            || crate::strutil::contains_sub(notes[k].body.as_str(), "deleted"))
            && crate::strutil::contains_sub(notes[k].body.as_str(), "time spent");
        if keep {
            out.push(notes[k].clone());
        }
        proof {
            assert(out.deep_view() =~= kept_notes(notes.deep_view().take(k + 1)));
        }
        k += 1;
    }
    proof {
        assert(notes.deep_view().take(notes.len() as int) =~= notes.deep_view());
    }
    out
}

/// The issue-collection path below the resolved project or group.
pub fn issues_path(endpoint: &str) -> (r: String)
    ensures
        r@ == endpoint@ + "/issues/"@,
{
    let s = endpoint.to_owned();
    s.concat("/issues/")
}

/// The annotation-collection path of one ticket.
pub fn notes_path(project_id: u64, iid: u64) -> (r: String)
    ensures
        r@ == "/projects/"@ + dec_str(project_id as nat) + "/issues/"@ + dec_str(iid as nat)
            + "/notes"@,
{
    let mut s = "/projects/".to_owned();
    let pid = u64_to_string(project_id);
    s.append(pid.as_str());
    s.append("/issues/");
    let num = u64_to_string(iid);
    s.append(num.as_str());
    s.append("/notes");
    proof {
        assert(s@ =~= "/projects/"@ + dec_str(project_id as nat) + "/issues/"@ + dec_str(
            iid as nat,
        ) + "/notes"@);
    }
    s
}

/// One page request of a collection resource: the full URL the walk asks
/// the application to fetch next.
pub fn page_request_path(host: &str, endpoint: &str, page: usize) -> (r: String)
    ensures
        r@ == "https://"@ + host@ + "/api/v4/"@ + endpoint@ + "?per_page=100&page="@ + dec_str(
            page as nat,
        ),
{
    let mut s = "https://".to_owned();
    s.append(host);
    s.append("/api/v4/");
    s.append(endpoint);
    s.append("?per_page=100&page=");
    let num = u64_to_string(page as u64);
    s.append(num.as_str());
    proof {
        assert(s@ =~= "https://"@ + host@ + "/api/v4/"@ + endpoint@ + "?per_page=100&page="@
            + dec_str(page as nat));
    }
    s
}

} // verus!
