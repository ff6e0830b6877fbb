//! The entities of one reporting run: people, tickets, annotations and the
//! signed time entries parsed out of them.  Each executable type has a ghost
//! view over which the contracts speak.

use vstd::prelude::*;

verus! {

/// Identity of a person who wrote annotations.
pub struct Author {
    pub id: u64,
    pub username: String,
    pub name: String,
}

#[verifier::ext_equal]
pub ghost struct AuthorV {
    pub id: u64,
    pub username: Seq<char>,
    pub name: Seq<char>,
}

impl View for Author {
    type V = AuthorV;

    open spec fn view(&self) -> AuthorV {
        AuthorV { id: self.id, username: self.username@, name: self.name@ }
    }
}

impl Clone for Author {
    fn clone(&self) -> (res: Self)
        ensures
            res@ == self@,
    {
        Author { id: self.id, username: self.username.clone(), name: self.name.clone() }
    }
}

/// Whether two authors are the same person: id, username and display name
/// all agree.
pub fn author_eq(a: &Author, b: &Author) -> (r: bool)
    ensures
        r == (a@ == b@),
{
    let r = a.id == b.id && a.username == b.username && a.name == b.name;
    proof {
        if r {
            assert(a@ =~= b@);
        }
    }
    r
}

/// One free-text note from a ticket's change history.
pub struct Note {
    pub body: String,
    pub author: Author,
}

#[verifier::ext_equal]
pub ghost struct NoteV {
    pub body: Seq<char>,
    pub author: AuthorV,
}

impl View for Note {
    type V = NoteV;

    open spec fn view(&self) -> NoteV {
        NoteV { body: self.body@, author: self.author@ }
    }
}

impl DeepView for Note {
    type V = NoteV;

    open spec fn deep_view(&self) -> NoteV {
        self.view()
    }
}

impl Clone for Note {
    fn clone(&self) -> (res: Self)
        ensures
            res@ == self@,
    {
        Note { body: self.body.clone(), author: self.author.clone() }
    }
}

/// A milestone a ticket may belong to.
pub struct Milestone {
    pub title: String,
}

impl View for Milestone {
    type V = Seq<char>;

    open spec fn view(&self) -> Seq<char> {
        self.title@
    }
}

impl Clone for Milestone {
    fn clone(&self) -> (res: Self)
        ensures
            res@ == self@,
    {
        Milestone { title: self.title.clone() }
    }
}

/// Total time the remote tracker itself reports for a ticket.
#[derive(Clone, Copy)]
pub struct TimeStats {
    pub total_time_spent: Option<u64>,
}

impl View for TimeStats {
    type V = Option<u64>;

    open spec fn view(&self) -> Option<u64> {
        self.total_time_spent
    }
}

/// An issue-tracker work item.
pub struct Issue {
    pub iid: u64,
    pub project_id: u64,
    pub title: String,
    pub time_stats: Option<TimeStats>,
    pub milestone: Option<Milestone>,
    pub web_url: String,
}

#[verifier::ext_equal]
pub ghost struct IssueV {
    pub iid: u64,
    pub project_id: u64,
    pub title: Seq<char>,
    pub time_stats: Option<Option<u64>>,
    pub milestone: Option<Seq<char>>,
    pub web_url: Seq<char>,
}

impl View for Issue {
    type V = IssueV;

    open spec fn view(&self) -> IssueV {
        IssueV {
            iid: self.iid,
            project_id: self.project_id,
            title: self.title@,
            time_stats: match self.time_stats {
                Some(t) => Some(t@),
                None => None,
            },
            milestone: match self.milestone {
                Some(m) => Some(m@),
                None => None,
            },
            web_url: self.web_url@,
        }
    }
}

impl Clone for Issue {
    fn clone(&self) -> (res: Self)
        ensures
            res@ == self@,
    {
        let res = Issue {
            iid: self.iid,
            project_id: self.project_id,
            title: self.title.clone(),
            time_stats: match &self.time_stats {
                Some(t) => Some(*t),
                None => None,
            },
            milestone: match &self.milestone {
                Some(m) => Some(m.clone()),
                None => None,
            },
            web_url: self.web_url.clone(),
        };
        proof {
            assert(res@ =~= self@);
        }
        res
    }
}

/// Net signed minutes one author logged on one ticket.
pub struct TimeEntry {
    pub author: Author,
    pub ticket: Issue,
    pub time_spent: isize,
}

#[verifier::ext_equal]
pub ghost struct TimeEntryV {
    pub author: AuthorV,
    pub ticket: IssueV,
    pub time_spent: int,
}

impl View for TimeEntry {
    type V = TimeEntryV;

    open spec fn view(&self) -> TimeEntryV {
        TimeEntryV { author: self.author@, ticket: self.ticket@, time_spent: self.time_spent as int }
    }
}

/// The single-resource answer when a repository path names a project.
pub struct Project {
    pub id: u64,
}

/// The single-resource answer when a repository path names a group.
pub struct Group {
    pub id: u64,
}

} // verus!
