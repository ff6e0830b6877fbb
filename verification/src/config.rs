//! Run configuration and endpoint resolution: reading the repository URL
//! into a host and a repository path, percent-encoding the path, and
//! turning the outcome of the project/group probes into the base path all
//! later requests use.  Reading the configuration file and issuing the two
//! probe requests stay with the surrounding application.

use vstd::prelude::*;

use crate::strutil::{
    dec_str, digit_char, ends_with_str, has_prefix, has_suffix, starts_with_str, u64_to_string,
};

verus! {

/// What the configuration file holds, already decoded.
pub struct ConfFile {
    pub url: String,
    pub token: String,
    pub milestones: Vec<String>,
    pub parameters: Vec<(String, String)>,
    pub output: String,
}

/// The resolved run configuration every component works from.
pub struct Config {
    pub base_url: String,
    pub token: String,
    pub path: String,
    pub parameters: Vec<(String, String)>,
    pub output: String,
}

/// The command line: an optional configuration-file path.
pub struct Args {
    pub config: Option<String>,
}

/// Why a configuration could not be resolved.
#[derive(Clone, Copy, Debug, PartialEq, Eq, Structural)]
pub enum ConfigError {
    /// The repository URL does not match the accepted shape.
    InvalidUrl,
    /// Neither the project nor the group probe answered.
    NoProjectOrGroup,
}

impl ConfigError {
    /// The user-visible message of this error.
    pub fn message(&self) -> (r: &'static str)
        ensures
            *self is InvalidUrl ==> r@ == "Invalid URL"@,
            *self is NoProjectOrGroup ==> r@ == "No project or group found"@,
    {
        match self {
            ConfigError::InvalidUrl => "Invalid URL",
            ConfigError::NoProjectOrGroup => "No project or group found",
        }
    }
}

/// An ASCII letter, digit or underscore.
pub open spec fn is_word_char(c: char) -> bool {
    (97 <= c as int <= 122) || (65 <= c as int <= 90) || (48 <= c as int <= 57) || c == '_'
}

/// A character a host name may hold.
pub open spec fn is_host_char(c: char) -> bool {
    is_word_char(c) || c == '.' || c == '-'
}

/// A character a repository path may hold.
pub open spec fn is_path_char(c: char) -> bool {
    is_word_char(c) || c == '-' || c == '.' || c == '/'
}

/// Position of the last `.` in `h`, if any.
pub open spec fn last_dot(h: Seq<char>) -> Option<int>
    decreases h.len(),
{
    if h.len() == 0 {
        None
    } else if h.last() == '.' {
        Some(h.len() - 1)
    } else {
        last_dot(h.drop_last())
    }
}

pub proof fn lemma_last_dot(h: Seq<char>)
    ensures
        match last_dot(h) {
            Some(k) => 0 <= k < h.len() && h[k] == '.' && forall|j: int|
                k < j < h.len() ==> h[j] != '.',
            None => forall|j: int| 0 <= j < h.len() ==> h[j] != '.',
        },
    decreases h.len(),
{
    if h.len() > 0 && h.last() != '.' {
        lemma_last_dot(h.drop_last());
        assert(forall|j: int| 0 <= j < h.len() - 1 ==> h[j] == h.drop_last()[j]);
    }
}

/// A well-formed host: host characters throughout, with a last dot that
/// has at least one character before it and only word characters after it.
pub open spec fn host_ok(h: Seq<char>) -> bool {
    &&& forall|i: int| 0 <= i < h.len() ==> is_host_char(#[trigger] h[i])
    &&& match last_dot(h) {
        None => false,
        Some(k) => 1 <= k < h.len() - 1 && forall|j: int|
            k < j < h.len() ==> is_word_char(#[trigger] h[j]),
    }
}

/// A well-formed repository path: nonempty, path characters throughout.
pub open spec fn path_ok(p: Seq<char>) -> bool {
    p.len() >= 1 && forall|i: int| 0 <= i < p.len() ==> is_path_char(#[trigger] p[i])
}

/// Position of the first `/` or `:` in `s`, if any.
pub open spec fn first_sep(s: Seq<char>) -> Option<int>
    decreases s.len(),
{
    if s.len() == 0 {
        None
    } else if s[0] == '/' || s[0] == ':' {
        Some(0int)
    } else {
        match first_sep(s.skip(1)) {
            None => None,
            Some(i) => Some(i + 1),
        }
    }
}

pub proof fn lemma_first_sep(s: Seq<char>)
    ensures
        match first_sep(s) {
            Some(i) => 0 <= i < s.len() && (s[i] == '/' || s[i] == ':') && forall|j: int|
                0 <= j < i ==> s[j] != '/' && s[j] != ':',
            None => forall|j: int| 0 <= j < s.len() ==> s[j] != '/' && s[j] != ':',
        },
    decreases s.len(),
{
    if s.len() > 0 && !(s[0] == '/' || s[0] == ':') {
        lemma_first_sep(s.skip(1));
        assert(forall|j: int| 1 <= j < s.len() ==> s[j] == s.skip(1)[j - 1]);
    }
}

/// The host and repository path named by a repository URL, read as
/// `(https://|http://|git@)<host>(/|:)<path>`, where one trailing `/` and
/// then one trailing `.git` are dropped from the path.  A URL of any other
/// shape names nothing.
pub open spec fn repo_url_spec(u: Seq<char>) -> Option<(Seq<char>, Seq<char>)> {
    let rest = if has_prefix(u, "https://"@) {
        u.skip("https://"@.len() as int)
    } else if has_prefix(u, "http://"@) {
        u.skip("http://"@.len() as int)
    } else {
        u.skip("git@"@.len() as int)
    };
    if !(has_prefix(u, "https://"@) || has_prefix(u, "http://"@) || has_prefix(u, "git@"@)) {
        None
    } else {
        match first_sep(rest) {
            None => None,
            Some(i) => {
                let host = rest.take(i);
                let tail = rest.skip(i + 1);
                let t1 = if tail.len() > 0 && tail.last() == '/' {
                    tail.drop_last()
                } else {
                    tail
                };
                let t2 = if has_suffix(t1, ".git"@) {
                    t1.take(t1.len() - 4)
                } else {
                    t1
                };
                if host_ok(host) && path_ok(t2) {
                    Some((host, t2))
                } else {
                    None
                }
            },
        }
    }
}

/// Whether `h` is a well-formed host.
fn check_host(h: &str) -> (r: bool)
    ensures
        r == host_ok(h@),
{
    let n = h.unicode_len();
    let mut i: usize = 0;
    while i < n
        invariant
            n == h@.len(),
            0 <= i <= n,
            forall|k: int| 0 <= k < i ==> is_host_char(#[trigger] h@[k]),
        decreases n - i,
    {
        let c = h.get_char(i);
        let u = c as u32;
        let word = (97 <= u && u <= 122) || (65 <= u && u <= 90) || (48 <= u && u <= 57) || c
            == '_';
        if !(word || c == '.' || c == '-') {
            return false;
        }
        i += 1;
    }
    let mut k: usize = n;
    loop
        invariant
            n == h@.len(),
            0 <= k <= n,
            forall|t: int| 0 <= t < n ==> is_host_char(#[trigger] h@[t]),
            forall|j: int| k <= j < n ==> h@[j] != '.',
        decreases k,
    {
        if k == 0 {
            proof {
                lemma_last_dot(h@);
                assert(last_dot(h@) is None);
            }
            return false;
        }
        k -= 1;
        if h.get_char(k) == '.' {
            proof {
                lemma_last_dot(h@);
                assert(last_dot(h@) == Some(k as int));
            }
            if !(1 <= k && k < n - 1) {
                return false;
            }
            let mut j: usize = k + 1;
            while j < n
                invariant
                    n == h@.len(),
                    k + 1 <= j <= n,
                    last_dot(h@) == Some(k as int),
                    1 <= k < n - 1,
                    forall|t: int| 0 <= t < n ==> is_host_char(#[trigger] h@[t]),
                    forall|t: int| k < t < j ==> is_word_char(#[trigger] h@[t]),
                decreases n - j,
            {
                let c = h.get_char(j);
                let u = c as u32;
                let word = (97 <= u && u <= 122) || (65 <= u && u <= 90) || (48 <= u && u <= 57)
                    || c == '_';
                if !word {
                    return false;
                }
                j += 1;
            }
            return true;
        }
    }
}

/// Whether `p` is a well-formed repository path.
fn check_path(p: &str) -> (r: bool)
    ensures
        r == path_ok(p@),
{
    let n = p.unicode_len();
    if n == 0 {
        return false;
    }
    let mut i: usize = 0;
    while i < n
        invariant
            n == p@.len(),
            0 <= i <= n,
            forall|k: int| 0 <= k < i ==> is_path_char(#[trigger] p@[k]),
        decreases n - i,
    {
        let c = p.get_char(i);
        let u = c as u32;
        let word = (97 <= u && u <= 122) || (65 <= u && u <= 90) || (48 <= u && u <= 57) || c
            == '_';
        if !(word || c == '-' || c == '.' || c == '/') {
            return false;
        }
        i += 1;
    }
    true
}

/// Read a repository URL into its host and repository path.
pub fn parse_repo_url(url: &str) -> (r: Option<(String, String)>)
    ensures
        match r {
            None => repo_url_spec(url@) is None,
            Some(hp) => repo_url_spec(url@) == Some((hp.0@, hp.1@)),
        },
{
    let n = url.unicode_len();
    proof {
        reveal_strlit("https://");
        reveal_strlit("http://");
        reveal_strlit("git@");
    }
    let rest: &str = if starts_with_str(url, "https://") {
        url.substring_char(8, n)
    } else if starts_with_str(url, "http://") {
        url.substring_char(7, n)
    } else if starts_with_str(url, "git@") {
        url.substring_char(4, n)
    } else {
        proof {
            reveal_strlit("https://");
            reveal_strlit("http://");
            reveal_strlit("git@");
        }
        return None;
    };
    proof {
        reveal_strlit("https://");
        reveal_strlit("http://");
        reveal_strlit("git@");
        assert(rest@ =~= (if has_prefix(url@, "https://"@) {
            url@.skip(8)
        } else if has_prefix(url@, "http://"@) {
            url@.skip(7)
        } else {
            url@.skip(4)
        }));
        lemma_first_sep(rest@);
    }
    let rn = rest.unicode_len();
    let mut i: usize = 0;
    let mut sep: Option<usize> = None;
    while i < rn && sep.is_none()
        invariant
            rn == rest@.len(),
            0 <= i <= rn,
            sep is None ==> forall|k: int| 0 <= k < i ==> rest@[k] != '/' && rest@[k] != ':',
            match sep {
                Some(s) => s == i && i < rn && (rest@[s as int] == '/' || rest@[s as int] == ':')
                    && forall|k: int| 0 <= k < s ==> rest@[k] != '/' && rest@[k] != ':',
                None => true,
            },
        decreases rn - i + (if sep is None { 1int } else { 0int }),
    {
        let c = rest.get_char(i);
        if c == '/' || c == ':' {
            sep = Some(i);
        } else {
            i += 1;
        }
    }
    let si = match sep {
        None => {
            proof {
                lemma_first_sep(rest@);
            }
            return None;
        },
        Some(s) => s,
    };
    proof {
        lemma_first_sep(rest@);
        assert(first_sep(rest@) == Some(si as int));
    }
    let host = rest.substring_char(0, si);
    let tail = rest.substring_char(si + 1, rn);
    proof {
        assert(host@ =~= rest@.take(si as int));
        assert(tail@ =~= rest@.skip(si + 1));
    }
    let tn = tail.unicode_len();
    let t1: &str = if tn > 0 && tail.get_char(tn - 1) == '/' {
        tail.substring_char(0, tn - 1)
    } else {
        tail
    };
    proof {
        assert(t1@ =~= (if tail@.len() > 0 && tail@.last() == '/' {
            tail@.drop_last()
        } else {
            tail@
        }));
    }
    let t1n = t1.unicode_len();
    let t2: &str = if ends_with_str(t1, ".git") {
        proof {
            reveal_strlit(".git");
        }
        t1.substring_char(0, t1n - 4)
    } else {
        proof {
            reveal_strlit(".git");
        }
        t1
    };
    proof {
        reveal_strlit(".git");
        assert(t2@ =~= (if has_suffix(t1@, ".git"@) {
            t1@.take(t1@.len() - 4)
        } else {
            t1@
        }));
    }
    if check_host(host) && check_path(t2) {
        Some((host.to_owned(), t2.to_owned()))
    } else {
        None
    }
}

/// Uppercase hexadecimal digit of a value below sixteen.
pub open spec fn hex_digit(d: int) -> char {
    if d < 10 {
        digit_char(d as nat)
    } else if d == 10 {
        'A'
    } else if d == 11 {
        'B'
    } else if d == 12 {
        'C'
    } else if d == 13 {
        'D'
    } else if d == 14 {
        'E'
    } else {
        'F'
    }
}

/// An ASCII letter or digit, the characters percent-encoding leaves alone.
pub open spec fn is_alnum(c: char) -> bool {
    (97 <= c as int <= 122) || (65 <= c as int <= 90) || (48 <= c as int <= 57)
}

/// How percent-encoding writes one ASCII character.
pub open spec fn percent_encode_char(c: char) -> Seq<char> {
    if is_alnum(c) {
        seq![c]
    } else {
        seq!['%', hex_digit(c as int / 16), hex_digit(c as int % 16)]
    }
}

/// The percent-encoding of an ASCII string with every non-alphanumeric
/// character escaped.
pub open spec fn percent_encode_spec(s: Seq<char>) -> Seq<char>
    decreases s.len(),
{
    if s.len() == 0 {
        Seq::empty()
    } else {
        percent_encode_spec(s.drop_last()) + percent_encode_char(s.last())
    }
}

/// Relies on `percent_encoding::utf8_percent_encode` with the
/// `NON_ALPHANUMERIC` set: every byte outside ASCII alphanumerics becomes
/// `%` followed by its two uppercase hexadecimal digits; ASCII input means
/// every character is one byte.
#[verifier::external_body]
fn percent_encode_ascii(s: &str) -> (r: String)
    requires
        forall|i: int| 0 <= i < s@.len() ==> (#[trigger] s@[i] as int) < 128,
    ensures
        r@ == percent_encode_spec(s@),
{
    percent_encoding::utf8_percent_encode(s, percent_encoding::NON_ALPHANUMERIC).to_string()
}

/// The two single-resource URLs to probe for a repository path, project
/// first, group second.
pub struct ProbePlan {
    pub base_url: String,
    pub encoded_path: String,
    pub project_url: String,
    pub group_url: String,
}

/// What the probe URLs of a parsed repository URL look like.
pub open spec fn probe_plan_ok(u: Seq<char>, p: ProbePlan) -> bool {
    match repo_url_spec(u) {
        None => false,
        Some(hp) => {
            &&& p.base_url@ == hp.0
            &&& p.encoded_path@ == percent_encode_spec(hp.1)
            &&& p.project_url@ == "https://"@ + hp.0 + "/api/v4/projects/"@ + percent_encode_spec(
                hp.1,
            )
            &&& p.group_url@ == "https://"@ + hp.0 + "/api/v4/groups/"@ + percent_encode_spec(
                hp.1,
            )
        },
    }
}

/// Resolve a repository URL into the two probe URLs, or reject it.
pub fn plan_resolution(url: &str) -> (r: Result<ProbePlan, ConfigError>)
    ensures
        match r {
            Ok(p) => probe_plan_ok(url@, p),
            Err(e) => repo_url_spec(url@) is None && e == ConfigError::InvalidUrl,
        },
{
    let (host, path) = match parse_repo_url(url) {
        None => {
            return Err(ConfigError::InvalidUrl);
        },
        Some(hp) => hp,
    };
    proof {
        assert forall|i: int| 0 <= i < path@.len() implies (#[trigger] path@[i] as int) < 128 by {
            assert(is_path_char(path@[i]));
        }
    }
    let encoded = percent_encode_ascii(path.as_str());
    let mut project_url = "https://".to_owned();
    project_url.append(host.as_str());
    project_url.append("/api/v4/projects/");
    project_url.append(encoded.as_str());
    let mut group_url = "https://".to_owned();
    group_url.append(host.as_str());
    group_url.append("/api/v4/groups/");
    group_url.append(encoded.as_str());
    Ok(ProbePlan { base_url: host, encoded_path: encoded, project_url, group_url })
}

/// The base path of all later requests, from the probes' outcome: the
/// project's id wins over the group's; neither is a failed resolution.
pub fn resolve_endpoint(project: Option<u64>, group: Option<u64>) -> (r: Result<
    String,
    ConfigError,
>)
    ensures
        match r {
            Ok(loc) => (match project {
                Some(id) => loc@ == "projects/"@ + dec_str(id as nat),
                None => project is None && (match group {
                    Some(id) => loc@ == "groups/"@ + dec_str(id as nat),
                    None => false,
                }),
            }),
            Err(e) => project is None && group is None && e == ConfigError::NoProjectOrGroup,
        },
{
    match project {
        Some(id) => {
            let mut s = "projects/".to_owned();
            let num = u64_to_string(id);
            s.append(num.as_str());
            Ok(s)
        },
        None => match group {
            Some(id) => {
                let mut s = "groups/".to_owned();
                let num = u64_to_string(id);
                s.append(num.as_str());
                Ok(s)
            },
            None => Err(ConfigError::NoProjectOrGroup),
        },
    }
}

/// The query parameters of the issue listing: the configured extra
/// parameters, then one `milestone` parameter per configured milestone.
pub fn merge_parameters(parameters: Vec<(String, String)>, milestones: Vec<String>) -> (r: Vec<
    (String, String),
>)
    ensures
        r@.len() == parameters@.len() + milestones@.len(),
        forall|k: int|
            0 <= k < parameters@.len() ==> (#[trigger] r@[k]).0@ == parameters@[k].0@ && r@[k].1@
                == parameters@[k].1@,
        forall|k: int|
            0 <= k < milestones@.len() ==> (#[trigger] r@[parameters@.len() + k]).0@
                == "milestone"@ && r@[parameters@.len() + k].1@ == milestones@[k]@,
{
    let mut out: Vec<(String, String)> = Vec::new();
    let mut k: usize = 0;
    while k < parameters.len()
        invariant
            0 <= k <= parameters.len(),
            out@.len() == k,
            forall|t: int|
                0 <= t < k ==> (#[trigger] out@[t]).0@ == parameters@[t].0@ && out@[t].1@
                    == parameters@[t].1@,
        decreases parameters.len() - k,
    {
        out.push((parameters[k].0.clone(), parameters[k].1.clone()));
        k += 1;
    }
    let base = parameters.len();
    let mut k2: usize = 0;
    while k2 < milestones.len()
        invariant
            0 <= k2 <= milestones.len(),
            base == parameters@.len(),
            out@.len() == base + k2,
            forall|t: int|
                0 <= t < base ==> (#[trigger] out@[t]).0@ == parameters@[t].0@ && out@[t].1@
                    == parameters@[t].1@,
            forall|t: int|
                0 <= t < k2 ==> (#[trigger] out@[base + t]).0@ == "milestone"@ && out@[base
                    + t].1@ == milestones@[t]@,
        decreases milestones.len() - k2,
    {
        out.push(("milestone".to_owned(), milestones[k2].clone()));
        k2 += 1;
    }
    out
}

/// Put the resolved pieces together into the run configuration.
pub fn assemble_config(host: String, location: String, conf: ConfFile) -> (r: Config)
    ensures
        r.base_url@ == host@,
        r.token@ == conf.token@,
        r.path@ == location@,
        r.parameters@.len() == conf.parameters@.len() + conf.milestones@.len(),
        forall|k: int|
            0 <= k < conf.parameters@.len() ==> (#[trigger] r.parameters@[k]).0@
                == conf.parameters@[k].0@ && r.parameters@[k].1@ == conf.parameters@[k].1@,
        forall|k: int|
            0 <= k < conf.milestones@.len() ==> (#[trigger] r.parameters@[conf.parameters@.len()
                + k]).0@ == "milestone"@ && r.parameters@[conf.parameters@.len() + k].1@
                == conf.milestones@[k]@,
        r.output@ == conf.output@,
{
    let params = merge_parameters(conf.parameters, conf.milestones);
    Config {
        base_url: host,
        token: conf.token,
        path: location,
        parameters: params,
        output: conf.output,
    }
}

impl Config {
    /// The query parameters as borrowed pairs.
    pub fn parameters(&self) -> (r: Vec<(&str, &str)>)
        ensures
            r@.len() == self.parameters@.len(),
            forall|k: int|
                0 <= k < r@.len() ==> (#[trigger] r@[k]).0@ == self.parameters@[k].0@
                    && r@[k].1@ == self.parameters@[k].1@,
    {
        let mut out: Vec<(&str, &str)> = Vec::new();
        let mut k: usize = 0;
        while k < self.parameters.len()
            invariant
                0 <= k <= self.parameters.len(),
                out@.len() == k,
                forall|t: int|
                    0 <= t < k ==> (#[trigger] out@[t]).0@ == self.parameters@[t].0@
                        && out@[t].1@ == self.parameters@[t].1@,
            decreases self.parameters.len() - k,
        {
            out.push((self.parameters[k].0.as_str(), self.parameters[k].1.as_str()));
            k += 1;
        }
        out
    }

    /// The access token.
    pub fn token(&self) -> (r: String)
        ensures
            r@ == self.token@,
    {
        self.token.clone()
    }

    /// The remote host.
    pub fn url(&self) -> (r: String)
        ensures
            r@ == self.base_url@,
    {
        self.base_url.clone()
    }

    /// The resolved base path, `projects/<id>` or `groups/<id>`.
    pub fn endpoint(&self) -> (r: String)
        ensures
            r@ == self.path@,
    {
        self.path.clone()
    }
}

} // verus!
