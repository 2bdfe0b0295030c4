//! The configuration: which git to run, whether prompts are kept, and which
//! repositories are allowed.
use vstd::prelude::*;
use crate::text::{chars_of, string_of, trim_chars, trim_spec};

verus! {

/// The configuration of the application.
pub struct Config {
    git_path: String,
    ignore_prompts: bool,
    allow_repositories: Vec<String>,
}

/// The set of the strings' views.
pub open spec fn string_set(v: Seq<String>) -> Set<Seq<char>> {
    Set::new(|s: Seq<char>| exists|i: int| 0 <= i < v.len() && (#[trigger] v[i])@ == s)
}

impl View for Config {
    /// The git command, whether prompts are ignored, and the allowed
    /// repository URLs.
    type V = (Seq<char>, bool, Set<Seq<char>>);

    closed spec fn view(&self) -> (Seq<char>, bool, Set<Seq<char>>) {
        (self.git_path@, self.ignore_prompts, string_set(self.allow_repositories@))
    }
}

impl Config {
    /// A configuration with git command `git_path`, prompts ignored or not,
    /// and the allowed repository URLs (a set: order and repeats do not
    /// matter).
    pub fn new(git_path: String, ignore_prompts: bool, allow_repositories: Vec<String>) -> (r: Self)
        ensures
            r@ == (git_path@, ignore_prompts, string_set(allow_repositories@)),
    {
        Config { git_path, ignore_prompts, allow_repositories }
    }

    /// The configuration from the values of the configuration file: prompts
    /// are kept unless the file says otherwise, and no allow list means
    /// every repository is allowed.
    pub fn from_file_values(
        git_path: String,
        ignore_prompts: Option<bool>,
        allow_repositories: Option<Vec<String>>,
    ) -> (r: Self)
        ensures
            r@.0 == git_path@,
            r@.1 == match ignore_prompts {
                Some(b) => b,
                None => false,
            },
            r@.2 == match allow_repositories {
                Some(v) => string_set(v@),
                None => Set::<Seq<char>>::empty(),
            },
    {
        let ig = match ignore_prompts {
            Some(b) => b,
            None => false,
        };
        let allow = match allow_repositories {
            Some(v) => v,
            None => Vec::new(),
        };
        let r = Config { git_path, ignore_prompts: ig, allow_repositories: allow };
        assert(r@.2 =~= match allow_repositories {
            Some(v) => string_set(v@),
            None => Set::<Seq<char>>::empty(),
        });
        r
    }

    /// The command to invoke git.
    pub fn git_cmd(&self) -> (r: &str)
        ensures
            r@ == self@.0,
    {
        self.git_path.as_str()
    }

    /// Whether prompts are ignored.
    pub fn get_ignore_prompts(&self) -> (r: bool)
        ensures
            r == self@.1,
    {
        self.ignore_prompts
    }

    /// Whether prompts are ignored.
    pub fn ignore_prompts(&self) -> (r: bool)
        ensures
            r == self@.1,
    {
        self.ignore_prompts
    }

    /// Whether a repository may be used. With no allow list every repository
    /// is allowed. Otherwise `remotes` describes the repository: `None` when
    /// there is none, `Some(None)` when its remotes could not be listed, and
    /// `Some(Some(rs))` with its remotes as (name, URL); it is allowed when
    /// the URL of one of its remotes is in the allow list.
    pub fn is_allowed_repository(&self, remotes: &Option<Option<Vec<(String, String)>>>) -> (r: bool)
        ensures
            r == (self@.2.is_empty() || match remotes {
                Some(Some(rs)) => exists|i: int| 0 <= i < rs@.len() && self@.2.contains(#[trigger] rs@[i].1@),
                _ => false,
            }),
    {
        if self.allow_repositories.len() == 0 {
            assert(self@.2 =~= Set::<Seq<char>>::empty());
            return true;
        }
        assert(self@.2.contains(self.allow_repositories@[0]@));
        match remotes {
            Some(Some(rs)) => self.any_remote_allowed(rs),
            _ => false,
        }
    }

    /// Whether the URL of one of the remotes is in the allow list.
    fn any_remote_allowed(&self, rs: &Vec<(String, String)>) -> (r: bool)
        ensures
            r == exists|i: int| 0 <= i < rs@.len() && self@.2.contains(#[trigger] rs@[i].1@),
    {
        let mut i: usize = 0;
        while i < rs.len()
            invariant
                0 <= i <= rs@.len(),
                forall|k: int| 0 <= k < i ==> !self@.2.contains(#[trigger] rs@[k].1@),
            decreases rs@.len() - i,
        {
            let mut j: usize = 0;
            let mut found = false;
            while j < self.allow_repositories.len()
                invariant
                    0 <= j <= self.allow_repositories@.len(),
                    i < rs@.len(),
                    found == exists|q: int| 0 <= q < j && (#[trigger] self.allow_repositories@[q])@ == rs@[i as int].1@,
                decreases self.allow_repositories@.len() - j,
            {
                if crate::str_map::str_eq(self.allow_repositories[j].as_str(), rs[i].1.as_str()) {
                    found = true;
                }
                j = j + 1;
            }
            if found {
                proof {
                    let q = choose|q: int| 0 <= q < j && (#[trigger] self.allow_repositories@[q])@ == rs@[i as int].1@;
                    assert(self@.2.contains(rs@[i as int].1@));
                }
                return true;
            }
            proof {
                if self@.2.contains(rs@[i as int].1@) {
                    let q = choose|q: int| 0 <= q < self.allow_repositories@.len() && (#[trigger] self.allow_repositories@[q])@ == rs@[i as int].1@;
                    assert(q < j);
                }
            }
            i = i + 1;
        }
        false
    }
}

/// The git path named in the configuration file, without surrounding white
/// space, when it is not empty.
pub fn configured_git_path(git_path: &Option<String>) -> (r: Option<String>)
    ensures
        match git_path {
            Some(p) => if trim_spec(p@).len() > 0 {
                r matches Some(t) && t@ == trim_spec(p@)
            } else {
                r is None
            },
            None => r is None,
        },
{
    match git_path {
        Some(p) => {
            let cs = chars_of(p.as_str());
            let t = trim_chars(cs.as_slice());
            if t.len() > 0 {
                Some(string_of(t.as_slice()))
            } else {
                None
            }
        },
        None => None,
    }
}

/// The places where git is looked for when the configuration names none
/// that exists, in order: Homebrew's, the usual Unix ones, then Git for
/// Windows'.
pub open spec fn git_path_candidates_spec() -> Seq<Seq<char>> {
    seq![
        "/opt/homebrew/bin/git"@,
        "/usr/local/bin/git"@,
        "/usr/bin/git"@,
        "/bin/git"@,
        "/usr/local/sbin/git"@,
        "/usr/sbin/git"@,
        "C:\\\\Program Files\\\\Git\\\\bin\\\\git.exe"@,
        "C:\\\\Program Files (x86)\\\\Git\\\\bin\\\\git.exe"@,
    ]
}

/// The places where git is looked for (see `git_path_candidates_spec`).
pub fn git_path_candidates() -> (r: Vec<&'static str>)
    ensures
        r@.map_values(|s: &'static str| s@) == git_path_candidates_spec(),
{
    let mut v: Vec<&'static str> = Vec::new();
    v.push("/opt/homebrew/bin/git");
    v.push("/usr/local/bin/git");
    v.push("/usr/bin/git");
    v.push("/bin/git");
    v.push("/usr/local/sbin/git");
    v.push("/usr/sbin/git");
    v.push("C:\\\\Program Files\\\\Git\\\\bin\\\\git.exe");
    v.push("C:\\\\Program Files (x86)\\\\Git\\\\bin\\\\git.exe");
    assert(v@.map_values(|s: &'static str| s@) =~= git_path_candidates_spec());
    v
}

} // verus!
