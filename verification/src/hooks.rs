//! Checks that a commit or a changed file must pass before it lands.

use crate::pattern::{compile, is_match, regex_compiles, regex_matches, Pattern};
use vstd::prelude::*;
use vstd::string::*;

verus! {

/// Why a hook turned something down.
#[derive(Debug)]
pub struct HookRejectionInfo {
    /// A short, fixed description of the rule.
    pub description: &'static str,
    /// What to tell the author.
    pub long_description: String,
}

/// What a hook decided.
#[derive(Debug)]
pub enum HookExecution {
    Accepted,
    Rejected(HookRejectionInfo),
}

impl HookRejectionInfo {
    /// A rejection with a description that says it all.
    pub fn new(description: &'static str) -> (r: HookRejectionInfo)
        ensures
            r.description@ == description@,
            r.long_description@ == description@,
    {
        HookRejectionInfo::new_long(description, String::from_str(description))
    }

    /// A rejection with a short description and a longer one.
    pub fn new_long(description: &'static str, long_description: String) -> (r: HookRejectionInfo)
        ensures
            r.description@ == description@,
            r.long_description@ == long_description@,
    {
        HookRejectionInfo { description, long_description }
    }
}

impl HookExecution {
    /// Whether this is a rejection with these two texts.
    pub open spec fn rejects_with(self, description: Seq<char>, long_description: Seq<char>) -> bool {
        self matches HookExecution::Rejected(info) && info.description@ == description
            && info.long_description@ == long_description
    }
}

/// Turns down commits that change no file.
#[derive(Clone, Debug)]
pub struct BlockEmptyCommit;

impl BlockEmptyCommit {
    pub fn new() -> (r: BlockEmptyCommit) {
        BlockEmptyCommit
    }

    /// Judges a changeset by the number of files that it changes: none is
    /// turned down, anything else is accepted.
    pub fn run(&self, file_changes: usize) -> (r: HookExecution)
        ensures
            file_changes == 0 ==> r.rejects_with(
                "Empty commit is not allowed"@,
                "You must include file changes in your commit for it to land"@,
            ),
            file_changes != 0 ==> r is Accepted,
    {
        if file_changes == 0 {
            HookExecution::Rejected(
                HookRejectionInfo::new_long(
                    "Empty commit is not allowed",
                    String::from_str("You must include file changes in your commit for it to land"),
                ),
            )
        } else {
            HookExecution::Accepted
        }
    }
}

/// The pattern for braces in a file name.
pub open spec fn braces_pattern() -> Seq<char> {
    "[{}]"@
}

/// The pattern for what is awkward on a command line: white space,
/// apostrophes, and a hyphen at the start of a path component.
pub open spec fn cmd_line_pattern() -> Seq<char> {
    r"\s|'|(^|/)-"@
}

/// Which of the four patterns of the file name check did not compile.
#[derive(Clone, Copy, Debug, PartialEq, Eq, Structural)]
pub enum PatternKind {
    AllowlistForBraces,
    Braces,
    AllowlistForCmdLine,
    CmdLine,
}

/// The file name check could not be built.
#[derive(Debug)]
pub struct BuildError {
    /// The pattern that did not compile.
    pub kind: PatternKind,
    /// What the pattern compiler said.
    pub cause: regex::Error,
}

/// Collects the two optional allowlists of the file name check.
pub struct NoQuestionableFilenamesBuilder<'a> {
    allowlist_for_braces: Option<&'a str>,
    allowlist_for_cmd_line: Option<&'a str>,
}

/// Turns down file names with braces in them, or with what is awkward on a
/// command line, unless an allowlist lets the name pass.
pub struct NoQuestionableFilenames {
    allowlist_for_braces: Option<Pattern>,
    braces: Pattern,
    allowlist_for_cmd_line: Option<Pattern>,
    cmd_line: Pattern,
}

impl<'a> Default for NoQuestionableFilenamesBuilder<'a> {
    fn default() -> (r: Self)
        ensures
            r.braces_allowlist() is None,
            r.cmd_line_allowlist() is None,
    {
        NoQuestionableFilenamesBuilder { allowlist_for_braces: None, allowlist_for_cmd_line: None }
    }
}

impl<'a> NoQuestionableFilenamesBuilder<'a> {
    /// The pattern of the allowlist for braces, if one was given.
    pub closed spec fn braces_allowlist(&self) -> Option<Seq<char>> {
        match self.allowlist_for_braces {
            Some(p) => Some(p@),
            None => None,
        }
    }

    /// The pattern of the allowlist for the command line, if one was given.
    pub closed spec fn cmd_line_allowlist(&self) -> Option<Seq<char>> {
        match self.allowlist_for_cmd_line {
            Some(p) => Some(p@),
            None => None,
        }
    }

    /// Takes over the allowlists that a hook's configuration gives: each of
    /// the two values, where it is there, replaces what the builder held.
    pub fn set_from_config(
        self,
        allowlist_for_braces: Option<&'a str>,
        allowlist_for_cmd_line: Option<&'a str>,
    ) -> (r: Self)
        ensures
            r.braces_allowlist() == match allowlist_for_braces {
                Some(p) => Some(p@),
                None => self.braces_allowlist(),
            },
            r.cmd_line_allowlist() == match allowlist_for_cmd_line {
                Some(p) => Some(p@),
                None => self.cmd_line_allowlist(),
            },
    {
        let mut this = self;
        if let Some(v) = allowlist_for_braces {
            this = this.allowlist_for_braces(v);
        }
        if let Some(v) = allowlist_for_cmd_line {
            this = this.allowlist_for_cmd_line(v);
        }
        this
    }

    /// Sets the allowlist for braces.
    pub fn allowlist_for_braces(self, regex: &'a str) -> (r: Self)
        ensures
            r.braces_allowlist() == Some(regex@),
            r.cmd_line_allowlist() == self.cmd_line_allowlist(),
    {
        NoQuestionableFilenamesBuilder {
            allowlist_for_braces: Some(regex),
            allowlist_for_cmd_line: self.allowlist_for_cmd_line,
        }
    }

    /// Sets the allowlist for the command line.
    pub fn allowlist_for_cmd_line(self, regex: &'a str) -> (r: Self)
        ensures
            r.braces_allowlist() == self.braces_allowlist(),
            r.cmd_line_allowlist() == Some(regex@),
    {
        NoQuestionableFilenamesBuilder {
            allowlist_for_braces: self.allowlist_for_braces,
            allowlist_for_cmd_line: Some(regex),
        }
    }

    /// The first pattern that does not compile, in the order in which `build`
    /// compiles them: the allowlist for braces, the braces, the allowlist for
    /// the command line, the command line.
    pub open spec fn first_bad_pattern(&self) -> Option<PatternKind> {
        if self.braces_allowlist() matches Some(p) && !regex_compiles(p) {
            Some(PatternKind::AllowlistForBraces)
        } else if !regex_compiles(braces_pattern()) {
            Some(PatternKind::Braces)
        } else if self.cmd_line_allowlist() matches Some(p) && !regex_compiles(p) {
            Some(PatternKind::AllowlistForCmdLine)
        } else if !regex_compiles(cmd_line_pattern()) {
            Some(PatternKind::CmdLine)
        } else {
            None
        }
    }

    /// Compiles the patterns. Fails at the first that does not compile, and
    /// says which. The check that comes out has the builder's allowlists, and
    /// looks for braces and for what is awkward on a command line.
    pub fn build(self) -> (r: Result<NoQuestionableFilenames, BuildError>)
        ensures
            match r {
                Ok(hook) => self.first_bad_pattern() is None && hook.braces_allowlist()
                    == self.braces_allowlist() && hook.cmd_line_allowlist()
                    == self.cmd_line_allowlist() && hook.braces() == braces_pattern()
                    && hook.cmd_line() == cmd_line_pattern(),
                Err(e) => self.first_bad_pattern() == Some(e.kind),
            },
    {
        let allowlist_for_braces = match self.allowlist_for_braces {
            Some(p) => match compile(p) {
                Ok(re) => Some(re),
                Err(cause) => {
                    return Err(BuildError { kind: PatternKind::AllowlistForBraces, cause });
                },
            },
            None => None,
        };
        let braces = match compile("[{}]") {
            Ok(re) => re,
            Err(cause) => {
                return Err(BuildError { kind: PatternKind::Braces, cause });
            },
        };
        let allowlist_for_cmd_line = match self.allowlist_for_cmd_line {
            Some(p) => match compile(p) {
                Ok(re) => Some(re),
                Err(cause) => {
                    return Err(BuildError { kind: PatternKind::AllowlistForCmdLine, cause });
                },
            },
            None => None,
        };
        let cmd_line = match compile(r"\s|'|(^|/)-") {
            Ok(re) => re,
            Err(cause) => {
                return Err(BuildError { kind: PatternKind::CmdLine, cause });
            },
        };
        Ok(NoQuestionableFilenames { allowlist_for_braces, braces, allowlist_for_cmd_line, cmd_line })
    }
}

/// The short description of a file name that was turned down.
pub open spec fn illegal_filename() -> Seq<char> {
    "Illegal filename"@
}

/// The message for a file name that was turned down.
pub open spec fn illegal_filename_message(path: Seq<char>) -> Seq<char> {
    "ABORT: Illegal filename: "@ + path
}

/// Whether a file name is turned down, given what the patterns found in it:
/// it is where a forbidden pattern matches and the allowlist for that
/// pattern does not let the name pass.
pub open spec fn name_is_rejected(
    braces_hit: bool,
    braces_allowed: bool,
    cmd_line_hit: bool,
    cmd_line_allowed: bool,
) -> bool {
    (braces_hit && !braces_allowed) || (cmd_line_hit && !cmd_line_allowed)
}

impl NoQuestionableFilenames {
    /// A builder without allowlists.
    pub fn builder<'a>() -> (r: NoQuestionableFilenamesBuilder<'a>)
        ensures
            r.braces_allowlist() is None,
            r.cmd_line_allowlist() is None,
    {
        NoQuestionableFilenamesBuilder::default()
    }

    /// The pattern of the allowlist for braces, if there is one.
    pub closed spec fn braces_allowlist(&self) -> Option<Seq<char>> {
        match self.allowlist_for_braces {
            Some(p) => Some(p@),
            None => None,
        }
    }

    /// The pattern of the allowlist for the command line, if there is one.
    pub closed spec fn cmd_line_allowlist(&self) -> Option<Seq<char>> {
        match self.allowlist_for_cmd_line {
            Some(p) => Some(p@),
            None => None,
        }
    }

    /// The pattern that the check for braces looks for.
    pub closed spec fn braces(&self) -> Seq<char> {
        self.braces@
    }

    /// The pattern that the check for the command line looks for.
    pub closed spec fn cmd_line(&self) -> Seq<char> {
        self.cmd_line@
    }

    /// The two fixed checks look for the two fixed patterns.
    #[verifier::type_invariant]
    pub open spec fn inv(&self) -> bool {
        self.braces() == braces_pattern() && self.cmd_line() == cmd_line_pattern()
    }

    /// Whether the check turns the name `path` down: braces are in it and the
    /// allowlist for braces does not match it, or something awkward on a
    /// command line is in it and the allowlist for that does not match it.
    pub open spec fn rejects(&self, path: Seq<char>) -> bool {
        name_is_rejected(
            regex_matches(braces_pattern(), path),
            self.braces_allowlist() matches Some(p) && regex_matches(p, path),
            regex_matches(cmd_line_pattern(), path),
            self.cmd_line_allowlist() matches Some(p) && regex_matches(p, path),
        )
    }

    /// The verdict on a file name, from what the patterns found in it. Here
    /// `braces_allowed` and `cmd_line_allowed` say whether there is an
    /// allowlist for that pattern and it matches the name.
    pub fn judge(
        path: &str,
        braces_hit: bool,
        braces_allowed: bool,
        cmd_line_hit: bool,
        cmd_line_allowed: bool,
    ) -> (r: HookExecution)
        ensures
            name_is_rejected(braces_hit, braces_allowed, cmd_line_hit, cmd_line_allowed)
                ==> r.rejects_with(illegal_filename(), illegal_filename_message(path@)),
            !name_is_rejected(braces_hit, braces_allowed, cmd_line_hit, cmd_line_allowed) ==> r
                is Accepted,
    {
        if (braces_hit && !braces_allowed) || (cmd_line_hit && !cmd_line_allowed) {
            let mut message = String::from_str("ABORT: Illegal filename: ");
            message.append(path);
            HookExecution::Rejected(HookRejectionInfo::new_long("Illegal filename", message))
        } else {
            HookExecution::Accepted
        }
    }

    /// Judges the file at `path`. A file that the commit removes
    /// (`change_present` is false) is accepted unseen. Any other is turned
    /// down exactly where `rejects` says so.
    pub fn run(&self, change_present: bool, path: &str) -> (r: HookExecution)
        ensures
            !change_present ==> r is Accepted,
            change_present && self.rejects(path@) ==> r.rejects_with(
                illegal_filename(),
                illegal_filename_message(path@),
            ),
            change_present && !self.rejects(path@) ==> r is Accepted,
    {
        proof {
            use_type_invariant(self);
        }
        if !change_present {
            return HookExecution::Accepted;
        }
        let braces_hit = is_match(&self.braces, path);
        let braces_allowed = braces_hit && match &self.allowlist_for_braces {
            Some(allow) => is_match(allow, path),
            None => false,
        };
        if braces_hit && !braces_allowed {
            return NoQuestionableFilenames::judge(path, braces_hit, braces_allowed, false, false);
        }
        let cmd_line_hit = is_match(&self.cmd_line, path);
        let cmd_line_allowed = cmd_line_hit && match &self.allowlist_for_cmd_line {
            Some(allow) => is_match(allow, path),
            None => false,
        };
        NoQuestionableFilenames::judge(path, braces_hit, braces_allowed, cmd_line_hit, cmd_line_allowed)
    }
}

} // verus!
