//! The configuration that drives every synchronization run.
//!
//! A configuration names one global root, one or more targets, the hash
//! algorithm with its ignore patterns, and the external diff command.
//! Loading and path expansion happen outside the library; the checks that
//! make a loaded configuration usable are here, stated exactly: a non-empty
//! diff command holding both placeholders, compilable ignore patterns, and
//! non-blank, unique target names.

use vstd::prelude::*;
use vstd::string::StringExecFns;

use crate::error::{AppError, AppResult};
use crate::globs::{glob_new, glob_ok};
use crate::skill::all_space;
use crate::skill::str_is_blank;
use crate::text::{contains_sub, str_contains, str_eq};

verus! {

#[derive(Debug, Clone)]
pub struct Config {
    pub global_root: String,
    pub targets: Vec<Target>,
    pub hash: HashConfig,
    pub diff: DiffConfig,
}

#[derive(Debug, Clone)]
pub struct Target {
    pub name: String,
    pub root: String,
}

#[derive(Debug, Clone)]
pub struct HashConfig {
    pub algo: HashAlgo,
    pub ignore: Vec<String>,
}

#[derive(Debug, Clone, Copy, PartialEq, Eq, Structural)]
pub enum HashAlgo {
    Blake3,
    Sha256,
}

#[derive(Debug, Clone)]
pub struct DiffConfig {
    pub command: Vec<String>,
}

impl Default for HashAlgo {
    fn default() -> (r: Self)
        ensures
            r == HashAlgo::Blake3,
    {
        HashAlgo::Blake3
    }
}

impl Default for HashConfig {
    fn default() -> (r: Self)
        ensures
            r.algo == HashAlgo::Blake3,
            r.ignore@.len() == 0,
    {
        HashConfig { algo: HashAlgo::Blake3, ignore: Vec::new() }
    }
}

/// The placeholder replaced by the global-side path of a diff.
pub open spec fn left_marker() -> Seq<char> {
    seq!['{', 'l', 'e', 'f', 't', '}']
}

/// The placeholder replaced by the target-side path of a diff.
pub open spec fn right_marker() -> Seq<char> {
    seq!['{', 'r', 'i', 'g', 'h', 't', '}']
}

/// The diff command run when the configuration names none.
pub fn default_diff_command() -> (r: Vec<String>)
    ensures
        r@.len() == 6,
        r@[0]@ == "git"@,
        r@[1]@ == "diff"@,
        r@[2]@ == "--no-index"@,
        r@[3]@ == "--"@,
        r@[4]@ == "{left}"@,
        r@[5]@ == "{right}"@,
{
    let mut cmd: Vec<String> = Vec::new();
    cmd.push(String::from_str("git"));
    cmd.push(String::from_str("diff"));
    cmd.push(String::from_str("--no-index"));
    cmd.push(String::from_str("--"));
    cmd.push(String::from_str("{left}"));
    cmd.push(String::from_str("{right}"));
    cmd
}

impl Default for DiffConfig {
    fn default() -> (r: Self)
        ensures
            r.command@.len() == 6,
            r.command@[4]@ == "{left}"@,
            r.command@[5]@ == "{right}"@,
    {
        DiffConfig { command: default_diff_command() }
    }
}

/// A usable diff command: non-empty, with both path placeholders somewhere
/// among its arguments.
pub open spec fn diff_command_ok(cmd: Seq<Seq<char>>) -> bool {
    &&& cmd.len() > 0
    &&& (exists|i: int| 0 <= i < cmd.len() && contains_sub(#[trigger] cmd[i], left_marker()))
    &&& (exists|i: int| 0 <= i < cmd.len() && contains_sub(#[trigger] cmd[i], right_marker()))
}

/// The index of the first target with this name, or the target count if
/// none has it.
pub open spec fn target_idx(targets: Seq<Target>, name: Seq<char>) -> int
    decreases targets.len(),
{
    if targets.len() == 0 {
        0
    } else if targets[0].name@ == name {
        0
    } else {
        1 + target_idx(targets.drop_first(), name)
    }
}

proof fn lemma_target_idx(targets: Seq<Target>, name: Seq<char>)
    ensures
        0 <= target_idx(targets, name) <= targets.len(),
        forall|k: int| 0 <= k < target_idx(targets, name) ==> targets[k].name@ != name,
        target_idx(targets, name) < targets.len() ==> targets[target_idx(targets, name)].name@
            == name,
    decreases targets.len(),
{
    if targets.len() > 0 && targets[0].name@ != name {
        lemma_target_idx(targets.drop_first(), name);
        assert forall|k: int| 0 <= k < target_idx(targets, name) implies targets[k].name@
            != name by {
            if k > 0 {
                assert(targets.drop_first()[k - 1] == targets[k]);
            }
        }
    }
}

impl Config {
    /// The conditions under which this configuration is accepted.
    pub open spec fn valid_spec(self) -> bool {
        &&& diff_command_ok(self.diff.command.deep_view())
        &&& (forall|i: int|
            0 <= i < self.hash.ignore@.len() ==> glob_ok(#[trigger] self.hash.ignore.deep_view()[i]))
        &&& self.targets@.len() > 0
        &&& (forall|i: int| 0 <= i < self.targets@.len() ==> !all_space(#[trigger] self.targets@[i].name@))
        &&& (forall|i: int, j: int|
            0 <= i < j < self.targets@.len() ==> self.targets@[i].name@ != self.targets@[j].name@)
    }

    /// Finds the first target with this name.
    ///
    /// Returns a `Config` error exactly when no target has the name.
    pub fn target_by_name<'a>(&'a self, name: &str) -> (r: AppResult<&'a Target>)
        ensures
            r is Ok <==> target_idx(self.targets@, name@) < self.targets@.len(),
            r is Ok ==> *r->Ok_0 == self.targets@[target_idx(self.targets@, name@)],
            r is Err ==> r->Err_0 is Config,
    {
        proof {
            lemma_target_idx(self.targets@, name@);
        }
        let n = self.targets.len();
        let mut i: usize = 0;
        while i < n
            invariant
                0 <= i <= n,
                n == self.targets@.len(),
                forall|k: int| 0 <= k < i ==> self.targets@[k].name@ != name@,
            decreases n - i,
        {
            if str_eq(self.targets[i].name.as_str(), name) {
                proof {
                    lemma_target_idx(self.targets@, name@);
                    if target_idx(self.targets@, name@) < i {
                        assert(self.targets@[target_idx(self.targets@, name@)].name@ == name@);
                    }
                    assert(i == target_idx(self.targets@, name@));
                }
                return Ok(&self.targets[i]);
            }
            i = i + 1;
        }
        let mut message = String::from_str("target not found: ");
        message.append(name);
        Err(
            AppError::config(
                message,
                Some(String::from_str("run targets to see the available names")),
            ),
        )
    }

    /// Checks the loaded configuration.
    ///
    /// Returns a `Config` error exactly when the diff command is unusable,
    /// an ignore pattern does not compile, no target is configured, or a
    /// target name is blank or repeated.
    pub fn validate(&self) -> (r: AppResult<()>)
        ensures
            r is Ok <==> self.valid_spec(),
            r is Err ==> r->Err_0 is Config,
    {
        let ghost cmd = self.diff.command.deep_view();
        let ncmd = self.diff.command.len();
        if ncmd == 0 {
            return Err(
                AppError::config(
                    String::from_str("diff.command is empty"),
                    Some(String::from_str("set diff.command in the configuration")),
                ),
            );
        }
        let mut has_left = false;
        let mut has_right = false;
        let mut i: usize = 0;
        while i < ncmd
            invariant
                0 <= i <= ncmd,
                ncmd == cmd.len(),
                cmd == self.diff.command.deep_view(),
                has_left <==> exists|k: int|
                    0 <= k < i && contains_sub(#[trigger] cmd[k], left_marker()),
                has_right <==> exists|k: int|
                    0 <= k < i && contains_sub(#[trigger] cmd[k], right_marker()),
            decreases ncmd - i,
        {
            proof {
                reveal_strlit("{left}");
                reveal_strlit("{right}");
                assert("{left}"@ =~= left_marker());
                assert("{right}"@ =~= right_marker());
                assert(cmd[i as int] == self.diff.command@[i as int]@);
            }
            if str_contains(self.diff.command[i].as_str(), "{left}") {
                has_left = true;
            }
            if str_contains(self.diff.command[i].as_str(), "{right}") {
                has_right = true;
            }
            i = i + 1;
        }
        if !has_left || !has_right {
            return Err(
                AppError::config(
                    String::from_str("diff.command must include {left} and {right}"),
                    Some(String::from_str("include both placeholders in diff.command")),
                ),
            );
        }
        let ghost pats = self.hash.ignore.deep_view();
        let npat = self.hash.ignore.len();
        let mut p: usize = 0;
        while p < npat
            invariant
                0 <= p <= npat,
                npat == pats.len(),
                pats == self.hash.ignore.deep_view(),
                forall|k: int| 0 <= k < p ==> glob_ok(#[trigger] pats[k]),
            decreases npat - p,
        {
            proof {
                assert(pats[p as int] == self.hash.ignore@[p as int]@);
            }
            if glob_new(self.hash.ignore[p].as_str()).is_none() {
                let mut message = String::from_str("invalid ignore pattern: ");
                message.append(self.hash.ignore[p].as_str());
                return Err(
                    AppError::config(message, Some(String::from_str("check the glob syntax"))),
                );
            }
            p = p + 1;
        }
        let ntar = self.targets.len();
        if ntar == 0 {
            return Err(
                AppError::config(
                    String::from_str("targets is empty"),
                    Some(String::from_str("add targets to the configuration")),
                ),
            );
        }
        let mut t: usize = 0;
        while t < ntar
            invariant
                0 <= t <= ntar,
                ntar == self.targets@.len(),
                forall|k: int| 0 <= k < t ==> !all_space(#[trigger] self.targets@[k].name@),
                forall|k: int, l: int|
                    0 <= k < l < t ==> self.targets@[k].name@ != self.targets@[l].name@,
            decreases ntar - t,
        {
            if str_is_blank(self.targets[t].name.as_str()) {
                return Err(
                    AppError::config(
                        String::from_str("targets.name is empty"),
                        Some(String::from_str("set a unique name for each target")),
                    ),
                );
            }
            let mut u: usize = 0;
            while u < t
                invariant
                    0 <= u <= t < ntar,
                    ntar == self.targets@.len(),
                    forall|k: int| 0 <= k < u ==> self.targets@[k].name@ != self.targets@[t as int].name@,
                decreases t - u,
            {
                if self.targets[u].name == self.targets[t].name {
                    let mut message = String::from_str("targets.name is repeated: ");
                    message.append(self.targets[t].name.as_str());
                    return Err(
                        AppError::config(
                            message,
                            Some(String::from_str("target names must be unique")),
                        ),
                    );
                }
                u = u + 1;
            }
            proof {
                assert forall|k: int, l: int|
                    0 <= k < l < t + 1 implies self.targets@[k].name@
                    != self.targets@[l].name@ by {
                    if l == t as int {
                        assert(self.targets@[k].name@ != self.targets@[t as int].name@);
                    }
                }
            }
            t = t + 1;
        }
        Ok(())
    }
}

} // verus!
