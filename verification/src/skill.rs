//! Validation of skill identifiers.
//!
//! A skill is identified by its directory name, which must be a single,
//! non-blank path component: no `/` separator and neither `.` nor `..`.
//! Validation runs before any filesystem path is built from the id.

use vstd::prelude::*;
use vstd::string::StringExecFns;

use crate::error::{AppError, AppResult};

verus! {

/// The characters treated as blank: the Unicode White_Space set, as removed
/// by `str::trim`.
pub open spec fn is_space_char(c: char) -> bool {
    let u = c as u32;
    ||| u == 0x09
    ||| u == 0x0A
    ||| u == 0x0B
    ||| u == 0x0C
    ||| u == 0x0D
    ||| u == 0x20
    ||| u == 0x85
    ||| u == 0xA0
    ||| u == 0x1680
    ||| (0x2000 <= u && u <= 0x200A)
    ||| u == 0x2028
    ||| u == 0x2029
    ||| u == 0x202F
    ||| u == 0x205F
    ||| u == 0x3000
}

pub open spec fn all_space(s: Seq<char>) -> bool {
    forall|i: int| 0 <= i < s.len() ==> is_space_char(s[i])
}

/// A valid skill id: not entirely blank, free of `/`, and not a relative
/// directory reference.
pub open spec fn valid_skill_id(s: Seq<char>) -> bool {
    &&& !all_space(s)
    &&& (forall|i: int| 0 <= i < s.len() ==> s[i] != '/')
    &&& s != seq!['.']
    &&& s != seq!['.', '.']
}

fn is_space(c: char) -> (r: bool)
    ensures
        r == is_space_char(c),
{
    let u = c as u32;
    u == 0x09 || u == 0x0A || u == 0x0B || u == 0x0C || u == 0x0D || u == 0x20 || u == 0x85
        || u == 0xA0 || u == 0x1680 || (0x2000 <= u && u <= 0x200A) || u == 0x2028 || u == 0x2029
        || u == 0x202F || u == 0x205F || u == 0x3000
}

/// Checks that `skill` can safely name a skill directory.
///
/// Returns a `Config` error exactly when the id is blank or is not a single
/// path component.
pub fn validate_skill_id(skill: &str) -> (r: AppResult<()>)
    ensures
        r is Ok <==> valid_skill_id(skill@),
        r is Err ==> r->Err_0 is Config,
{
    let n = skill.unicode_len();
    let mut i: usize = 0;
    let mut blank = true;
    let mut has_sep = false;
    while i < n
        invariant
            0 <= i <= n,
            n == skill@.len(),
            blank <==> all_space(skill@.take(i as int)),
            has_sep <==> exists|j: int| 0 <= j < i && skill@[j] == '/',
        decreases n - i,
    {
        let c = skill.get_char(i);
        if !is_space(c) {
            blank = false;
        }
        if c == '/' {
            has_sep = true;
        }
        proof {
            assert(skill@.take(i + 1).drop_last() =~= skill@.take(i as int));
            assert(skill@.take(i + 1).last() == skill@[i as int]);
            if !is_space_char(skill@[i as int]) {
                assert(!all_space(skill@.take(i + 1)));
            } else if all_space(skill@.take(i as int)) {
                assert forall|k: int| 0 <= k < i + 1 implies is_space_char(
                    #[trigger] skill@.take(i + 1)[k],
                ) by {
                    if k < i {
                        assert(skill@.take(i + 1)[k] == skill@.take(i as int)[k]);
                    }
                }
            } else {
                let w = choose|k: int| 0 <= k < i && !is_space_char(skill@.take(i as int)[k]);
                assert(!is_space_char(skill@.take(i + 1)[w]));
            }
        }
        i = i + 1;
    }
    proof {
        assert(skill@.take(n as int) =~= skill@);
    }
    if blank {
        return Err(
            AppError::config(
                String::from_str("skill id is empty"),
                Some(String::from_str("provide a skill name")),
            ),
        );
    }
    let dot = n == 1 && skill.get_char(0) == '.';
    let dotdot = n == 2 && skill.get_char(0) == '.' && skill.get_char(1) == '.';
    proof {
        if n == 1 && skill@[0] == '.' {
            assert(skill@ =~= seq!['.']);
        }
        if n == 2 && skill@[0] == '.' && skill@[1] == '.' {
            assert(skill@ =~= seq!['.', '.']);
        }
    }
    if has_sep || dot || dotdot {
        Err(
            AppError::config(
                String::from_str("skill id is not a single directory name"),
                Some(String::from_str("use a directory name only")),
            ),
        )
    } else {
        Ok(())
    }
}

/// True when the string holds nothing but blank characters.
pub fn str_is_blank(s: &str) -> (r: bool)
    ensures
        r == all_space(s@),
{
    let n = s.unicode_len();
    let mut i: usize = 0;
    while i < n
        invariant
            0 <= i <= n,
            n == s@.len(),
            forall|k: int| 0 <= k < i ==> is_space_char(s@[k]),
        decreases n - i,
    {
        if !is_space(s.get_char(i)) {
            return false;
        }
        i = i + 1;
    }
    true
}

} // verus!
