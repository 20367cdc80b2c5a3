//! Ignore patterns, compiled and matched by the `globset` crate.
//!
//! The compiled matcher is opaque to verification, so the contracts speak
//! of it through two names: the pattern texts a matcher was built from, and
//! the matching relation on those texts. Everything stated of them is what
//! `globset` documents: compilation succeeds or fails on the pattern text
//! alone, a built set holds exactly the added patterns, and `is_match`
//! reports whether any pattern of the set matches the path.

use vstd::prelude::*;
use vstd::string::StringExecFns;

use crate::error::{AppError, AppResult};

verus! {

#[verifier::external_type_specification]
#[verifier::external_body]
pub struct ExGlob(globset::Glob);

#[verifier::external_type_specification]
#[verifier::external_body]
pub struct ExGlobSet(globset::GlobSet);

#[verifier::external_type_specification]
#[verifier::external_body]
pub struct ExGlobSetBuilder(globset::GlobSetBuilder);

/// The pattern text a compiled glob was made from.
pub uninterp spec fn glob_pattern(g: globset::Glob) -> Seq<char>;

/// Whether `globset::Glob::new` accepts a pattern text.
pub uninterp spec fn glob_ok(pattern: Seq<char>) -> bool;

/// The pattern texts a builder holds, in the order they were added.
pub uninterp spec fn builder_patterns(b: globset::GlobSetBuilder) -> Seq<Seq<char>>;

/// The pattern texts a built set was made from.
pub uninterp spec fn globset_patterns(s: globset::GlobSet) -> Seq<Seq<char>>;

/// Whether `GlobSetBuilder::build` succeeds on these patterns.
pub uninterp spec fn globset_buildable(patterns: Seq<Seq<char>>) -> bool;

/// Whether any of the patterns matches the path, as `GlobSet::is_match`
/// decides it.
pub uninterp spec fn globset_matches(patterns: Seq<Seq<char>>, path: Seq<char>) -> bool;

/// Relies on globset::Glob::new: compiling a pattern, which succeeds or
/// fails on the pattern text alone.
#[verifier::external_body]
pub(crate) fn glob_new(pattern: &str) -> (r: Option<globset::Glob>)
    ensures
        r is Some <==> glob_ok(pattern@),
        r is Some ==> glob_pattern(r->0) == pattern@,
{
    globset::Glob::new(pattern).ok()
}

/// Relies on globset::GlobSetBuilder::new: a fresh builder holds no
/// patterns.
#[verifier::external_body]
fn globset_builder_new() -> (r: globset::GlobSetBuilder)
    ensures
        builder_patterns(r) == Seq::<Seq<char>>::empty(),
{
    globset::GlobSetBuilder::new()
}

/// Relies on globset::GlobSetBuilder::add: the glob is appended to the
/// builder's patterns.
#[verifier::external_body]
fn globset_builder_add(b: &mut globset::GlobSetBuilder, g: globset::Glob)
    ensures
        builder_patterns(*final(b)) == builder_patterns(*old(b)).push(glob_pattern(g)),
{
    b.add(g);
}

/// Relies on globset::GlobSetBuilder::build: on success the set holds
/// exactly the builder's patterns; success depends on the patterns alone.
#[verifier::external_body]
fn globset_build(b: &globset::GlobSetBuilder) -> (r: Option<globset::GlobSet>)
    ensures
        r is Some <==> globset_buildable(builder_patterns(*b)),
        r is Some ==> globset_patterns(r->0) == builder_patterns(*b),
{
    b.build().ok()
}

/// Relies on globset::GlobSet::is_match: whether any pattern of the set
/// matches the path, a function of the patterns and the path alone.
#[verifier::external_body]
pub(crate) fn globset_is_match(s: &globset::GlobSet, path: &str) -> (r: bool)
    ensures
        r == globset_matches(globset_patterns(*s), path@),
{
    s.is_match(path)
}

/// Compiles the configured ignore patterns into one matcher, or `None` when
/// there are none.
///
/// Returns a `Config` error exactly when a pattern does not compile or the
/// set cannot be built from the compiled patterns.
pub fn build_ignore_set(patterns: &Vec<String>) -> (r: AppResult<Option<globset::GlobSet>>)
    ensures
        r is Ok <==> (patterns@.len() == 0 || ((forall|i: int|
            0 <= i < patterns@.len() ==> glob_ok(#[trigger] patterns.deep_view()[i]))
            && globset_buildable(patterns.deep_view()))),
        r is Ok ==> (r->Ok_0 is Some <==> patterns@.len() > 0),
        r is Ok && patterns@.len() > 0 ==> globset_patterns(r->Ok_0->0) == patterns.deep_view(),
        r is Err ==> r->Err_0 is Config,
{
    if patterns.len() == 0 {
        return Ok(None);
    }
    let ghost pats = patterns.deep_view();
    let mut builder = globset_builder_new();
    proof {
        assert(builder_patterns(builder) =~= pats.take(0));
    }
    let mut i: usize = 0;
    while i < patterns.len()
        invariant
            0 <= i <= patterns@.len(),
            pats == patterns.deep_view(),
            pats.len() == patterns@.len(),
            builder_patterns(builder) == pats.take(i as int),
            forall|k: int| 0 <= k < i ==> glob_ok(#[trigger] pats[k]),
        decreases patterns@.len() - i,
    {
        proof {
            assert(pats[i as int] == patterns@[i as int]@);
        }
        match glob_new(patterns[i].as_str()) {
            Some(g) => {
                globset_builder_add(&mut builder, g);
                proof {
                    assert(pats.take(i + 1) =~= pats.take(i as int).push(pats[i as int]));
                }
            },
            None => {
                let mut message = String::from_str("invalid ignore pattern: ");
                message.append(patterns[i].as_str());
                return Err(
                    AppError::config(message, Some(String::from_str("check the glob syntax"))),
                );
            },
        }
        i = i + 1;
    }
    proof {
        assert(pats.take(patterns@.len() as int) =~= pats);
    }
    match globset_build(&builder) {
        Some(set) => Ok(Some(set)),
        None => Err(
            AppError::config(
                String::from_str("failed to build ignore patterns"),
                Some(String::from_str("check the glob patterns")),
            ),
        ),
    }
}

} // verus!
