//! Which files of a tree are scanned: a file passes when its name is in the include set, or
//! that set is empty, and its name is not in the exclude set.

use vstd::prelude::*;
use vstd::string::*;

verus! {

/// `globset::GlobSet`, a set of compiled glob patterns. Nothing of its inside is known here.
#[verifier::external_type_specification]
#[verifier::external_body]
pub struct ExGlobSet(globset::GlobSet);

/// `globset::Glob`, one parsed glob pattern.
#[verifier::external_type_specification]
#[verifier::external_body]
pub struct ExGlob(globset::Glob);

/// `globset::GlobSetBuilder`, the patterns gathered for a set.
#[verifier::external_type_specification]
#[verifier::external_body]
pub struct ExGlobSetBuilder(globset::GlobSetBuilder);

/// `globset::Error`, what globset says of a pattern that it refuses.
#[verifier::external_type_specification]
#[verifier::external_body]
pub struct ExGlobError(globset::Error);

/// The number of patterns in a set, which `GlobSet::len` gives.
pub uninterp spec fn glob_count(set: globset::GlobSet) -> nat;

/// The number of patterns that a builder has been given.
pub uninterp spec fn gathered_globs(builder: globset::GlobSetBuilder) -> nat;

/// Whether a set, as it was built, has a pattern that matches `name`: what `GlobSet::is_match`
/// answers. It is a matter of the set and the name alone. Nothing is said here of what a
/// pattern text matches, which globset reads by the platform's path separators.
pub uninterp spec fn set_accepts(set: globset::GlobSet, name: Seq<char>) -> bool;

/// A glob pattern that globset refused, with what it said.
#[derive(Clone, Debug, PartialEq, Eq)]
pub struct InvalidGlob {
    pub message: String,
}

/// `Glob::new`: parses one pattern. How a pattern is read depends on the platform's path
/// separators, so nothing is claimed of the outcome.
#[verifier::external_body]
fn parse_glob(pattern: &str) -> (parsed: Result<globset::Glob, globset::Error>) {
    globset::Glob::new(pattern)
}

/// `GlobSetBuilder::new`: a builder that has been given no pattern.
#[verifier::external_body]
fn empty_builder() -> (builder: globset::GlobSetBuilder)
    ensures
        gathered_globs(builder) == 0,
{
    globset::GlobSetBuilder::new()
}

/// `GlobSetBuilder::add`: the builder is given one more pattern.
#[verifier::external_body]
fn add_glob(builder: &mut globset::GlobSetBuilder, glob: globset::Glob)
    ensures
        gathered_globs(*final(builder)) == gathered_globs(*old(builder)) + 1,
{
    builder.add(glob);
}

/// `GlobSetBuilder::build`: a set of the patterns gathered. Without a pattern it succeeds,
/// with the empty set; a set that is built has as many patterns as were gathered.
#[verifier::external_body]
fn build_set(builder: &globset::GlobSetBuilder) -> (built: Result<globset::GlobSet, globset::Error>)
    ensures
        gathered_globs(*builder) == 0 ==> built is Ok,
        built matches Ok(set) ==> glob_count(set) == gathered_globs(*builder),
{
    builder.build()
}

/// `GlobSet::is_empty`: whether the set has no pattern.
#[verifier::external_body]
fn set_is_empty(set: &globset::GlobSet) -> (empty: bool)
    ensures
        empty == (glob_count(*set) == 0),
{
    set.is_empty()
}

/// `GlobSet::is_match`: whether a pattern of the set matches the name, which the set and the
/// name decide. An empty set matches nothing.
#[verifier::external_body]
fn set_matches(set: &globset::GlobSet, name: &str) -> (matched: bool)
    ensures
        matched == set_accepts(*set, name@),
        glob_count(*set) == 0 ==> !matched,
{
    set.is_match(name)
}

/// The `Display` text of a `globset::Error`. Nothing is claimed of it.
#[verifier::external_body]
fn glob_error_text(error: &globset::Error) -> (text: String) {
    error.to_string()
}

/// What parsing one pattern gave, with globset's error turned into the library's.
pub fn keep_glob(parsed: Result<globset::Glob, globset::Error>) -> (kept: Result<
    globset::Glob,
    InvalidGlob,
>)
    ensures
        kept is Ok <==> parsed is Ok,
        kept matches Ok(glob) ==> parsed == Ok::<globset::Glob, globset::Error>(glob),
{
    match parsed {
        Ok(glob) => Ok(glob),
        Err(error) => Err(InvalidGlob { message: glob_error_text(&error) }),
    }
}

/// Compiles `patterns` into one set. The first pattern that globset refuses ends the work
/// with its error; no pattern at all gives the empty set.
pub fn compile_globs(patterns: &[String]) -> (compiled: Result<globset::GlobSet, InvalidGlob>)
    ensures
        patterns@.len() == 0 ==> compiled is Ok,
        compiled matches Ok(set) ==> glob_count(set) == patterns@.len(),
{
    let mut builder = empty_builder();
    let mut i: usize = 0;
    while i < patterns.len()
        invariant
            i <= patterns@.len(),
            gathered_globs(builder) == i,
        decreases patterns@.len() - i,
    {
        match keep_glob(parse_glob(patterns[i].as_str())) {
            Ok(glob) => add_glob(&mut builder, glob),
            Err(error) => {
                return Err(error);
            },
        }
        i = i + 1;
    }
    match build_set(&builder) {
        Ok(set) => Ok(set),
        Err(error) => Err(InvalidGlob { message: glob_error_text(&error) }),
    }
}

/// The rule, given what a file's name met in the two sets: it is in the include set, or that
/// set is empty, and it is not in the exclude set.
pub fn passes_filters(include_is_empty: bool, included: bool, excluded: bool) -> (scanned: bool)
    ensures
        scanned == ((include_is_empty || included) && !excluded),
{
    (include_is_empty || included) && !excluded
}

/// A file called `name` passes the two sets: the include set has no pattern or accepts the
/// name, and the exclude set does not accept it.
pub open spec fn file_passes(name: Seq<char>, includes: globset::GlobSet, excludes: globset::GlobSet) -> bool {
    (glob_count(includes) == 0 || set_accepts(includes, name)) && !set_accepts(excludes, name)
}

/// Whether the file called `file_name` is scanned: whether it passes the two sets. Without
/// any pattern every file does.
pub fn should_process_file(file_name: &str, includes: &globset::GlobSet, excludes: &globset::GlobSet) -> (scanned:
    bool)
    ensures
        scanned == file_passes(file_name@, *includes, *excludes),
        glob_count(*includes) == 0 && glob_count(*excludes) == 0 ==> scanned,
{
    let include_is_empty: bool = set_is_empty(includes);
    let included: bool = set_matches(includes, file_name);
    let excluded: bool = set_matches(excludes, file_name);
    passes_filters(include_is_empty, included, excluded)
}

} // verus!
