//! Path texts: the suffix test behind the extension filter, and the pattern
//! that asks the enumerator for everything under a root directory.

use vstd::prelude::*;
use vstd::string::StringExecFns;

verus! {

/// Tests whether `text` ends with `suffix`.
///
/// Trusted: calls `str::ends_with` of std with a string pattern, which is
/// documented to return true exactly when the pattern matches a suffix of the
/// string slice. The contract says the same over the two texts.
#[verifier::external_body]
pub(crate) fn ends_with(text: &str, suffix: &str) -> (yes: bool)
    ensures
        yes == suffix@.is_suffix_of(text@),
{
    text.ends_with(suffix)
}

/// The recursive traversal pattern for a root directory: the directory,
/// a separator unless the directory already ends with `/` or `\`, and `**/*`.
pub open spec fn traversal_pattern(directory: Seq<char>) -> Seq<char> {
    if seq!['/'].is_suffix_of(directory) || seq!['\\'].is_suffix_of(directory) {
        directory + seq!['*', '*', '/', '*']
    } else {
        directory + seq!['/', '*', '*', '/', '*']
    }
}

/// Builds the pattern that enumerates every entry below `directory`.
pub fn root_glob_pattern(directory: &str) -> (pattern: String)
    ensures
        pattern@ == traversal_pattern(directory@),
{
    proof {
        reveal_strlit("/");
        reveal_strlit("\\");
        reveal_strlit("**/*");
        reveal_strlit("/**/*");
    }
    assert("/"@ =~= seq!['/']);
    assert("\\"@ =~= seq!['\\']);
    assert("**/*"@ =~= seq!['*', '*', '/', '*']);
    assert("/**/*"@ =~= seq!['/', '*', '*', '/', '*']);
    let mut pattern = directory.to_string();
    if ends_with(directory, "/") || ends_with(directory, "\\") {
        pattern.append("**/*");
    } else {
        pattern.append("/**/*");
    }
    pattern
}

} // verus!
