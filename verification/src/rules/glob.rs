//! Glob patterns of path conditions, compiled and matched by the globset crate.

use vstd::prelude::*;

verus! {

/// Whether globset compiles `pattern` (`globset::Glob::new` succeeds).
pub uninterp spec fn glob_parses(pattern: Seq<char>) -> bool;

/// The message globset gives for a pattern it cannot compile.
pub uninterp spec fn glob_error_text(pattern: Seq<char>) -> Seq<char>;

/// Whether a glob set built from `pattern` alone matches `path`, for a path
/// without `\`; false where that set cannot be built.
pub uninterp spec fn glob_matches(pattern: Seq<char>, path: Seq<char>) -> bool;

/// Calls `globset::Glob::new(pattern)` and renders its error with `Display`.
/// The contract claims that the result is absent exactly when the pattern
/// compiles, and names the message: it depends on the pattern alone.
#[verifier::external_body]
pub fn glob_error(pattern: &str) -> (r: Option<String>)
    ensures
        r is None <==> glob_parses(pattern@),
        r matches Some(m) ==> m@ == glob_error_text(pattern@),
{
    globset::Glob::new(pattern).err().map(|e| e.to_string())
}

/// Whether a pattern is short enough for globset to build a matcher for it
/// without overflowing the state ids of its literal automata (fewer than
/// 2^27 characters, so fewer than 2^29 bytes; aho-corasick gives up near 2^31).
pub open spec fn glob_pattern_ok(pattern: Seq<char>) -> bool {
    pattern.len() < 0x0800_0000
}

/// Calls `globset::Glob::new(pattern)`, adds the glob to a `GlobSetBuilder`,
/// builds the set and asks `is_match(path)`. A pattern that does not parse, or
/// whose set cannot be built (its regex over the size limit), matches nothing;
/// `glob_matches` names the set's answer. globset turns `\` into `/` in the
/// path on platforms where `\` separates components, so the contract names
/// the match only for a path without `\`; for other paths it claims nothing
/// beyond the unparsable case. The set is built where `compile_matcher` would
/// panic on a regex over the size limit.
#[verifier::external_body]
pub fn glob_is_match(pattern: &str, path: &str) -> (r: bool)
    requires
        glob_pattern_ok(pattern@),
    ensures
        !glob_parses(pattern@) ==> !r,
        glob_parses(pattern@) && !path@.contains('\\') ==> r == glob_matches(pattern@, path@),
{
    match globset::Glob::new(pattern) {
        Ok(g) => {
            let mut builder = globset::GlobSetBuilder::new();
            builder.add(g);
            match builder.build() {
                Ok(set) => set.is_match(path),
                Err(_) => false,
            }
        },
        Err(_) => false,
    }
}

} // verus!
