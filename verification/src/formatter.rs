//! Configurable, display-only branch formatting with fancy_regex patterns.
use vstd::prelude::*;

use crate::json::{Json, JsonV};
use crate::text::{chars_of, string_from_chars, trim, trim_chars};

verus! {

#[verifier::external_type_specification]
#[verifier::external_body]
pub struct ExRegex(fancy_regex::Regex);

/// The backtracking limit that fancy_regex gives a regex built with
/// `Regex::new` (its `RegexOptions` default).
pub const DEFAULT_BACKTRACK_LIMIT: usize = 1_000_000;

/// fancy_regex's error message for a pattern that it cannot compile, `None`
/// for one that it compiles (all options but the backtracking limit at their
/// defaults; that limit plays no part in compiling).
pub uninterp spec fn regex_compile_error(pattern: Seq<char>) -> Option<Seq<char>>;

/// What `Regex::try_replacen(text, 1, replacement)` gives for the regex
/// compiled from `pattern` with the backtracking limit `backtrack_limit`:
/// the text with its first match replaced, or the runtime error's message.
pub uninterp spec fn regex_replace_first(
    pattern: Seq<char>,
    backtrack_limit: nat,
    text: Seq<char>,
    replacement: Seq<char>,
) -> Result<Seq<char>, Seq<char>>;

/// A regex compiled by fancy_regex, with the pattern and backtracking limit
/// it was compiled from.
#[derive(Debug)]
pub struct CompiledPattern {
    regex: fancy_regex::Regex,
    pattern: String,
    backtrack_limit: usize,
}

impl CompiledPattern {
    /// The pattern the regex was compiled from.
    pub closed spec fn pattern_text(&self) -> Seq<char> {
        self.pattern@
    }

    /// The backtracking limit the regex was compiled with.
    pub closed spec fn limit(&self) -> nat {
        self.backtrack_limit as nat
    }

    /// Compiles `pattern` with the given backtracking limit.
    pub fn with_backtrack_limit(pattern: &str, backtrack_limit: usize) -> (r: Result<
        CompiledPattern,
        String,
    >)
        ensures
            match r {
                Ok(c) => regex_compile_error(pattern@) is None && c.pattern_text() == pattern@
                    && c.limit() == backtrack_limit,
                Err(e) => regex_compile_error(pattern@) == Some(e@),
            },
    {
        compile_pattern(pattern, backtrack_limit)
    }
}

/// Builds a regex with `RegexBuilder::new(pattern).backtrack_limit(limit).build()`
/// and keeps the pattern and the limit beside it. The contract claims that
/// the build fails exactly when `regex_compile_error` names a message, and
/// then with that message (the error's `to_string`).
#[verifier::external_body]
fn compile_pattern(pattern: &str, backtrack_limit: usize) -> (r: Result<CompiledPattern, String>)
    ensures
        match r {
            Ok(c) => regex_compile_error(pattern@) is None && c.pattern@ == pattern@
                && c.backtrack_limit == backtrack_limit,
            Err(e) => regex_compile_error(pattern@) == Some(e@),
        },
{
    match fancy_regex::RegexBuilder::new(pattern).backtrack_limit(backtrack_limit).build() {
        Ok(regex) => Ok(CompiledPattern { regex, pattern: pattern.to_owned(), backtrack_limit }),
        Err(error) => Err(error.to_string()),
    }
}

/// Calls `Regex::try_replacen(text, 1, replacement)` on the compiled regex.
/// The contract claims that the outcome is `regex_replace_first` of the
/// regex's pattern and limit, the text and the replacement (an error turned
/// into its `to_string`).
#[verifier::external_body]
fn replace_first(compiled: &CompiledPattern, text: &str, replacement: &str) -> (r: Result<
    String,
    String,
>)
    ensures
        match r {
            Ok(s) => regex_replace_first(
                compiled.pattern@,
                compiled.backtrack_limit as nat,
                text@,
                replacement@,
            ) == Ok::<Seq<char>, Seq<char>>(s@),
            Err(e) => regex_replace_first(
                compiled.pattern@,
                compiled.backtrack_limit as nat,
                text@,
                replacement@,
            ) == Err::<Seq<char>, Seq<char>>(e@),
        },
{
    match compiled.regex.try_replacen(text, 1, replacement) {
        Ok(replaced) => Ok(replaced.into_owned()),
        Err(error) => Err(error.to_string()),
    }
}

/// What a formatter does: its pattern (with its backtracking limit), if any,
/// and its replacement text.
pub struct FormatterView {
    pub pattern: Option<(Seq<char>, nat)>,
    pub replacement: Seq<char>,
}

/// Formats branch names for display with an optional regex replacement.
#[derive(Debug)]
pub struct Formatter {
    regex: Option<CompiledPattern>,
    replacement: String,
}

impl View for Formatter {
    type V = FormatterView;

    closed spec fn view(&self) -> FormatterView {
        FormatterView {
            pattern: match self.regex {
                Some(c) => Some((c.pattern@, c.backtrack_limit as nat)),
                None => None,
            },
            replacement: self.replacement@,
        }
    }
}

/// The message for a configuration that is not an object of the two keys.
pub open spec fn config_shape_message() -> Seq<char> {
    "config.json accepts only pattern and replacement"@
}

/// The message for a replacement that is not a string.
pub open spec fn replacement_type_message() -> Seq<char> {
    "replacement must be a string"@
}

/// The message for a pattern that is neither a string nor null.
pub open spec fn pattern_type_message() -> Seq<char> {
    "pattern must be a string or null"@
}

/// Whether an object has a key other than `pattern` and `replacement`.
pub open spec fn has_unknown_key(entries: Seq<(Seq<char>, JsonV)>) -> bool {
    exists|i: int|
        0 <= i < entries.len() && (#[trigger] entries[i]).0 != "pattern"@ && entries[i].0
            != "replacement"@
}

/// The formatter that a configuration describes, or the message of the
/// first problem with it: not an object or an unknown key; a replacement
/// that is not a string; a pattern that is neither a string nor null, or
/// that does not compile. A missing replacement is empty; a missing or null
/// pattern leaves branches as they are.
pub open spec fn formatter_from_config(config: JsonV) -> Result<FormatterView, Seq<char>> {
    match config {
        JsonV::Object(entries) => if has_unknown_key(entries) {
            Err(config_shape_message())
        } else {
            let replacement = match config.get("replacement"@) {
                None => Ok(Seq::<char>::empty()),
                Some(JsonV::Str(r)) => Ok(r),
                Some(_) => Err(replacement_type_message()),
            };
            match replacement {
                Err(e) => Err(e),
                Ok(r) => match config.get("pattern"@) {
                    None => Ok(FormatterView { pattern: None, replacement: r }),
                    Some(JsonV::Null) => Ok(FormatterView { pattern: None, replacement: r }),
                    Some(JsonV::Str(p)) => match regex_compile_error(p) {
                        Some(message) => Err(message),
                        None => Ok(
                            FormatterView {
                                pattern: Some((p, DEFAULT_BACKTRACK_LIMIT as nat)),
                                replacement: r,
                            },
                        ),
                    },
                    Some(_) => Err(pattern_type_message()),
                },
            }
        },
        _ => Err(config_shape_message()),
    }
}

/// The label for `branch` once the regex replacement gave `replaced`: its
/// error as it is; otherwise the replaced text trimmed, or `branch` itself
/// where that leaves nothing.
pub open spec fn settle_spec(branch: Seq<char>, replaced: Result<Seq<char>, Seq<char>>) -> Result<
    Seq<char>,
    Seq<char>,
> {
    match replaced {
        Err(e) => Err(e),
        Ok(r) => if trim(r).len() == 0 {
            Ok(branch)
        } else {
            Ok(trim(r))
        },
    }
}

/// What a formatter makes of `branch`: the branch unchanged without a
/// pattern; otherwise the first match replaced, trimmed, and the branch
/// kept where that leaves nothing.
pub open spec fn format_spec(f: FormatterView, branch: Seq<char>) -> Result<Seq<char>, Seq<char>> {
    match f.pattern {
        None => Ok(branch),
        Some((p, limit)) => settle_spec(
            branch,
            regex_replace_first(p, limit, branch, f.replacement),
        ),
    }
}

/// A string's result's model.
pub open spec fn result_view(r: Result<String, String>) -> Result<Seq<char>, Seq<char>> {
    match r {
        Ok(s) => Ok(s@),
        Err(e) => Err(e@),
    }
}

/// The label for `branch` once the regex replacement gave `replaced`.
pub fn settle_replacement(branch: &str, replaced: Result<String, String>) -> (r: Result<
    String,
    String,
>)
    ensures
        result_view(r) == settle_spec(branch@, result_view(replaced)),
{
    match replaced {
        Err(e) => Err(e),
        Ok(text) => {
            let chars = chars_of(text.as_str());
            let trimmed = trim_chars(&chars);
            if trimmed.len() == 0 {
                Ok(branch.to_owned())
            } else {
                Ok(string_from_chars(trimmed))
            }
        },
    }
}

fn message(text: &str) -> (s: String)
    ensures
        s@ == text@,
{
    text.to_owned()
}

impl Formatter {
    /// The formatter of a configuration, checked as [`formatter_from_config`] says.
    pub fn new(config: &Json) -> (r: Result<Formatter, String>)
        ensures
            match r {
                Ok(f) => formatter_from_config(config@) == Ok::<FormatterView, Seq<char>>(f@),
                Err(e) => formatter_from_config(config@) == Err::<FormatterView, Seq<char>>(e@),
            },
    {
        let entries = match config {
            Json::Object(entries) => entries,
            _ => {
                return Err(message("config.json accepts only pattern and replacement"));
            },
        };
        let ghost ev = crate::json::entries_view(entries@);
        proof {
            crate::json::lemma_entries_view(entries@);
        }
        let n = entries.len();
        let mut i: usize = 0;
        while i < n
            invariant
                i <= n,
                n == entries@.len(),
                ev == crate::json::entries_view(entries@),
                ev.len() == n,
                config@ == JsonV::Object(ev),
                forall|k: int|
                    0 <= k < n ==> #[trigger] ev[k] == (
                        entries@[k].0@,
                        crate::json::json_view(entries@[k].1),
                    ),
                forall|k: int|
                    0 <= k < i ==> (#[trigger] ev[k]).0 == "pattern"@ || ev[k].0
                        == "replacement"@,
            decreases n - i,
        {
            let key = entries[i].0.as_str();
            if !crate::text::str_equal(key, "pattern") && !crate::text::str_equal(
                key,
                "replacement",
            ) {
                proof {
                    assert(ev[i as int].0 == key@);
                    assert(has_unknown_key(ev));
                }
                return Err(message("config.json accepts only pattern and replacement"));
            }
            i = i + 1;
        }
        let replacement = match config.get("replacement") {
            None => String::new(),
            Some(value) => match value.as_str() {
                Some(r) => r.to_owned(),
                None => {
                    return Err(message("replacement must be a string"));
                },
            },
        };
        let regex = match config.get("pattern") {
            None => None,
            Some(value) => if value.is_null() {
                None
            } else {
                match value.as_str() {
                    Some(p) => match compile_pattern(p, DEFAULT_BACKTRACK_LIMIT) {
                        Ok(c) => Some(c),
                        Err(e) => {
                            return Err(e);
                        },
                    },
                    None => {
                        return Err(message("pattern must be a string or null"));
                    },
                }
            },
        };
        Ok(Formatter { regex, replacement })
    }

    /// A formatter from an already compiled regex and a replacement text.
    pub fn from_parts(regex: Option<CompiledPattern>, replacement: String) -> (f: Formatter)
        ensures
            f@.replacement == replacement@,
            f@.pattern == match regex {
                Some(c) => Some((c.pattern_text(), c.limit())),
                None => None::<(Seq<char>, nat)>,
            },
    {
        Formatter { regex, replacement }
    }

    /// The display label for `branch`, as [`format_spec`] says.
    pub fn format(&self, branch: &str) -> (r: Result<String, String>)
        ensures
            result_view(r) == format_spec(self@, branch@),
    {
        match &self.regex {
            None => Ok(branch.to_owned()),
            Some(compiled) => {
                let replaced = replace_first(compiled, branch, self.replacement.as_str());
                settle_replacement(branch, replaced)
            },
        }
    }
}

} // verus!
