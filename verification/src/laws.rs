//! Properties of the library as a whole, stated over the models that the
//! functions' contracts use, and proved.
use vstd::prelude::*;

use crate::formatter::{format_spec, formatter_from_config, FormatterView};
use crate::refresh::{
    checkout_path_spec, current_hints_spec, hint_for, initial_tokens_spec, space_tokens_spec,
};
use crate::herdr::{
    apply_tokens, current_token, object_insert, object_remove, publish_plan_spec, token_arguments,
    tokens_current, with_tokens_spec,
};
use crate::json::{
    entries_eq, entries_get, entries_valid, entry_keys, float_bits_finite, float_bits_nan,
    items_eq, items_valid, json_eq, json_valid, keys_sorted, truthy_spec, JsonNumber, JsonV,
};
use crate::text::{
    is_visible, is_white_space, join_words, lemma_join_extend, lemma_words_nonempty,
    take_at_most, token_text_spec, trim, trim_end, trim_start, visible_chars, words, TOKEN_LIMIT,
};
use crate::workspace::{
    automatic_name, current_hint_spec, group_indented, group_keys, indented_in_groups, indented_spec,
    insert_sorted, labels_spec, lemma_insert_sorted_sorted, member_count, nonempty_branch,
    other_members, primary_from, repo_key, seq_lt, strictly_sorted, text_field_spec, token_value,
    tokens_object,
    workspaces_by_id,
};

verus! {

// ---------------------------------------------------------------------------
// Formatting

/// Without a pattern, a formatter shows every branch exactly as it is.
pub proof fn law_no_pattern_is_identity(f: FormatterView, branch: Seq<char>)
    requires
        f.pattern is None,
    ensures
        format_spec(f, branch) == Ok::<Seq<char>, Seq<char>>(branch),
{
}

/// A configuration without a pattern, or with a null one, gives a formatter
/// that shows every branch exactly as it is, whatever its replacement.
pub proof fn law_config_without_pattern_is_identity(config: JsonV, branch: Seq<char>)
    requires
        formatter_from_config(config) is Ok,
        config.get("pattern"@) is None || config.get("pattern"@) == Some(JsonV::Null),
    ensures
        format_spec(formatter_from_config(config)->Ok_0, branch) == Ok::<Seq<char>, Seq<char>>(
            branch,
        ),
{
}

proof fn lemma_trim_start_head(s: Seq<char>)
    ensures
        trim_start(s).len() > 0 ==> !is_white_space(trim_start(s)[0]),
    decreases s.len(),
{
    if s.len() > 0 && is_white_space(s[0]) {
        lemma_trim_start_head(s.drop_first());
    }
}

proof fn lemma_trim_end_prefix(s: Seq<char>)
    ensures
        trim_end(s).len() <= s.len(),
        trim_end(s) == s.take(trim_end(s).len() as int),
        trim_end(s).len() > 0 ==> !is_white_space(trim_end(s).last()),
    decreases s.len(),
{
    if s.len() > 0 && is_white_space(s.last()) {
        lemma_trim_end_prefix(s.drop_last());
        let t = trim_end(s.drop_last());
        assert(s.drop_last().take(t.len() as int) =~= s.take(t.len() as int));
    } else {
        assert(s.take(s.len() as int) =~= s);
    }
}

/// Trimmed text starts and ends with a character that is not whitespace.
pub proof fn law_trim_has_no_outer_whitespace(s: Seq<char>)
    ensures
        trim(s).len() > 0 ==> !is_white_space(trim(s)[0]) && !is_white_space(trim(s).last()),
{
    lemma_trim_start_head(trim_start(s));
    lemma_trim_start_head(s);
    lemma_trim_end_prefix(trim_start(s));
}

/// A formatted label is the branch itself or text that is neither empty nor
/// starts or ends with whitespace: a replacement that leaves nothing keeps
/// the branch.
pub proof fn law_formatted_label_is_branch_or_trimmed(f: FormatterView, branch: Seq<char>)
    requires
        format_spec(f, branch) is Ok,
    ensures
        ({
            let r = format_spec(f, branch)->Ok_0;
            r == branch || (r.len() > 0 && !is_white_space(r[0]) && !is_white_space(r.last()))
        }),
{
    match f.pattern {
        None => {},
        Some((p, limit)) => {
            match crate::formatter::regex_replace_first(p, limit, branch, f.replacement) {
                Ok(r) => {
                    law_trim_has_no_outer_whitespace(r);
                },
                Err(_) => {},
            }
        },
    }
}

// ---------------------------------------------------------------------------
// Tokens

/// The shape of a sidebar token: only visible characters, and no
/// whitespace but single spaces that follow another character.
pub open spec fn token_shape(t: Seq<char>) -> bool {
    forall|i: int|
        0 <= i < t.len() ==> is_visible(#[trigger] t[i]) && (is_white_space(t[i]) ==> t[i]
            == ' ' && i > 0 && !is_white_space(t[i - 1]))
}

proof fn lemma_visible_chars(s: Seq<char>)
    ensures
        forall|i: int| 0 <= i < visible_chars(s).len() ==> is_visible(#[trigger] visible_chars(s)[i]),
    decreases s.len(),
{
    if s.len() > 0 {
        lemma_visible_chars(s.drop_last());
        let r = visible_chars(s.drop_last());
        if is_visible(s.last()) {
            assert forall|i: int| 0 <= i < r.push(s.last()).len() implies is_visible(
                #[trigger] r.push(s.last())[i],
            ) by {
                if i < r.len() {
                    assert(r.push(s.last())[i] == r[i]);
                }
            }
        }
    }
}

proof fn lemma_collapse_shape(s: Seq<char>)
    requires
        forall|i: int| 0 <= i < s.len() ==> is_visible(#[trigger] s[i]),
    ensures
        token_shape(join_words(words(s))),
        join_words(words(s)).len() > 0 ==> !is_white_space(join_words(words(s)).last()),
        join_words(words(s)).len() == 0 <==> words(s).len() == 0,
    decreases s.len(),
{
    if s.len() > 0 {
        let p = s.drop_last();
        let c = s.last();
        assert forall|i: int| 0 <= i < p.len() implies is_visible(#[trigger] p[i]) by {
            assert(p[i] == s[i]);
        }
        lemma_collapse_shape(p);
        lemma_words_nonempty(p);
        let w = words(p);
        let j = join_words(w);
        assert(is_visible(c)) by {
            assert(s[s.len() - 1] == c);
        }
        if is_white_space(c) {
        } else if s.len() >= 2 && !is_white_space(s[s.len() - 2]) {
            assert(p.last() == s[s.len() - 2]);
            lemma_join_extend(w, c);
            let t = j.push(c);
            assert forall|i: int| 0 <= i < t.len() implies is_visible(#[trigger] t[i]) && (
            is_white_space(t[i]) ==> t[i] == ' ' && i > 0 && !is_white_space(t[i - 1])) by {
                if i < j.len() {
                    assert(t[i] == j[i]);
                    if i > 0 {
                        assert(t[i - 1] == j[i - 1]);
                    }
                }
            }
        } else {
            let w2 = w.push(seq![c]);
            assert(w2.drop_last() =~= w);
            if w.len() == 0 {
                assert(join_words(w2) =~= seq![c]);
            } else {
                let t = j + seq![' '] + seq![c];
                assert(join_words(w2) == t);
                assert forall|i: int| 0 <= i < t.len() implies is_visible(#[trigger] t[i]) && (
                is_white_space(t[i]) ==> t[i] == ' ' && i > 0 && !is_white_space(t[i - 1])) by {
                    if i < j.len() {
                        assert(t[i] == j[i]);
                        if i > 0 {
                            assert(t[i - 1] == j[i - 1]);
                        }
                    } else if i == j.len() {
                        assert(t[i - 1] == j.last());
                    } else {
                        assert(t[i] == c);
                    }
                }
            }
        }
    }
}

/// A sidebar token is never empty, holds at most [`TOKEN_LIMIT`]
/// characters, and has no control characters and no whitespace but single
/// spaces between other characters (it never starts with a space).
pub proof fn law_token_shape(value: Option<Seq<char>>)
    ensures
        token_text_spec(value) matches Some(t) ==> 0 < t.len() <= TOKEN_LIMIT && token_shape(t),
{
    match value {
        None => {},
        Some(s) => {
            let v = visible_chars(s);
            lemma_visible_chars(s);
            lemma_collapse_shape(v);
            let c = join_words(words(v));
            let t = take_at_most(c, TOKEN_LIMIT as nat);
            assert forall|i: int| 0 <= i < t.len() implies is_visible(#[trigger] t[i]) && (
            is_white_space(t[i]) ==> t[i] == ' ' && i > 0 && !is_white_space(t[i - 1])) by {
                assert(t[i] == c[i]);
                if i > 0 {
                    assert(t[i - 1] == c[i - 1]);
                }
            }
        },
    }
}

proof fn lemma_visible_chars_keep(s: Seq<char>)
    requires
        forall|i: int| 0 <= i < s.len() ==> is_visible(#[trigger] s[i]),
    ensures
        visible_chars(s) == s,
    decreases s.len(),
{
    if s.len() > 0 {
        let p = s.drop_last();
        assert forall|i: int| 0 <= i < p.len() implies is_visible(#[trigger] p[i]) by {
            assert(p[i] == s[i]);
        }
        lemma_visible_chars_keep(p);
        assert(is_visible(s[s.len() - 1]));
        assert(p.push(s.last()) =~= s);
    }
}

proof fn lemma_collapse_token(t: Seq<char>)
    requires
        token_shape(t),
    ensures
        join_words(words(t)) == trim_end(t),
    decreases t.len(),
{
    if t.len() > 0 {
        let p = t.drop_last();
        let c = t.last();
        assert(c == t[t.len() - 1]);
        assert forall|i: int| 0 <= i < p.len() implies is_visible(#[trigger] p[i]) && (
        is_white_space(p[i]) ==> p[i] == ' ' && i > 0 && !is_white_space(p[i - 1])) by {
            assert(p[i] == t[i]);
            if i > 0 {
                assert(p[i - 1] == t[i - 1]);
            }
        }
        lemma_collapse_token(p);
        let w = words(p);
        if is_white_space(c) {
            // words(t) == words(p) and trim_end(t) == trim_end(p)
        } else if t.len() >= 2 && !is_white_space(t[t.len() - 2]) {
            assert(p.last() == t[t.len() - 2]);
            lemma_words_nonempty(p);
            lemma_join_extend(w, c);
            assert(trim_end(p) == p);
            assert(p.push(c) =~= t);
        } else if t.len() == 1 {
            assert(p.len() == 0);
            assert(words(p) =~= Seq::<Seq<char>>::empty());
            assert(join_words(words(t)) =~= seq![c]);
            assert(seq![c] =~= t);
        } else {
            let q = p.drop_last();
            assert(p.last() == t[t.len() - 2]);
            assert(t[t.len() - 2] == ' ' && !is_white_space(t[t.len() - 3]));
            assert(q.last() == t[t.len() - 3]);
            assert forall|i: int| 0 <= i < q.len() implies is_visible(#[trigger] q[i]) && (
            is_white_space(q[i]) ==> q[i] == ' ' && i > 0 && !is_white_space(q[i - 1])) by {
                assert(q[i] == t[i]);
                if i > 0 {
                    assert(q[i - 1] == t[i - 1]);
                }
            }
            lemma_collapse_token(q);
            lemma_words_nonempty(q);
            assert(words(p) == words(q));
            assert(trim_end(p) == trim_end(q));
            assert(trim_end(q) == q);
            let w2 = w.push(seq![c]);
            assert(w2.drop_last() =~= w);
            assert(join_words(w2) == join_words(w) + seq![' '] + seq![c]);
            assert(q + seq![' '] + seq![c] =~= t);
        }
    }
}

/// A second pass over a sidebar token changes it at most by dropping a
/// trailing space that the cut to [`TOKEN_LIMIT`] characters left.
pub proof fn law_token_second_pass(value: Option<Seq<char>>)
    ensures
        token_text_spec(token_text_spec(value)) == match token_text_spec(value) {
            None => None::<Seq<char>>,
            Some(t) => Some(trim_end(t)),
        },
{
    law_token_shape(value);
    match token_text_spec(value) {
        None => {},
        Some(t) => {
            assert forall|i: int| 0 <= i < t.len() implies is_visible(#[trigger] t[i]) by {}
            lemma_visible_chars_keep(t);
            lemma_collapse_token(t);
            assert(!is_white_space(t[0]));
            lemma_trim_end_keeps_first(t);
        },
    }
}

proof fn lemma_trim_end_keeps_first(t: Seq<char>)
    requires
        t.len() > 0,
        !is_white_space(t[0]),
    ensures
        0 < trim_end(t).len() <= t.len(),
    decreases t.len(),
{
    if is_white_space(t.last()) {
        assert(t.len() > 1);
        assert(t.drop_last()[0] == t[0]);
        lemma_trim_end_keeps_first(t.drop_last());
    }
}

// ---------------------------------------------------------------------------
// Labels

/// The space token of a label result.
pub open spec fn space_token(tokens: JsonV) -> Option<JsonV> {
    tokens.get("short_space"@)
}

/// The branch token of a label result.
pub open spec fn branch_token(tokens: JsonV) -> Option<JsonV> {
    tokens.get("short_branch"@)
}

proof fn lemma_token_keys_differ()
    ensures
        "short_branch"@ != "short_space"@,
{
    reveal_strlit("short_branch");
    reveal_strlit("short_space");
    assert("short_branch"@.len() != "short_space"@.len());
}

/// A space keeps its own label as its space token unless it is an indented
/// space that Herdr named automatically, has a branch, and was not just
/// renamed: custom names, unknown identities and live renames win.
pub proof fn law_label_kept(
    workspace: JsonV,
    hint: Option<JsonV>,
    branch: Option<Seq<char>>,
    indented: bool,
    formatter: FormatterView,
    renamed: bool,
)
    requires
        labels_spec(workspace, hint, branch, indented, formatter, renamed) is Ok,
        !indented || !automatic_name(hint) || renamed || nonempty_branch(branch) is None,
    ensures
        text_field_spec(workspace, "label"@) matches Ok(label) && space_token(
            labels_spec(workspace, hint, branch, indented, formatter, renamed)->Ok_0,
        ) == Some(token_value(token_text_spec(Some(label)))),
{
    lemma_token_keys_differ();
    let j = labels_spec(workspace, hint, branch, indented, formatter, renamed)->Ok_0;
    let e = j->Object_0;
    let first = e[0];
    let second = e[1];
    assert(e =~= seq![first] + seq![second]);
    lemma_get_cons(first, seq![second], "short_space"@);
    lemma_get_cons(second, Seq::empty(), "short_space"@);
    assert(seq![second] =~= seq![second] + Seq::<(Seq<char>, JsonV)>::empty());
}

/// An indented space, and a space without a branch, never shows a branch
/// token.
pub proof fn law_no_branch_token(
    workspace: JsonV,
    hint: Option<JsonV>,
    branch: Option<Seq<char>>,
    indented: bool,
    formatter: FormatterView,
    renamed: bool,
)
    requires
        labels_spec(workspace, hint, branch, indented, formatter, renamed) is Ok,
        indented || nonempty_branch(branch) is None,
    ensures
        branch_token(labels_spec(workspace, hint, branch, indented, formatter, renamed)->Ok_0)
            == Some(JsonV::Null),
{
}

/// A space that is not indented shows its formatted branch as its branch
/// token.
pub proof fn law_root_branch_token(
    workspace: JsonV,
    hint: Option<JsonV>,
    branch: Seq<char>,
    formatter: FormatterView,
    renamed: bool,
)
    requires
        labels_spec(workspace, hint, Some(branch), false, formatter, renamed) is Ok,
        branch.len() > 0,
    ensures
        format_spec(formatter, branch) matches Ok(b) && branch_token(
            labels_spec(workspace, hint, Some(branch), false, formatter, renamed)->Ok_0,
        ) == Some(token_value(token_text_spec(Some(b)))),
{
}

// ---------------------------------------------------------------------------
// Grouping

/// The repositories of a list of workspaces come in strictly increasing
/// order, each once, and are exactly the repositories that the workspaces
/// name.
pub proof fn law_group_keys_sorted(ws: Seq<JsonV>)
    ensures
        strictly_sorted(group_keys(ws)),
        forall|k: Seq<char>|
            #[trigger] group_keys(ws).contains(k) <==> exists|i: int|
                0 <= i < ws.len() && repo_key(#[trigger] ws[i]) == Some(k),
    decreases ws.len(),
{
    if ws.len() > 0 {
        let p = ws.drop_last();
        law_group_keys_sorted(p);
        let ks = group_keys(p);
        match repo_key(ws.last()) {
            Some(k) => {
                lemma_insert_sorted_sorted(ks, k);
                crate::workspace::lemma_insert_sorted_contains(ks, k);
            },
            None => {},
        }
        assert forall|k: Seq<char>| #[trigger] group_keys(ws).contains(k) <==> exists|i: int|
            0 <= i < ws.len() && repo_key(#[trigger] ws[i]) == Some(k) by {
            if exists|i: int| 0 <= i < ws.len() && repo_key(#[trigger] ws[i]) == Some(k) {
                let i = choose|i: int| 0 <= i < ws.len() && repo_key(#[trigger] ws[i]) == Some(k);
                if i < ws.len() - 1 {
                    assert(p[i] == ws[i]);
                }
            }
            if ks.contains(k) {
                let i = choose|i: int| 0 <= i < p.len() && repo_key(#[trigger] p[i]) == Some(k);
                assert(ws[i] == p[i]);
            }
        }
    }
}

/// Whether `x` is the id of a workspace that belongs to a repository group.
pub open spec fn grouped_id(ws: Seq<JsonV>, x: Seq<char>) -> bool {
    exists|i: int|
        0 <= i < ws.len() && repo_key(#[trigger] ws[i]) is Some && ws[i].str_field(
            "workspace_id"@,
        ) == Some(x)
}

proof fn lemma_other_members_grouped(ws: Seq<JsonV>, key: Seq<char>, p: int, n: int)
    requires
        n <= ws.len(),
        other_members(ws, key, p, n) is Ok,
    ensures
        forall|x: Seq<char>| #[trigger]
            other_members(ws, key, p, n)->Ok_0.contains(x) ==> grouped_id(ws, x),
    decreases n,
{
    if n > 0 {
        lemma_other_members_grouped(ws, key, p, n - 1);
        if repo_key(ws[n - 1]) == Some(key) && n - 1 != p {
            assert forall|x: Seq<char>| #[trigger]
                other_members(ws, key, p, n)->Ok_0.contains(x) implies grouped_id(ws, x) by {
                if !other_members(ws, key, p, n - 1)->Ok_0.contains(x) {
                    assert(ws[n - 1].str_field("workspace_id"@) == Some(x));
                }
            }
        }
    }
}

proof fn lemma_groups_grouped(ws: Seq<JsonV>, keys: Seq<Seq<char>>)
    requires
        indented_in_groups(ws, keys) is Ok,
    ensures
        forall|x: Seq<char>| #[trigger]
            indented_in_groups(ws, keys)->Ok_0.contains(x) ==> grouped_id(ws, x),
    decreases keys.len(),
{
    if keys.len() > 0 {
        lemma_groups_grouped(ws, keys.drop_last());
        let key = keys.last();
        match primary_from(ws, key, 0) {
            Ok(Some(p)) => {
                if group_indented(ws, key) != Ok::<Set<Seq<char>>, Seq<char>>(Set::empty()) {
                    lemma_other_members_grouped(ws, key, p, ws.len() as int);
                }
            },
            _ => {},
        }
    }
}

/// Only workspaces that belong to a repository group are ever indented.
pub proof fn law_only_grouped_workspaces_indented(ws: Seq<JsonV>)
    requires
        indented_spec(ws) is Ok,
    ensures
        forall|x: Seq<char>| #[trigger] indented_spec(ws)->Ok_0.contains(x) ==> grouped_id(ws, x),
{
    lemma_groups_grouped(ws, group_keys(ws));
}

proof fn lemma_primary_left(a: Seq<JsonV>, b: Seq<JsonV>, k: Seq<char>, i: int)
    requires
        0 <= i,
        forall|j: int| 0 <= j < b.len() ==> repo_key(#[trigger] b[j]) != Some(k),
    ensures
        primary_from(a + b, k, i) == primary_from(a, k, i),
    decreases (a + b).len() - i,
{
    let ws = a + b;
    if i < ws.len() {
        if i < a.len() {
            assert(ws[i] == a[i]);
        } else {
            assert(ws[i] == b[i - a.len()]);
        }
        lemma_primary_left(a, b, k, i + 1);
    }
}

proof fn lemma_count_left(a: Seq<JsonV>, b: Seq<JsonV>, k: Seq<char>, n: int)
    requires
        0 <= n <= a.len() + b.len(),
        forall|j: int| 0 <= j < b.len() ==> repo_key(#[trigger] b[j]) != Some(k),
    ensures
        member_count(a + b, k, n) == member_count(a, k, if n <= a.len() { n } else { a.len() as int }),
    decreases n,
{
    if n > 0 {
        lemma_count_left(a, b, k, n - 1);
        if n - 1 < a.len() {
            assert((a + b)[n - 1] == a[n - 1]);
        } else {
            assert((a + b)[n - 1] == b[n - 1 - a.len()]);
        }
    }
}

proof fn lemma_other_left(a: Seq<JsonV>, b: Seq<JsonV>, k: Seq<char>, p: int, n: int)
    requires
        0 <= n <= a.len() + b.len(),
        forall|j: int| 0 <= j < b.len() ==> repo_key(#[trigger] b[j]) != Some(k),
    ensures
        other_members(a + b, k, p, n) == other_members(
            a,
            k,
            p,
            if n <= a.len() { n } else { a.len() as int },
        ),
    decreases n,
{
    if n > 0 {
        lemma_other_left(a, b, k, p, n - 1);
        if n - 1 < a.len() {
            assert((a + b)[n - 1] == a[n - 1]);
        } else {
            assert((a + b)[n - 1] == b[n - 1 - a.len()]);
        }
    }
}

/// A group's indentation is unchanged by workspaces of other groups after it.
proof fn lemma_group_left(a: Seq<JsonV>, b: Seq<JsonV>, k: Seq<char>)
    requires
        forall|j: int| 0 <= j < b.len() ==> repo_key(#[trigger] b[j]) != Some(k),
    ensures
        group_indented(a + b, k) == group_indented(a, k),
{
    let n = (a + b).len() as int;
    lemma_primary_left(a, b, k, 0);
    lemma_count_left(a, b, k, n);
    match primary_from(a, k, 0) {
        Ok(Some(p)) => {
            lemma_other_left(a, b, k, p, n);
        },
        _ => {},
    }
}

/// An optional position moved on by `d`.
pub open spec fn shifted(r: Result<Option<int>, Seq<char>>, d: int) -> Result<
    Option<int>,
    Seq<char>,
> {
    match r {
        Ok(Some(p)) => Ok(Some(p + d)),
        _ => r,
    }
}

proof fn lemma_primary_right_tail(a: Seq<JsonV>, b: Seq<JsonV>, k: Seq<char>, i: int)
    requires
        0 <= i,
    ensures
        primary_from(a + b, k, a.len() + i) == shifted(primary_from(b, k, i), a.len() as int),
    decreases b.len() - i,
{
    if i < b.len() {
        assert((a + b)[a.len() + i] == b[i]);
        lemma_primary_right_tail(a, b, k, i + 1);
    }
}

proof fn lemma_primary_right_head(a: Seq<JsonV>, b: Seq<JsonV>, k: Seq<char>, i: int)
    requires
        0 <= i <= a.len(),
        forall|j: int| 0 <= j < a.len() ==> repo_key(#[trigger] a[j]) != Some(k),
    ensures
        primary_from(a + b, k, i) == primary_from(a + b, k, a.len() as int),
    decreases a.len() - i,
{
    if i < a.len() {
        assert((a + b)[i] == a[i]);
        lemma_primary_right_head(a, b, k, i + 1);
    }
}

proof fn lemma_count_right(a: Seq<JsonV>, b: Seq<JsonV>, k: Seq<char>, m: int)
    requires
        0 <= m <= a.len() + b.len(),
        forall|j: int| 0 <= j < a.len() ==> repo_key(#[trigger] a[j]) != Some(k),
    ensures
        member_count(a + b, k, m) == if m <= a.len() {
            0
        } else {
            member_count(b, k, m - a.len())
        },
    decreases m,
{
    if m > 0 {
        lemma_count_right(a, b, k, m - 1);
        if m - 1 < a.len() {
            assert((a + b)[m - 1] == a[m - 1]);
            assert(repo_key(a[m - 1]) != Some(k));
        } else {
            let r = m - a.len();
            assert((a + b)[m - 1] == b[r - 1]);
            assert(member_count(b, k, r - 1) == if m - 1 <= a.len() {
                0
            } else {
                member_count(b, k, m - 1 - a.len())
            });
            assert(member_count(b, k, r) == if repo_key(b[r - 1]) == Some(k) {
                member_count(b, k, r - 1) + 1
            } else {
                member_count(b, k, r - 1)
            });
        }
    }
}

proof fn lemma_other_right(a: Seq<JsonV>, b: Seq<JsonV>, k: Seq<char>, p: int, m: int)
    requires
        0 <= m <= a.len() + b.len(),
        forall|j: int| 0 <= j < a.len() ==> repo_key(#[trigger] a[j]) != Some(k),
    ensures
        other_members(a + b, k, p + a.len(), m) == if m <= a.len() {
            Ok(Set::<Seq<char>>::empty())
        } else {
            other_members(b, k, p, m - a.len())
        },
    decreases m,
{
    if m > 0 {
        lemma_other_right(a, b, k, p, m - 1);
        if m - 1 < a.len() {
            assert((a + b)[m - 1] == a[m - 1]);
        } else {
            assert((a + b)[m - 1] == b[m - 1 - a.len()]);
        }
    }
}

/// A group's indentation is unchanged by workspaces of other groups before it.
proof fn lemma_group_right(a: Seq<JsonV>, b: Seq<JsonV>, k: Seq<char>)
    requires
        forall|j: int| 0 <= j < a.len() ==> repo_key(#[trigger] a[j]) != Some(k),
    ensures
        group_indented(a + b, k) == group_indented(b, k),
{
    let n = (a + b).len() as int;
    lemma_primary_right_head(a, b, k, 0);
    lemma_primary_right_tail(a, b, k, 0);
    assert(a.len() + 0 == a.len());
    lemma_count_right(a, b, k, n);
    match primary_from(b, k, 0) {
        Ok(Some(p)) => {
            lemma_other_right(a, b, k, p, n);
        },
        _ => {},
    }
}

/// Whether `x` is indented in group `k`.
pub open spec fn group_holds(ws: Seq<JsonV>, k: Seq<char>, x: Seq<char>) -> bool {
    group_indented(ws, k) matches Ok(s) && s.contains(x)
}

proof fn lemma_groups_ok(ws: Seq<JsonV>, keys: Seq<Seq<char>>)
    ensures
        (indented_in_groups(ws, keys) is Ok) <==> (forall|j: int|
            0 <= j < keys.len() ==> #[trigger] group_indented(ws, keys[j]) is Ok),
        indented_in_groups(ws, keys) is Ok ==> forall|x: Seq<char>|
            #[trigger] indented_in_groups(ws, keys)->Ok_0.contains(x) <==> exists|j: int|
                0 <= j < keys.len() && #[trigger] group_holds(ws, keys[j], x),
    decreases keys.len(),
{
    if keys.len() > 0 {
        let p = keys.drop_last();
        let n = keys.len() - 1;
        lemma_groups_ok(ws, p);
        assert(keys[n] == keys.last());
        assert forall|j: int| 0 <= j < p.len() implies p[j] == keys[j] by {}
        if (forall|j: int| 0 <= j < keys.len() ==> #[trigger] group_indented(ws, keys[j]) is Ok) {
            assert forall|j: int| 0 <= j < p.len() implies #[trigger] group_indented(ws, p[j]) is Ok by {
                assert(p[j] == keys[j]);
            }
            assert(group_indented(ws, keys[n]) is Ok);
        }
        if indented_in_groups(ws, keys) is Ok {
            assert forall|j: int| 0 <= j < keys.len() implies #[trigger] group_indented(
                ws,
                keys[j],
            ) is Ok by {
                if j < n {
                    assert(group_indented(ws, p[j]) is Ok);
                }
            }
            let s = indented_in_groups(ws, keys)->Ok_0;
            let s0 = indented_in_groups(ws, p)->Ok_0;
            assert forall|x: Seq<char>| #[trigger] s.contains(x) <==> exists|j: int|
                0 <= j < keys.len() && #[trigger] group_holds(ws, keys[j], x) by {
                if s.contains(x) {
                    if s0.contains(x) {
                        let j = choose|j: int| 0 <= j < p.len() && #[trigger] group_holds(ws, p[j], x);
                        assert(group_holds(ws, keys[j], x));
                    } else {
                        assert(group_holds(ws, keys[n], x));
                    }
                }
                if exists|j: int| 0 <= j < keys.len() && #[trigger] group_holds(ws, keys[j], x) {
                    let j = choose|j: int| 0 <= j < keys.len() && #[trigger] group_holds(ws, keys[j], x);
                    if j < n {
                        assert(group_holds(ws, p[j], x));
                    }
                }
            }
        }
    }
}

/// Whether no repository of `a` is one of `b`.
pub open spec fn repositories_disjoint(a: Seq<JsonV>, b: Seq<JsonV>) -> bool {
    forall|i: int, j: int|
        0 <= i < a.len() && 0 <= j < b.len() && repo_key(a[i]) is Some ==> repo_key(
            #[trigger] a[i],
        ) != repo_key(#[trigger] b[j])
}

proof fn lemma_group_of_key(a: Seq<JsonV>, b: Seq<JsonV>, k: Seq<char>)
    requires
        repositories_disjoint(a, b),
    ensures
        group_keys(a).contains(k) ==> group_indented(a + b, k) == group_indented(a, k),
        group_keys(b).contains(k) ==> group_indented(a + b, k) == group_indented(b, k),
{
    law_group_keys_sorted(a);
    law_group_keys_sorted(b);
    if group_keys(a).contains(k) {
        let i = choose|i: int| 0 <= i < a.len() && repo_key(#[trigger] a[i]) == Some(k);
        assert forall|j: int| 0 <= j < b.len() implies repo_key(#[trigger] b[j]) != Some(k) by {
            assert(repo_key(a[i]) != repo_key(b[j]));
        }
        lemma_group_left(a, b, k);
    }
    if group_keys(b).contains(k) {
        let j = choose|j: int| 0 <= j < b.len() && repo_key(#[trigger] b[j]) == Some(k);
        assert forall|i: int| 0 <= i < a.len() implies repo_key(#[trigger] a[i]) != Some(k) by {
            if repo_key(a[i]) == Some(k) {
                assert(repo_key(a[i]) != repo_key(b[j]));
            }
        }
        lemma_group_right(a, b, k);
    }
}

/// Spaces of repositories that two lists do not share are indented
/// independently: where each list alone is indented without a problem, the
/// two together indent the union of what each indents.
pub proof fn law_disjoint_groups_union(a: Seq<JsonV>, b: Seq<JsonV>)
    requires
        repositories_disjoint(a, b),
        indented_spec(a) is Ok,
        indented_spec(b) is Ok,
    ensures
        indented_spec(a + b) == Ok::<Set<Seq<char>>, Seq<char>>(
            indented_spec(a)->Ok_0.union(indented_spec(b)->Ok_0),
        ),
{
    let ws = a + b;
    let ks = group_keys(ws);
    let ka = group_keys(a);
    let kb = group_keys(b);
    law_group_keys_sorted(ws);
    law_group_keys_sorted(a);
    law_group_keys_sorted(b);
    lemma_groups_ok(a, ka);
    lemma_groups_ok(b, kb);
    lemma_groups_ok(ws, ks);
    // Each key of the whole list is a key of one of the two.
    assert forall|k: Seq<char>| ks.contains(k) implies ka.contains(k) || kb.contains(k) by {
        let i = choose|i: int| 0 <= i < ws.len() && repo_key(#[trigger] ws[i]) == Some(k);
        if i < a.len() {
            assert(ws[i] == a[i]);
        } else {
            assert(ws[i] == b[i - a.len()]);
        }
    }
    assert forall|k: Seq<char>| ka.contains(k) implies ks.contains(k) by {
        let i = choose|i: int| 0 <= i < a.len() && repo_key(#[trigger] a[i]) == Some(k);
        assert(ws[i] == a[i]);
    }
    assert forall|k: Seq<char>| kb.contains(k) implies ks.contains(k) by {
        let i = choose|i: int| 0 <= i < b.len() && repo_key(#[trigger] b[i]) == Some(k);
        assert(ws[a.len() + i] == b[i]);
    }
    assert forall|j: int| 0 <= j < ks.len() implies #[trigger] group_indented(ws, ks[j]) is Ok by {
        let k = ks[j];
        assert(ks.contains(k));
        lemma_group_of_key(a, b, k);
        if ka.contains(k) {
            let m = choose|m: int| 0 <= m < ka.len() && ka[m] == k;
            assert(group_indented(a, ka[m]) is Ok);
        } else {
            let m = choose|m: int| 0 <= m < kb.len() && kb[m] == k;
            assert(group_indented(b, kb[m]) is Ok);
        }
    }
    let x_set = indented_spec(a)->Ok_0;
    let y_set = indented_spec(b)->Ok_0;
    let s = indented_spec(ws)->Ok_0;
    assert forall|x: Seq<char>| s.contains(x) <==> x_set.union(y_set).contains(x) by {
        if s.contains(x) {
            let j = choose|j: int| 0 <= j < ks.len() && #[trigger] group_holds(ws, ks[j], x);
            let k = ks[j];
            assert(ks.contains(k));
            lemma_group_of_key(a, b, k);
            if ka.contains(k) {
                let m = choose|m: int| 0 <= m < ka.len() && ka[m] == k;
                assert(group_holds(a, ka[m], x));
            } else {
                let m = choose|m: int| 0 <= m < kb.len() && kb[m] == k;
                assert(group_holds(b, kb[m], x));
            }
        }
        if x_set.contains(x) {
            let m = choose|m: int| 0 <= m < ka.len() && #[trigger] group_holds(a, ka[m], x);
            let k = ka[m];
            assert(ka.contains(k));
            assert(ks.contains(k));
            let j = choose|j: int| 0 <= j < ks.len() && ks[j] == k;
            lemma_group_of_key(a, b, k);
            assert(group_holds(ws, ks[j], x));
        }
        if y_set.contains(x) {
            let m = choose|m: int| 0 <= m < kb.len() && #[trigger] group_holds(b, kb[m], x);
            let k = kb[m];
            assert(kb.contains(k));
            assert(ks.contains(k));
            let j = choose|j: int| 0 <= j < ks.len() && ks[j] == k;
            lemma_group_of_key(a, b, k);
            assert(group_holds(ws, ks[j], x));
        }
    }
    assert(s =~= x_set.union(y_set));
}

proof fn lemma_keys_without_groups(a: Seq<JsonV>, b: Seq<JsonV>)
    requires
        forall|j: int| 0 <= j < b.len() ==> repo_key(#[trigger] b[j]) is None,
    ensures
        group_keys(a + b) == group_keys(a),
    decreases b.len(),
{
    if b.len() > 0 {
        let p = b.drop_last();
        assert forall|j: int| 0 <= j < p.len() implies repo_key(#[trigger] p[j]) is None by {
            assert(p[j] == b[j]);
        }
        lemma_keys_without_groups(a, p);
        assert((a + b).drop_last() =~= a + p);
        assert((a + b).last() == b[b.len() - 1]);
    } else {
        assert(a + b =~= a);
    }
}

proof fn lemma_groups_without_groups(a: Seq<JsonV>, b: Seq<JsonV>, keys: Seq<Seq<char>>)
    requires
        forall|j: int| 0 <= j < b.len() ==> repo_key(#[trigger] b[j]) is None,
    ensures
        indented_in_groups(a + b, keys) == indented_in_groups(a, keys),
    decreases keys.len(),
{
    if keys.len() > 0 {
        lemma_groups_without_groups(a, b, keys.drop_last());
        lemma_group_left(a, b, keys.last());
    }
}

/// Workspaces that belong to no repository group change nothing in which
/// spaces are indented, nor in the problem reported.
pub proof fn law_ungrouped_workspaces_change_nothing(a: Seq<JsonV>, b: Seq<JsonV>)
    requires
        forall|j: int| 0 <= j < b.len() ==> repo_key(#[trigger] b[j]) is None,
    ensures
        indented_spec(a + b) == indented_spec(a),
{
    lemma_keys_without_groups(a, b);
    lemma_groups_without_groups(a, b, group_keys(a));
}

// ---------------------------------------------------------------------------
// Saved hints

/// In a snapshot's list, the last workspace with an id is the one kept
/// under that id.
pub proof fn law_latest_saved_entry_wins(items: Seq<JsonV>, i: int, id: Seq<char>)
    requires
        0 <= i < items.len(),
        items[i].str_field("id"@) == Some(id),
        forall|j: int| i < j < items.len() ==> (#[trigger] items[j]).str_field("id"@) != Some(id),
    ensures
        workspaces_by_id(items).contains_key(id),
        workspaces_by_id(items)[id] == items[i],
    decreases items.len(),
{
    if i < items.len() - 1 {
        let p = items.drop_last();
        assert forall|j: int| i < j < p.len() implies (#[trigger] p[j]).str_field("id"@) != Some(
            id,
        ) by {
            assert(p[j] == items[j]);
        }
        assert(p[i] == items[i]);
        law_latest_saved_entry_wins(p, i, id);
        assert(items.last() == items[items.len() - 1]);
    }
}

// ---------------------------------------------------------------------------
// Publishing

/// A JSON value without an infinite or NaN float, as serde_json keeps them.
pub open spec fn json_finite(v: JsonV) -> bool
    decreases v, 1nat,
{
    match v {
        JsonV::Number(JsonNumber::Float(bits)) => float_bits_finite(bits),
        JsonV::Array(x) => items_finite(x),
        JsonV::Object(x) => entries_finite(x),
        _ => true,
    }
}

pub open spec fn items_finite(x: Seq<JsonV>) -> bool
    decreases x, 0nat,
{
    if x.len() == 0 {
        true
    } else {
        items_finite(x.drop_last()) && json_finite(x.last())
    }
}

pub open spec fn entries_finite(x: Seq<(Seq<char>, JsonV)>) -> bool
    decreases x, 0nat,
{
    if x.len() == 0 {
        true
    } else {
        entries_finite(x.drop_last()) && json_finite(x.last().1)
    }
}

proof fn lemma_finite_not_nan(bits: u64)
    requires
        float_bits_finite(bits),
    ensures
        !float_bits_nan(bits),
{
}

/// Every finite JSON value equals itself.
pub proof fn law_json_eq_reflexive(v: JsonV)
    requires
        json_finite(v),
    ensures
        json_eq(v, v),
    decreases v, 1nat,
{
    match v {
        JsonV::Number(JsonNumber::Float(bits)) => {
            lemma_finite_not_nan(bits);
        },
        JsonV::Array(x) => {
            lemma_items_eq_reflexive(x);
        },
        JsonV::Object(x) => {
            lemma_entries_eq_reflexive(x);
        },
        _ => {},
    }
}

proof fn lemma_items_eq_reflexive(x: Seq<JsonV>)
    requires
        items_finite(x),
    ensures
        items_eq(x, x),
    decreases x, 0nat,
{
    if x.len() > 0 {
        lemma_items_eq_reflexive(x.drop_last());
        law_json_eq_reflexive(x.last());
    }
}

proof fn lemma_entries_eq_reflexive(x: Seq<(Seq<char>, JsonV)>)
    requires
        entries_finite(x),
    ensures
        entries_eq(x, x),
    decreases x, 0nat,
{
    if x.len() > 0 {
        lemma_entries_eq_reflexive(x.drop_last());
        law_json_eq_reflexive(x.last().1);
    }
}

proof fn lemma_get_cons(x: (Seq<char>, JsonV), r: Seq<(Seq<char>, JsonV)>, k: Seq<char>)
    ensures
        entries_get(seq![x] + r, k) == if x.0 == k {
            Some(x.1)
        } else {
            entries_get(r, k)
        },
{
    let s = seq![x] + r;
    assert(s[0] == x);
    assert(s.drop_first() =~= r);
}

proof fn lemma_get_push(r: Seq<(Seq<char>, JsonV)>, x: (Seq<char>, JsonV), k: Seq<char>)
    ensures
        entries_get(r.push(x), k) == match entries_get(r, k) {
            Some(v) => Some(v),
            None => if x.0 == k {
                Some(x.1)
            } else {
                None
            },
        },
    decreases r.len(),
{
    if r.len() > 0 {
        assert(r.push(x).drop_first() =~= r.drop_first().push(x));
        assert(r.push(x)[0] == r[0]);
        lemma_get_push(r.drop_first(), x, k);
    } else {
        assert(r.push(x) =~= seq![x] + r);
        lemma_get_cons(x, r, k);
        assert(entries_get(r, k) is None);
    }
}

/// After setting `k`, an object gives the new value for `k`.
pub proof fn law_get_after_insert(e: Seq<(Seq<char>, JsonV)>, k: Seq<char>, v: JsonV)
    ensures
        entries_get(object_insert(e, k, v), k) == Some(v),
    decreases e.len(),
{
    if e.len() == 0 {
        lemma_get_cons((k, v), e, k);
        assert(seq![(k, v)] + e =~= seq![(k, v)]);
    } else if e[0].0 == k {
        lemma_get_cons((k, v), e.drop_first(), k);
    } else if seq_lt(k, e[0].0) {
        lemma_get_cons((k, v), e, k);
    } else {
        law_get_after_insert(e.drop_first(), k, v);
        lemma_get_cons(e[0], object_insert(e.drop_first(), k, v), k);
    }
}

/// Setting `k` leaves every other key of an object as it was.
pub proof fn law_get_other_after_insert(
    e: Seq<(Seq<char>, JsonV)>,
    k: Seq<char>,
    v: JsonV,
    other: Seq<char>,
)
    requires
        other != k,
    ensures
        entries_get(object_insert(e, k, v), other) == entries_get(e, other),
    decreases e.len(),
{
    if e.len() == 0 {
        lemma_get_cons((k, v), e, other);
    } else if e[0].0 == k {
        lemma_get_cons((k, v), e.drop_first(), other);
    } else if seq_lt(k, e[0].0) {
        lemma_get_cons((k, v), e, other);
    } else {
        law_get_other_after_insert(e.drop_first(), k, v, other);
        lemma_get_cons(e[0], object_insert(e.drop_first(), k, v), other);
    }
}

/// After removing `k`, an object has no value for `k`.
pub proof fn law_get_after_remove(e: Seq<(Seq<char>, JsonV)>, k: Seq<char>)
    ensures
        entries_get(object_remove(e, k), k) is None,
    decreases e.len(),
{
    if e.len() > 0 {
        law_get_after_remove(e.drop_last(), k);
        if e.last().0 != k {
            lemma_get_push(object_remove(e.drop_last(), k), e.last(), k);
        }
    }
}

/// Removing `k` leaves every other key of an object as it was.
pub proof fn law_get_other_after_remove(e: Seq<(Seq<char>, JsonV)>, k: Seq<char>, other: Seq<char>)
    requires
        other != k,
    ensures
        entries_get(object_remove(e, k), other) == entries_get(e, other),
    decreases e.len(),
{
    if e.len() > 0 {
        law_get_other_after_remove(e.drop_last(), k, other);
        assert(e.drop_last().push(e.last()) =~= e);
        lemma_get_push(e.drop_last(), e.last(), other);
        if e.last().0 != k {
            lemma_get_push(object_remove(e.drop_last(), k), e.last(), other);
        }
    }
}

/// Whether no two entries share a key, as in every serde_json object.
pub open spec fn distinct_keys(e: Seq<(Seq<char>, JsonV)>) -> bool {
    forall|i: int, j: int|
        0 <= i < e.len() && 0 <= j < e.len() && i != j ==> (#[trigger] e[i]).0 != (#[trigger] e[j]).0
}

proof fn lemma_applied_token(cur: Seq<(Seq<char>, JsonV)>, te: Seq<(Seq<char>, JsonV)>, i: int)
    requires
        0 <= i < te.len(),
        distinct_keys(te),
    ensures
        entries_get(apply_tokens(cur, te), te[i].0) == if te[i].1 is Null {
            None::<JsonV>
        } else {
            Some(te[i].1)
        },
    decreases te.len(),
{
    let n = te.len();
    let p = te.drop_last();
    let c = apply_tokens(cur, p);
    let (k, v) = te.last();
    assert(te.last() == te[n - 1]);
    if i == n - 1 {
        if v is Null {
            law_get_after_remove(c, k);
        } else {
            law_get_after_insert(c, k, v);
        }
    } else {
        assert(te[i].0 != k);
        assert forall|a: int, b: int|
            0 <= a < p.len() && 0 <= b < p.len() && a != b implies (#[trigger] p[a]).0 != (
            #[trigger] p[b]).0 by {
            assert(p[a] == te[a]);
            assert(p[b] == te[b]);
        }
        assert(p[i] == te[i]);
        lemma_applied_token(cur, p, i);
        if v is Null {
            law_get_other_after_remove(c, k, te[i].0);
        } else {
            law_get_other_after_insert(c, k, v, te[i].0);
        }
    }
}

proof fn lemma_valid_finite(v: JsonV)
    requires
        json_valid(v),
    ensures
        json_finite(v),
    decreases v, 1nat,
{
    match v {
        JsonV::Array(x) => {
            lemma_items_valid_finite(x);
        },
        JsonV::Object(x) => {
            lemma_entries_valid_finite(x);
        },
        _ => {},
    }
}

proof fn lemma_items_valid_finite(x: Seq<JsonV>)
    requires
        items_valid(x),
    ensures
        items_finite(x),
    decreases x, 0nat,
{
    if x.len() > 0 {
        lemma_items_valid_finite(x.drop_last());
        lemma_valid_finite(x.last());
    }
}

proof fn lemma_entries_valid_finite(x: Seq<(Seq<char>, JsonV)>)
    requires
        entries_valid(x),
    ensures
        entries_finite(x),
    decreases x, 0nat,
{
    if x.len() > 0 {
        lemma_entries_valid_finite(x.drop_last());
        lemma_valid_finite(x.last().1);
    }
}

proof fn lemma_entries_valid_each(x: Seq<(Seq<char>, JsonV)>)
    requires
        entries_valid(x),
    ensures
        forall|i: int| 0 <= i < x.len() ==> json_finite((#[trigger] x[i]).1),
    decreases x.len(),
{
    if x.len() > 0 {
        let p = x.drop_last();
        lemma_entries_valid_each(p);
        lemma_valid_finite(x.last().1);
        assert forall|i: int| 0 <= i < x.len() implies json_finite((#[trigger] x[i]).1) by {
            if i < p.len() {
                assert(x[i] == p[i]);
            }
        }
    }
}

/// Publishing is idempotent: once a space took its tokens, the same tokens
/// again need no command.
pub proof fn law_publish_is_idempotent(workspace: JsonV, tokens: Seq<(Seq<char>, JsonV)>)
    requires
        with_tokens_spec(workspace, JsonV::Object(tokens)) is Ok,
        json_valid(JsonV::Object(tokens)),
    ensures
        publish_plan_spec(
            with_tokens_spec(workspace, JsonV::Object(tokens))->Ok_0,
            JsonV::Object(tokens),
        ) == Ok::<Option<Seq<Seq<char>>>, Seq<char>>(None),
{
    lemma_entries_valid_each(tokens);
    lemma_sorted_keys_distinct(tokens);
    let w2 = with_tokens_spec(workspace, JsonV::Object(tokens))->Ok_0;
    let we = workspace->Object_0;
    let cur = match entries_get(we, "tokens"@) {
        Some(JsonV::Object(c)) => c,
        _ => Seq::empty(),
    };
    let applied = apply_tokens(cur, tokens);
    assert(w2 == JsonV::Object(object_insert(we, "tokens"@, JsonV::Object(applied))));
    law_get_after_insert(we, "tokens"@, JsonV::Object(applied));
    assert forall|i: int| 0 <= i < tokens.len() implies json_eq(
        current_token(w2, (#[trigger] tokens[i]).0),
        tokens[i].1,
    ) by {
        lemma_applied_token(cur, tokens, i);
        law_json_eq_reflexive(tokens[i].1);
    }
    assert(tokens_current(w2, tokens));
}

// ---------------------------------------------------------------------------
// Key order of objects

proof fn lemma_insert_keys(e: Seq<(Seq<char>, JsonV)>, k: Seq<char>, v: JsonV)
    ensures
        entry_keys(object_insert(e, k, v)) == insert_sorted(entry_keys(e), k),
    decreases e.len(),
{
    let ke = entry_keys(e);
    if e.len() == 0 {
        assert(entry_keys(object_insert(e, k, v)) =~= seq![k]);
    } else {
        assert(ke[0] == e[0].0);
        assert(ke.drop_first() =~= entry_keys(e.drop_first()));
        if e[0].0 == k {
            assert(entry_keys(object_insert(e, k, v)) =~= ke);
        } else if seq_lt(k, e[0].0) {
            assert(entry_keys(object_insert(e, k, v)) =~= seq![k] + ke);
        } else {
            lemma_insert_keys(e.drop_first(), k, v);
            assert(entry_keys(object_insert(e, k, v)) =~= seq![e[0].0] + entry_keys(
                object_insert(e.drop_first(), k, v),
            ));
        }
    }
}

proof fn lemma_remove_keys(e: Seq<(Seq<char>, JsonV)>, k: Seq<char>)
    requires
        keys_sorted(e),
    ensures
        keys_sorted(object_remove(e, k)),
        forall|x: Seq<char>| #[trigger]
            entry_keys(object_remove(e, k)).contains(x) ==> entry_keys(e).contains(x),
    decreases e.len(),
{
    if e.len() > 0 {
        let p = e.drop_last();
        let kp = entry_keys(p);
        let ke = entry_keys(e);
        assert(kp =~= ke.drop_last());
        assert forall|i: int, j: int| 0 <= i < j < kp.len() implies seq_lt(
            #[trigger] kp[i],
            #[trigger] kp[j],
        ) by {
            assert(kp[i] == ke[i] && kp[j] == ke[j]);
        }
        lemma_remove_keys(p, k);
        let r = object_remove(p, k);
        let kr = entry_keys(r);
        assert forall|x: Seq<char>| #[trigger] kr.contains(x) implies ke.contains(x) by {
            assert(kp.contains(x));
            let i = choose|i: int| 0 <= i < kp.len() && kp[i] == x;
            assert(ke[i] == x);
        }
        if e.last().0 != k {
            let r2 = r.push(e.last());
            let kr2 = entry_keys(r2);
            assert(kr2 =~= kr.push(e.last().0));
            assert forall|i: int, j: int| 0 <= i < j < kr2.len() implies seq_lt(
                #[trigger] kr2[i],
                #[trigger] kr2[j],
            ) by {
                if j == kr2.len() - 1 {
                    assert(kr.contains(kr2[i]));
                    assert(kp.contains(kr2[i]));
                    let m = choose|m: int| 0 <= m < kp.len() && kp[m] == kr2[i];
                    assert(ke[m] == kr2[i]);
                    assert(ke[e.len() - 1] == e.last().0);
                } else {
                    assert(kr2[i] == kr[i] && kr2[j] == kr[j]);
                }
            }
            assert forall|x: Seq<char>| #[trigger] kr2.contains(x) implies ke.contains(x) by {
                let i = choose|i: int| 0 <= i < kr2.len() && kr2[i] == x;
                if i == kr2.len() - 1 {
                    assert(ke[e.len() - 1] == x);
                } else {
                    assert(kr[i] == x);
                    assert(kr.contains(x));
                }
            }
        }
    }
}

proof fn lemma_apply_keys(cur: Seq<(Seq<char>, JsonV)>, te: Seq<(Seq<char>, JsonV)>)
    requires
        keys_sorted(cur),
    ensures
        keys_sorted(apply_tokens(cur, te)),
    decreases te.len(),
{
    if te.len() > 0 {
        lemma_apply_keys(cur, te.drop_last());
        let c = apply_tokens(cur, te.drop_last());
        let (k, v) = te.last();
        if v is Null {
            lemma_remove_keys(c, k);
        } else {
            lemma_insert_keys(c, k, v);
            lemma_insert_sorted_sorted(entry_keys(c), k);
        }
    }
}

/// Publishing keeps a workspace's keys, and those of its tokens, in the
/// strictly increasing order that serde_json keeps.
pub proof fn law_publish_keeps_key_order(workspace: Seq<(Seq<char>, JsonV)>, tokens: Seq<(Seq<char>, JsonV)>)
    requires
        with_tokens_spec(JsonV::Object(workspace), JsonV::Object(tokens)) is Ok,
        keys_sorted(workspace),
        entries_get(workspace, "tokens"@) matches Some(JsonV::Object(cur)) ==> keys_sorted(cur),
    ensures
        with_tokens_spec(JsonV::Object(workspace), JsonV::Object(tokens)) matches Ok(
            JsonV::Object(updated),
        ) && keys_sorted(updated) && (entries_get(updated, "tokens"@) matches Some(
            JsonV::Object(published),
        ) && keys_sorted(published)),
{
    let cur = match entries_get(workspace, "tokens"@) {
        Some(JsonV::Object(c)) => c,
        _ => Seq::empty(),
    };
    assert(keys_sorted(cur)) by {
        if cur.len() == 0 {
            assert(entry_keys(cur).len() == 0);
        }
    }
    lemma_apply_keys(cur, tokens);
    let applied = JsonV::Object(apply_tokens(cur, tokens));
    lemma_insert_keys(workspace, "tokens"@, applied);
    lemma_insert_sorted_sorted(entry_keys(workspace), "tokens"@);
    law_get_after_insert(workspace, "tokens"@, applied);
}


proof fn lemma_seq_lt_irreflexive(a: Seq<char>)
    ensures
        !seq_lt(a, a),
    decreases a.len(),
{
    if a.len() > 0 {
        lemma_seq_lt_irreflexive(a.drop_first());
    }
}

/// Keys in strictly increasing order are distinct.
proof fn lemma_sorted_keys_distinct(e: Seq<(Seq<char>, JsonV)>)
    requires
        keys_sorted(e),
    ensures
        distinct_keys(e),
{
    let ks = entry_keys(e);
    assert forall|i: int, j: int|
        0 <= i < e.len() && 0 <= j < e.len() && i != j implies (#[trigger] e[i]).0 != (
        #[trigger] e[j]).0 by {
        assert(ks[i] == e[i].0);
        assert(ks[j] == e[j].0);
        lemma_seq_lt_irreflexive(e[i].0);
        if i < j {
            assert(seq_lt(ks[i], ks[j]));
        } else {
            assert(seq_lt(ks[j], ks[i]));
        }
    }
}

/// Whether every value of an object's entries is valid.
pub open spec fn values_valid(e: Seq<(Seq<char>, JsonV)>) -> bool {
    forall|i: int| 0 <= i < e.len() ==> json_valid((#[trigger] e[i]).1)
}

proof fn lemma_entries_valid_values(e: Seq<(Seq<char>, JsonV)>)
    ensures
        entries_valid(e) <==> values_valid(e),
    decreases e.len(),
{
    if e.len() > 0 {
        let p = e.drop_last();
        lemma_entries_valid_values(p);
        assert forall|i: int| 0 <= i < p.len() implies p[i] == e[i] by {}
        assert(e.last() == e[e.len() - 1]);
        if values_valid(e) {
            assert forall|i: int| 0 <= i < p.len() implies json_valid((#[trigger] p[i]).1) by {
                assert(p[i] == e[i]);
            }
        }
        if entries_valid(e) {
            assert forall|i: int| 0 <= i < e.len() implies json_valid((#[trigger] e[i]).1) by {
                if i < p.len() {
                    assert(p[i] == e[i]);
                }
            }
        }
    }
}

proof fn lemma_insert_values(e: Seq<(Seq<char>, JsonV)>, k: Seq<char>, v: JsonV)
    requires
        values_valid(e),
        json_valid(v),
    ensures
        values_valid(object_insert(e, k, v)),
    decreases e.len(),
{
    let r = object_insert(e, k, v);
    if e.len() == 0 {
        assert(r[0] == (k, v));
    } else if e[0].0 == k || seq_lt(k, e[0].0) {
        assert forall|i: int| 0 <= i < r.len() implies json_valid((#[trigger] r[i]).1) by {
            if i > 0 {
                if e[0].0 == k {
                    assert(r[i] == e[i]);
                } else {
                    assert(r[i] == e[i - 1]);
                }
            }
        }
    } else {
        let t = e.drop_first();
        assert forall|i: int| 0 <= i < t.len() implies json_valid((#[trigger] t[i]).1) by {
            assert(t[i] == e[i + 1]);
        }
        lemma_insert_values(t, k, v);
        let q = object_insert(t, k, v);
        assert forall|i: int| 0 <= i < r.len() implies json_valid((#[trigger] r[i]).1) by {
            if i > 0 {
                assert(r[i] == q[i - 1]);
            } else {
                assert(r[0] == e[0]);
            }
        }
    }
}

proof fn lemma_remove_values(e: Seq<(Seq<char>, JsonV)>, k: Seq<char>)
    requires
        values_valid(e),
    ensures
        values_valid(object_remove(e, k)),
    decreases e.len(),
{
    if e.len() > 0 {
        let p = e.drop_last();
        assert forall|i: int| 0 <= i < p.len() implies json_valid((#[trigger] p[i]).1) by {
            assert(p[i] == e[i]);
        }
        lemma_remove_values(p, k);
        let q = object_remove(p, k);
        if e.last().0 != k {
            let r = q.push(e.last());
            assert forall|i: int| 0 <= i < r.len() implies json_valid((#[trigger] r[i]).1) by {
                if i < q.len() {
                    assert(r[i] == q[i]);
                } else {
                    assert(e.last() == e[e.len() - 1]);
                }
            }
        }
    }
}

proof fn lemma_apply_values(cur: Seq<(Seq<char>, JsonV)>, te: Seq<(Seq<char>, JsonV)>)
    requires
        values_valid(cur),
        values_valid(te),
    ensures
        values_valid(apply_tokens(cur, te)),
    decreases te.len(),
{
    if te.len() > 0 {
        let p = te.drop_last();
        assert forall|i: int| 0 <= i < p.len() implies json_valid((#[trigger] p[i]).1) by {
            assert(p[i] == te[i]);
        }
        lemma_apply_values(cur, p);
        let c = apply_tokens(cur, p);
        let (k, v) = te.last();
        assert(te.last() == te[te.len() - 1]);
        if v is Null {
            lemma_remove_values(c, k);
        } else {
            lemma_insert_values(c, k, v);
        }
    }
}

proof fn lemma_get_value_valid(e: Seq<(Seq<char>, JsonV)>, k: Seq<char>)
    requires
        values_valid(e),
    ensures
        entries_get(e, k) matches Some(v) ==> json_valid(v),
    decreases e.len(),
{
    if e.len() > 0 {
        assert(json_valid(e[0].1));
        let t = e.drop_first();
        assert forall|i: int| 0 <= i < t.len() implies json_valid((#[trigger] t[i]).1) by {
            assert(t[i] == e[i + 1]);
        }
        lemma_get_value_valid(t, k);
    }
}

/// Publishing keeps a valid workspace valid: with valid tokens, the
/// workspace that took them is again a value as serde_json holds one, so
/// publishing can go on from it.
pub proof fn law_publish_keeps_values_valid(workspace: JsonV, tokens: JsonV)
    requires
        json_valid(workspace),
        json_valid(tokens),
        with_tokens_spec(workspace, tokens) is Ok,
    ensures
        json_valid(with_tokens_spec(workspace, tokens)->Ok_0),
{
    let we = workspace->Object_0;
    let te = tokens->Object_0;
    lemma_entries_valid_values(we);
    lemma_entries_valid_values(te);
    lemma_get_value_valid(we, "tokens"@);
    let cur = match entries_get(we, "tokens"@) {
        Some(JsonV::Object(c)) => c,
        _ => Seq::empty(),
    };
    lemma_entries_valid_values(cur);
    law_publish_keeps_key_order(we, te);
    lemma_apply_values(cur, te);
    let applied = apply_tokens(cur, te);
    lemma_entries_valid_values(applied);
    law_get_after_insert(we, "tokens"@, JsonV::Object(applied));
    assert(json_valid(JsonV::Object(applied)));
    lemma_insert_values(we, "tokens"@, JsonV::Object(applied));
    let updated = object_insert(we, "tokens"@, JsonV::Object(applied));
    lemma_entries_valid_values(updated);
}

proof fn lemma_tokens_object_valid(space: Option<Seq<char>>, branch: Option<Seq<char>>)
    ensures
        json_valid(tokens_object(space, branch)),
{
    let e = tokens_object(space, branch)->Object_0;
    let a = "short_branch"@;
    let b = "short_space"@;
    reveal_strlit("short_branch");
    reveal_strlit("short_space");
    assert(seq_lt(a, b)) by {
        assert(a[0] == b[0] && a[1] == b[1] && a[2] == b[2] && a[3] == b[3] && a[4] == b[4]
            && a[5] == b[5]);
        assert(a[6] == 'b' && b[6] == 's');
        lemma_seq_lt_prefix(a, b, 6);
    }
    let ks = entry_keys(e);
    assert(ks[0] == a && ks[1] == b);
    assert(keys_sorted(e));
    assert forall|i: int| 0 <= i < e.len() implies json_valid((#[trigger] e[i]).1) by {
        assert(e[i].1 is Str || e[i].1 is Null);
    }
    lemma_entries_valid_values(e);
}

proof fn lemma_seq_lt_prefix(a: Seq<char>, b: Seq<char>, n: int)
    requires
        0 <= n < a.len(),
        n < b.len(),
        forall|i: int| 0 <= i < n ==> a[i] == b[i],
        a[n] < b[n],
    ensures
        seq_lt(a, b),
    decreases n,
{
    if n > 0 {
        lemma_seq_lt_prefix(a.drop_first(), b.drop_first(), n - 1);
    }
}

/// The tokens that the library makes for a space, first labels and display
/// labels alike, are values as serde_json holds them.
pub proof fn law_made_tokens_valid(
    workspace: JsonV,
    hint: Option<JsonV>,
    branch: Option<Seq<char>>,
    indented: bool,
    formatter: FormatterView,
    renamed: bool,
)
    ensures
        labels_spec(workspace, hint, branch, indented, formatter, renamed) matches Ok(t)
            ==> json_valid(t),
        initial_tokens_spec(workspace) matches Ok(t) ==> json_valid(t),
{
    match labels_spec(workspace, hint, branch, indented, formatter, renamed) {
        Ok(t) => {
            let name_branch = nonempty_branch(branch);
            // Both outcomes are a tokens object.
            assert(exists|s: Option<Seq<char>>, b: Option<Seq<char>>| t == tokens_object(s, b))
                by {
                match text_field_spec(workspace, "label"@) {
                    Ok(label) => {
                        let name = if indented && automatic_name(hint) && !renamed
                            && name_branch is Some {
                            format_spec(formatter, name_branch->0)
                        } else {
                            Ok(label)
                        };
                        let n = name->Ok_0;
                        if !indented && name_branch is Some {
                            let fb = format_spec(formatter, name_branch->0)->Ok_0;
                            assert(t == tokens_object(
                                token_text_spec(Some(n)),
                                token_text_spec(Some(fb)),
                            ));
                        } else {
                            assert(t == tokens_object(token_text_spec(Some(n)), None));
                        }
                    },
                    Err(_) => {},
                }
            }
            let (s, b) = choose|s: Option<Seq<char>>, b: Option<Seq<char>>| t == tokens_object(s, b);
            lemma_tokens_object_valid(s, b);
        },
        Err(_) => {},
    }
    match initial_tokens_spec(workspace) {
        Ok(t) => {
            let e = t->Object_0;
            assert(entry_keys(e).len() == 1);
            assert(keys_sorted(e));
            assert forall|i: int| 0 <= i < e.len() implies json_valid((#[trigger] e[i]).1) by {
                assert(e[i].1 is Str || e[i].1 is Null);
            }
            lemma_entries_valid_values(e);
        },
        Err(_) => {},
    }
}


/// Publishing the tokens that the library makes for a space is idempotent
/// on every workspace: once the space took them, the same tokens again need
/// no command.
pub proof fn law_publishing_made_tokens_is_idempotent(
    workspace: JsonV,
    hint: Option<JsonV>,
    branch: Option<Seq<char>>,
    indented: bool,
    formatter: FormatterView,
    renamed: bool,
    published: JsonV,
)
    requires
        labels_spec(workspace, hint, branch, indented, formatter, renamed) matches Ok(t)
            && with_tokens_spec(published, t) is Ok,
    ensures
        labels_spec(workspace, hint, branch, indented, formatter, renamed) matches Ok(t)
            && publish_plan_spec(with_tokens_spec(published, t)->Ok_0, t) == Ok::<
            Option<Seq<Seq<char>>>,
            Seq<char>,
        >(None),
{
    law_made_tokens_valid(workspace, hint, branch, indented, formatter, renamed);
    let t = labels_spec(workspace, hint, branch, indented, formatter, renamed)->Ok_0;
    law_publish_is_idempotent(published, t->Object_0);
}

/// Publishing the first label of a space is idempotent on every workspace:
/// once the space took it, the same token again needs no command.
pub proof fn law_publishing_first_label_is_idempotent(workspace: JsonV, published: JsonV)
    requires
        initial_tokens_spec(workspace) matches Ok(t) && with_tokens_spec(published, t) is Ok,
    ensures
        initial_tokens_spec(workspace) matches Ok(t) && publish_plan_spec(
            with_tokens_spec(published, t)->Ok_0,
            t,
        ) == Ok::<Option<Seq<Seq<char>>>, Seq<char>>(None),
{
    law_made_tokens_valid(
        workspace,
        None,
        None,
        false,
        FormatterView { pattern: None, replacement: Seq::empty() },
        false,
    );
    let t = initial_tokens_spec(workspace)->Ok_0;
    law_publish_is_idempotent(published, t->Object_0);
}


// ---------------------------------------------------------------------------
// What a refresh decides for each space

/// What a space shows under a token key: its published value, `null` where
/// it has none.
pub open spec fn shown_token(workspace: JsonV, key: Seq<char>) -> JsonV {
    match workspace.get("tokens"@) {
        Some(t) => match t.get(key) {
            Some(v) => v,
            None => JsonV::Null,
        },
        None => JsonV::Null,
    }
}

/// Publishing sends no command only where the space already shows every
/// token, each with its value.
pub proof fn law_no_command_only_when_every_token_is_shown(
    workspace: JsonV,
    tokens: Seq<(Seq<char>, JsonV)>,
)
    ensures
        publish_plan_spec(workspace, JsonV::Object(tokens)) == Ok::<
            Option<Seq<Seq<char>>>,
            Seq<char>,
        >(None) ==> forall|i: int|
            0 <= i < tokens.len() ==> json_eq(
                shown_token(workspace, (#[trigger] tokens[i]).0),
                tokens[i].1,
            ),
{
    if publish_plan_spec(workspace, JsonV::Object(tokens)) == Ok::<
        Option<Seq<Seq<char>>>,
        Seq<char>,
    >(None) {
        assert(tokens_current(workspace, tokens));
        assert forall|i: int| 0 <= i < tokens.len() implies json_eq(
            shown_token(workspace, (#[trigger] tokens[i]).0),
            tokens[i].1,
        ) by {
            assert(shown_token(workspace, tokens[i].0) == current_token(workspace, tokens[i].0));
        }
    }
}

/// Whether a display token, where there is one, is text or `null`.
pub open spec fn publishable(t: Option<JsonV>) -> bool {
    match t {
        None => true,
        Some(JsonV::Null) => true,
        Some(JsonV::Str(_)) => true,
        Some(_) => false,
    }
}

/// Whether a report command carries the token `key` of `tokens`: its text
/// as `key=text`, or its clearing for `null`.
pub open spec fn carries(args: Seq<Seq<char>>, tokens: JsonV, key: Seq<char>) -> bool {
    match tokens.get(key) {
        Some(JsonV::Str(v)) => args.contains("--token"@) && args.contains(key + "="@ + v),
        Some(JsonV::Null) => args.contains("--clear-token"@) && args.contains(key),
        _ => true,
    }
}

proof fn lemma_token_arguments_carried(tokens: JsonV, key: Seq<char>, args: Seq<Seq<char>>, at: int)
    requires
        token_arguments(tokens, key) matches Ok(a) && 0 <= at && at + a.len() <= args.len()
            && args.subrange(at, at + a.len()) == a,
    ensures
        carries(args, tokens, key),
{
    let a = token_arguments(tokens, key)->Ok_0;
    match tokens.get(key) {
        Some(JsonV::Str(v)) => {
            assert(args.subrange(at, at + a.len())[0] == args[at]);
            assert(args.subrange(at, at + a.len())[1] == args[at + 1]);
            assert(args[at] == "--token"@);
            assert(args[at + 1] == key + "="@ + v);
        },
        Some(JsonV::Null) => {
            assert(args.subrange(at, at + a.len())[0] == args[at]);
            assert(args.subrange(at, at + a.len())[1] == args[at + 1]);
            assert(args[at] == "--clear-token"@);
            assert(args[at + 1] == key);
        },
        _ => {},
    }
}

/// A space that does not show one of its tokens gets a report command: for
/// its id and this plugin's source, carrying the space token and the branch
/// token.
pub proof fn law_changed_token_is_published(
    workspace: JsonV,
    tokens: Seq<(Seq<char>, JsonV)>,
    i: int,
    id: Seq<char>,
)
    requires
        0 <= i < tokens.len(),
        !json_eq(shown_token(workspace, tokens[i].0), tokens[i].1),
        workspace.str_field("workspace_id"@) == Some(id),
        publishable(JsonV::Object(tokens).get("short_space"@)),
        publishable(JsonV::Object(tokens).get("short_branch"@)),
    ensures
        publish_plan_spec(workspace, JsonV::Object(tokens)) matches Ok(Some(args)) && args.take(5)
            == seq!["workspace"@, "report-metadata"@, id, "--source"@, crate::SOURCE@] && carries(
            args,
            JsonV::Object(tokens),
            "short_space"@,
        ) && carries(args, JsonV::Object(tokens), "short_branch"@),
{
    let t = JsonV::Object(tokens);
    assert(shown_token(workspace, tokens[i].0) == current_token(workspace, tokens[i].0));
    assert(!tokens_current(workspace, tokens));
    let a = token_arguments(t, "short_space"@)->Ok_0;
    let b = token_arguments(t, "short_branch"@)->Ok_0;
    let prefix = seq!["workspace"@, "report-metadata"@, id, "--source"@, crate::SOURCE@];
    let args = prefix + a + b;
    assert(publish_plan_spec(workspace, t) == Ok::<Option<Seq<Seq<char>>>, Seq<char>>(Some(args)));
    assert(args.take(5) =~= prefix);
    let la = a.len() as int;
    let lb = b.len() as int;
    assert(args.subrange(5, 5 + la) =~= a);
    assert(args.subrange(5 + la, 5 + la + lb) =~= b);
    lemma_token_arguments_carried(t, "short_space"@, args, 5);
    lemma_token_arguments_carried(t, "short_branch"@, args, 5 + la);
}

/// A word of printable characters, without control characters or
/// whitespace, is its own sidebar token, cut to [`TOKEN_LIMIT`] characters.
pub proof fn law_printable_word_is_its_own_token(s: Seq<char>)
    requires
        s.len() > 0,
        forall|i: int|
            0 <= i < s.len() ==> #[trigger] s[i] >= ' ' && !('\u{7f}' <= s[i] && s[i] <= '\u{9f}')
                && !is_white_space(s[i]),
    ensures
        token_text_spec(Some(s)) == Some(
            if s.len() <= TOKEN_LIMIT {
                s
            } else {
                s.take(TOKEN_LIMIT as int)
            },
        ),
{
    assert forall|i: int| 0 <= i < s.len() implies is_visible(#[trigger] s[i]) by {}
    lemma_visible_chars_keep(s);
    assert(token_shape(s));
    lemma_collapse_token(s);
    assert(s.last() == s[s.len() - 1]);
    assert(trim_end(s) == s);
}

/// A space shows its formatted branch as its branch token exactly when its
/// own id is not among the indented ones; an indented space shows none.
pub proof fn law_space_branch_token_follows_own_indentation(
    workspace: JsonV,
    saved: Map<Seq<char>, JsonV>,
    branch: Seq<char>,
    indented: Set<Seq<char>>,
    formatter: FormatterView,
    renamed: Option<Seq<char>>,
    id: Seq<char>,
)
    requires
        workspace.str_field("workspace_id"@) == Some(id),
        branch.len() > 0,
        space_tokens_spec(workspace, saved, Some(branch), indented, formatter, renamed) is Ok,
    ensures
        !indented.contains(id) ==> (format_spec(formatter, branch) matches Ok(b)
            && space_tokens_spec(
            workspace,
            saved,
            Some(branch),
            indented,
            formatter,
            renamed,
        )->Ok_0.get("short_branch"@) == Some(token_value(token_text_spec(Some(b))))),
        indented.contains(id) ==> space_tokens_spec(
            workspace,
            saved,
            Some(branch),
            indented,
            formatter,
            renamed,
        )->Ok_0.get("short_branch"@) == Some(JsonV::Null),
{
    let hint = hint_for(saved, id);
    let r = renamed == Some(id);
    if indented.contains(id) {
        law_no_branch_token(workspace, hint, Some(branch), true, formatter, r);
    } else {
        law_root_branch_token(workspace, hint, branch, formatter, r);
    }
}

/// A hint whose custom name is text is current exactly when the space's
/// label is that name.
pub proof fn law_custom_name_hint_matches_label(workspace: JsonV, hint: JsonV, name: Seq<char>)
    requires
        hint.get("custom_name"@) == Some(JsonV::Str(name)),
    ensures
        current_hint_spec(workspace, Some(hint)) == (workspace.str_field("label"@) == Some(name)),
{
}

/// The current hints are exactly the saved hints of live spaces that still
/// describe them, each kept under its space's id unchanged.
pub proof fn law_current_hints_are_the_current_saved_ones(
    saved: Map<Seq<char>, JsonV>,
    ws: Seq<JsonV>,
)
    requires
        current_hints_spec(saved, ws) is Ok,
    ensures
        forall|i: int, id: Seq<char>|
            0 <= i < ws.len() && (#[trigger] ws[i]).str_field("workspace_id"@) == Some(id)
                && saved.contains_key(id) && current_hint_spec(ws[i], Some(saved[id]))
                ==> #[trigger] current_hints_spec(saved, ws)->Ok_0.contains_key(id),
        forall|id: Seq<char>|
            #[trigger] current_hints_spec(saved, ws)->Ok_0.contains_key(id) ==> saved.contains_key(
                id,
            ) && current_hints_spec(saved, ws)->Ok_0[id] == saved[id] && exists|i: int|
                0 <= i < ws.len() && (#[trigger] ws[i]).str_field("workspace_id"@) == Some(id)
                    && current_hint_spec(ws[i], Some(saved[id])),
    decreases ws.len(),
{
    if ws.len() > 0 {
        let p = ws.drop_last();
        law_current_hints_are_the_current_saved_ones(saved, p);
        let m0 = current_hints_spec(saved, p)->Ok_0;
        let m = current_hints_spec(saved, ws)->Ok_0;
        let n = ws.len() - 1;
        assert(ws.last() == ws[n]);
        assert forall|i: int, id: Seq<char>|
            0 <= i < ws.len() && (#[trigger] ws[i]).str_field("workspace_id"@) == Some(id)
                && saved.contains_key(id) && current_hint_spec(ws[i], Some(saved[id]))
                implies #[trigger] m.contains_key(id) by {
            if i < n {
                assert(p[i] == ws[i]);
                assert(m0.contains_key(id));
            }
        }
        assert forall|id: Seq<char>| #[trigger] m.contains_key(id) implies saved.contains_key(id)
            && m[id] == saved[id] && exists|i: int|
            0 <= i < ws.len() && (#[trigger] ws[i]).str_field("workspace_id"@) == Some(id)
                && current_hint_spec(ws[i], Some(saved[id])) by {
            if m0.contains_key(id) && !(ws[n].str_field("workspace_id"@) == Some(id)
                && saved.contains_key(id) && current_hint_spec(ws[n], Some(saved[id]))) {
                let i = choose|i: int|
                    0 <= i < p.len() && (#[trigger] p[i]).str_field("workspace_id"@) == Some(id)
                        && current_hint_spec(p[i], Some(saved[id]));
                assert(ws[i] == p[i]);
            }
        }
    }
}

/// Whether a space's worktree names no checkout to use: no worktree, no
/// checkout path, or one that is not set.
pub open spec fn no_checkout(workspace: JsonV) -> bool {
    match workspace.get("worktree"@) {
        Some(t) => match t.get("checkout_path"@) {
            Some(c) => !truthy_spec(c),
            None => true,
        },
        None => true,
    }
}

/// Git is asked about a space's worktree checkout where it names a
/// non-empty one.
pub proof fn law_checkout_prefers_worktree(
    workspace: JsonV,
    saved: Map<Seq<char>, JsonV>,
    path: Seq<char>,
)
    requires
        workspace.get("worktree"@) matches Some(t) && t.get("checkout_path"@) == Some(
            JsonV::Str(path),
        ),
        path.len() > 0,
    ensures
        checkout_path_spec(workspace, saved) == Some(path),
{
}

/// Where a space names no checkout, with or without a worktree, Git is
/// asked about the identity directory of its saved hint.
pub proof fn law_checkout_falls_back_to_saved_directory(
    workspace: JsonV,
    saved: Map<Seq<char>, JsonV>,
    id: Seq<char>,
    cwd: Seq<char>,
)
    requires
        no_checkout(workspace),
        workspace.str_field("workspace_id"@) == Some(id),
        saved.contains_key(id),
        saved[id].get("identity_cwd"@) == Some(JsonV::Str(cwd)),
    ensures
        checkout_path_spec(workspace, saved) == Some(cwd),
{
}

} // verus!
