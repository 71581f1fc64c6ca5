//! The Herdr command protocol: what a command's outcome means, and how the
//! plugin publishes a space's tokens.
use vstd::prelude::*;

use crate::json::{entries_get, json_eq, Json, JsonV};
use crate::text::{chars_of, str_equal, trim, trim_chars, string_from_chars};
use crate::workspace::{seq_lt, str_less, strings_view, text_field, text_field_spec};

verus! {

/// A failed Herdr command: one that Herdr itself refused, or any other
/// failure (it could not run, or its reply was not understood).
#[derive(Debug)]
pub enum CallError {
    Runtime(String),
    Other(String),
}

/// The message of a failed command.
pub open spec fn call_error_text(e: CallError) -> Seq<char> {
    match e {
        CallError::Runtime(m) => m@,
        CallError::Other(m) => m@,
    }
}

impl CallError {
    /// The message of the failure.
    pub fn message(&self) -> (m: String)
        ensures
            m@ == call_error_text(*self),
    {
        match self {
            CallError::Runtime(m) => m.clone(),
            CallError::Other(m) => m.clone(),
        }
    }

    /// Whether Herdr itself refused the command.
    pub fn is_runtime(&self) -> (r: bool)
        ensures
            r == (*self is Runtime),
    {
        match self {
            CallError::Runtime(_) => true,
            CallError::Other(_) => false,
        }
    }
}

/// What a finished Herdr command's output calls for.
#[derive(Debug)]
pub enum CallStage {
    /// The command failed.
    Failed(CallError),
    /// A metadata report that printed nothing: it succeeded with an empty object.
    EmptyReport,
    /// The output is a JSON reply to be parsed.
    Parse,
}

/// Whether a command reports workspace metadata.
pub open spec fn is_report_call(args: Seq<Seq<char>>) -> bool {
    args.len() >= 2 && args[0] == "workspace"@ && args[1] == "report-metadata"@
}

/// The message of a command that exited unsuccessfully: its trimmed error
/// output, or a generic message where that is empty.
pub open spec fn failure_text(stderr: Seq<char>) -> Seq<char> {
    if trim(stderr).len() == 0 {
        "Herdr command failed"@
    } else {
        trim(stderr)
    }
}

/// What the outcome of a Herdr command calls for: a refusal with its error
/// output where it failed; an empty reply for a metadata report with no
/// output; otherwise the output is parsed.
pub fn call_stage(args: &[String], success: bool, stdout: &str, stderr: &str) -> (r: CallStage)
    ensures
        match r {
            CallStage::Failed(CallError::Runtime(m)) => !success && m@ == failure_text(stderr@),
            CallStage::Failed(CallError::Other(_)) => false,
            CallStage::EmptyReport => success && is_report_call(strings_view(args@)) && trim(
                stdout@,
            ).len() == 0,
            CallStage::Parse => success && !(is_report_call(strings_view(args@)) && trim(
                stdout@,
            ).len() == 0),
        },
{
    if !success {
        let e = trim_chars(&chars_of(stderr));
        if e.len() == 0 {
            return CallStage::Failed(CallError::Runtime("Herdr command failed".to_owned()));
        }
        return CallStage::Failed(CallError::Runtime(string_from_chars(e)));
    }
    let report = args.len() >= 2 && str_equal(args[0].as_str(), "workspace") && str_equal(
        args[1].as_str(),
        "report-metadata",
    );
    if report && trim_chars(&chars_of(stdout)).len() == 0 {
        CallStage::EmptyReport
    } else {
        CallStage::Parse
    }
}

/// What a parsed Herdr reply holds.
#[derive(Debug)]
pub enum Reply {
    /// The `error` member, where there is one.
    Error(Json),
    /// The `result` member, where there is no error.
    Result(Json),
    /// Neither.
    Missing,
}

/// The message of a reply with neither a result nor an error.
pub const MISSING_RESULT: &'static str = "missing Herdr result";

/// What a parsed reply holds: its error, else its result.
pub fn reply_of(response: &Json) -> (r: Reply)
    ensures
        match r {
            Reply::Error(e) => response@.get("error"@) == Some(e@),
            Reply::Result(v) => response@.get("error"@) is None && response@.get("result"@)
                == Some(v@),
            Reply::Missing => response@.get("error"@) is None && response@.get("result"@) is None,
        },
{
    match response.get("error") {
        Some(e) => Reply::Error(e.deep_copy()),
        None => match response.get("result") {
            Some(v) => Reply::Result(v.deep_copy()),
            None => Reply::Missing,
        },
    }
}

/// The workspaces of a `workspace list` result.
pub fn workspace_list(result: &Json) -> (r: Result<Vec<Json>, String>)
    ensures
        match r {
            Ok(v) => result@.get("workspaces"@) == Some(JsonV::Array(crate::workspace::json_views(v@))),
            Err(e) => !(result@.get("workspaces"@) matches Some(JsonV::Array(_))) && e@
                == "missing workspace list"@,
        },
{
    match result.get("workspaces") {
        Some(Json::Array(items)) => {
            let mut out: Vec<Json> = Vec::new();
            let n = items.len();
            let mut i: usize = 0;
            while i < n
                invariant
                    i <= n,
                    n == items@.len(),
                    out@.len() == i,
                    forall|k: int| 0 <= k < i ==> (#[trigger] out@[k])@ == items@[k]@,
                decreases n - i,
            {
                out.push(items[i].deep_copy());
                i = i + 1;
            }
            proof {
                crate::json::lemma_items_view(items@);
                assert(crate::workspace::json_views(out@) =~= crate::json::items_view(items@));
            }
            Ok(out)
        },
        _ => Err("missing workspace list".to_owned()),
    }
}

/// The message for a socket path that names no explicit session.
pub open spec fn socket_path_message() -> Seq<char> {
    "HERDR_SOCKET_PATH must identify an explicit Herdr session"@
}

/// Whether a socket path is absolute: on Unix, whether it starts with `/`.
pub open spec fn absolute_socket_path(path: Seq<u8>) -> bool {
    path.len() > 0 && path[0] == 47u8
}

/// Accepts only an absolute socket path, the one way that names an
/// explicit Herdr session.
pub fn check_socket_path(path: &[u8]) -> (r: Result<(), String>)
    ensures
        r is Ok <==> absolute_socket_path(path@),
        r matches Err(e) ==> e@ == socket_path_message(),
{
    if path.len() > 0 && path[0] == 47u8 {
        Ok(())
    } else {
        Err("HERDR_SOCKET_PATH must identify an explicit Herdr session".to_owned())
    }
}

/// The value of a space's published token `key`, `null` where it has none.
pub open spec fn current_token(workspace: JsonV, key: Seq<char>) -> JsonV {
    match workspace.get("tokens"@) {
        Some(t) => match t.get(key) {
            Some(v) => v,
            None => JsonV::Null,
        },
        None => JsonV::Null,
    }
}

/// Whether every token already has the value that the space shows.
pub open spec fn tokens_current(workspace: JsonV, tokens: Seq<(Seq<char>, JsonV)>) -> bool {
    forall|i: int|
        0 <= i < tokens.len() ==> json_eq(
            current_token(workspace, (#[trigger] tokens[i]).0),
            tokens[i].1,
        )
}

/// The command-line arguments that publish token `key`: none where the
/// tokens leave it out, a clearing for `null`, its text otherwise.
pub open spec fn token_arguments(tokens: JsonV, key: Seq<char>) -> Result<
    Seq<Seq<char>>,
    Seq<char>,
> {
    match tokens.get(key) {
        None => Ok(Seq::empty()),
        Some(JsonV::Null) => Ok(seq!["--clear-token"@, key]),
        Some(JsonV::Str(v)) => Ok(seq!["--token"@, key + "="@ + v]),
        Some(_) => Err("invalid token string"@),
    }
}

/// The `workspace report-metadata` command that publishes a space's tokens,
/// the space token before the branch token; `None` where every token is
/// already shown; the message of the first problem met.
pub open spec fn publish_plan_spec(workspace: JsonV, tokens: JsonV) -> Result<
    Option<Seq<Seq<char>>>,
    Seq<char>,
> {
    match tokens {
        JsonV::Object(te) => if tokens_current(workspace, te) {
            Ok(None)
        } else {
            match text_field_spec(workspace, "workspace_id"@) {
                Err(e) => Err(e),
                Ok(id) => match token_arguments(tokens, "short_space"@) {
                    Err(e) => Err(e),
                    Ok(a) => match token_arguments(tokens, "short_branch"@) {
                        Err(e) => Err(e),
                        Ok(b) => Ok(
                            Some(
                                seq![
                                    "workspace"@,
                                    "report-metadata"@,
                                    id,
                                    "--source"@,
                                    crate::SOURCE@,
                                ] + a + b,
                            ),
                        ),
                    },
                },
            }
        },
        _ => Err("invalid token object"@),
    }
}

fn add_token_arguments(tokens: &Json, key: &str, args: &mut Vec<String>) -> (r: Result<(), String>)
    ensures
        match token_arguments(tokens@, key@) {
            Ok(a) => r is Ok && strings_view(final(args)@) == strings_view(old(args)@) + a,
            Err(e) => r matches Err(f) && f@ == e,
        },
{
    match tokens.get(key) {
        None => {
            proof {
                assert(strings_view(args@) + Seq::<Seq<char>>::empty() =~= strings_view(args@));
            }
            Ok(())
        },
        Some(value) => {
            if value.is_null() {
                let ghost before = strings_view(args@);
                args.push("--clear-token".to_owned());
                args.push(key.to_owned());
                proof {
                    assert(strings_view(args@) =~= before + seq!["--clear-token"@, key@]);
                }
                Ok(())
            } else {
                match value.as_str() {
                    Some(text) => {
                        let ghost before = strings_view(args@);
                        let mut token = key.to_owned();
                        token.append("=");
                        token.append(text);
                        args.push("--token".to_owned());
                        args.push(token);
                        proof {
                            assert(strings_view(args@) =~= before + seq![
                                "--token"@,
                                key@ + "="@ + text@,
                            ]);
                        }
                        Ok(())
                    },
                    None => Err("invalid token string".to_owned()),
                }
            }
        },
    }
}

/// The current value of a space's token `key`.
fn current_token_of(workspace: &Json, key: &str) -> (r: Json)
    ensures
        r@ == current_token(workspace@, key@),
{
    match workspace.get("tokens") {
        Some(t) => match t.get(key) {
            Some(v) => v.deep_copy(),
            None => Json::Null,
        },
        None => Json::Null,
    }
}

/// The command that publishes `tokens` for a space, as
/// [`publish_plan_spec`] says.
pub fn publish_plan(workspace: &Json, tokens: &Json) -> (r: Result<Option<Vec<String>>, String>)
    ensures
        match r {
            Ok(Some(v)) => publish_plan_spec(workspace@, tokens@) == Ok::<
                Option<Seq<Seq<char>>>,
                Seq<char>,
            >(Some(strings_view(v@))),
            Ok(None) => publish_plan_spec(workspace@, tokens@) == Ok::<
                Option<Seq<Seq<char>>>,
                Seq<char>,
            >(None),
            Err(e) => publish_plan_spec(workspace@, tokens@) == Err::<
                Option<Seq<Seq<char>>>,
                Seq<char>,
            >(e@),
        },
{
    let entries = match tokens {
        Json::Object(entries) => entries,
        _ => {
            return Err("invalid token object".to_owned());
        },
    };
    let ghost te = crate::json::entries_view(entries@);
    proof {
        crate::json::lemma_entries_view(entries@);
    }
    let n = entries.len();
    let mut i: usize = 0;
    let mut current = true;
    while i < n
        invariant
            i <= n,
            n == entries@.len(),
            te == crate::json::entries_view(entries@),
            te.len() == n,
            tokens@ == JsonV::Object(te),
            forall|k: int|
                0 <= k < n ==> #[trigger] te[k] == (entries@[k].0@, entries@[k].1@),
            current ==> forall|k: int|
                0 <= k < i ==> json_eq(current_token(workspace@, (#[trigger] te[k]).0), te[k].1),
            !current ==> !tokens_current(workspace@, te),
        decreases n - i,
    {
        if current {
            let old_value = current_token_of(workspace, entries[i].0.as_str());
            if !old_value.equals(&entries[i].1) {
                current = false;
                proof {
                    assert(!json_eq(current_token(workspace@, te[i as int].0), te[i as int].1));
                }
            }
        }
        i = i + 1;
    }
    if current {
        return Ok(None);
    }
    let id = match text_field(workspace, "workspace_id") {
        Ok(id) => id,
        Err(e) => {
            return Err(e);
        },
    };
    let mut args: Vec<String> = Vec::new();
    args.push("workspace".to_owned());
    args.push("report-metadata".to_owned());
    args.push(id.to_owned());
    args.push("--source".to_owned());
    args.push(crate::SOURCE.to_owned());
    let ghost head = strings_view(args@);
    proof {
        assert(head =~= seq!["workspace"@, "report-metadata"@, id@, "--source"@, crate::SOURCE@]);
    }
    match add_token_arguments(tokens, "short_space", &mut args) {
        Ok(()) => {},
        Err(e) => {
            return Err(e);
        },
    }
    match add_token_arguments(tokens, "short_branch", &mut args) {
        Ok(()) => {},
        Err(e) => {
            return Err(e);
        },
    }
    Ok(Some(args))
}

/// Whether a listed workspace has the id `id`.
pub open spec fn listed(workspaces: Seq<JsonV>, id: Seq<char>) -> bool {
    exists|i: int|
        0 <= i < workspaces.len() && (#[trigger] workspaces[i]).str_field("workspace_id"@)
            == Some(id)
}

/// Whether a listed workspace has the id `id`.
pub fn workspace_listed(workspaces: &[Json], id: &str) -> (r: bool)
    ensures
        r == listed(crate::workspace::json_views(workspaces@), id@),
{
    let ghost wv = crate::workspace::json_views(workspaces@);
    let n = workspaces.len();
    let mut i: usize = 0;
    while i < n
        invariant
            i <= n,
            n == workspaces@.len(),
            wv == crate::workspace::json_views(workspaces@),
            forall|k: int| 0 <= k < i ==> (#[trigger] wv[k]).str_field("workspace_id"@) != Some(
                id@,
            ),
        decreases n - i,
    {
        match workspaces[i].get("workspace_id") {
            Some(v) => match v.as_str() {
                Some(s) => {
                    if str_equal(s, id) {
                        proof {
                            assert(wv[i as int].str_field("workspace_id"@) == Some(id@));
                        }
                        return true;
                    }
                },
                None => {},
            },
            None => {},
        }
        i = i + 1;
    }
    false
}

/// The outcome of a publish command that failed: nothing published, and no
/// error, where Herdr refused it for a space that is no longer listed (it
/// was closed meanwhile); the failure's message otherwise.
pub open spec fn failed_publish_spec(error: CallError, still_listed: bool) -> Result<bool, Seq<char>> {
    if error is Runtime && !still_listed {
        Ok(false)
    } else {
        Err(call_error_text(error))
    }
}

/// The outcome of a publish command that failed, as
/// [`failed_publish_spec`] says.
pub fn failed_publish(error: CallError, still_listed: bool) -> (r: Result<bool, String>)
    ensures
        match r {
            Ok(b) => failed_publish_spec(error, still_listed) == Ok::<bool, Seq<char>>(b),
            Err(e) => failed_publish_spec(error, still_listed) == Err::<bool, Seq<char>>(e@),
        },
{
    if error.is_runtime() && !still_listed {
        Ok(false)
    } else {
        Err(error.message())
    }
}

/// `k` set to `v` in the entries of an object kept in key order: the first
/// entry with `k` gets the value, else a new entry goes before the first
/// greater key.
pub open spec fn object_insert(e: Seq<(Seq<char>, JsonV)>, k: Seq<char>, v: JsonV) -> Seq<
    (Seq<char>, JsonV),
>
    decreases e.len(),
{
    if e.len() == 0 {
        seq![(k, v)]
    } else if e[0].0 == k {
        seq![(k, v)] + e.drop_first()
    } else if seq_lt(k, e[0].0) {
        seq![(k, v)] + e
    } else {
        seq![e[0]] + object_insert(e.drop_first(), k, v)
    }
}

/// The entries of an object without those with key `k`.
pub open spec fn object_remove(e: Seq<(Seq<char>, JsonV)>, k: Seq<char>) -> Seq<
    (Seq<char>, JsonV),
>
    decreases e.len(),
{
    if e.len() == 0 {
        e
    } else if e.last().0 == k {
        object_remove(e.drop_last(), k)
    } else {
        object_remove(e.drop_last(), k).push(e.last())
    }
}

/// A space's token entries after publishing `tokens` in order: a `null`
/// token is removed, any other set.
pub open spec fn apply_tokens(current: Seq<(Seq<char>, JsonV)>, tokens: Seq<(Seq<char>, JsonV)>) -> Seq<
    (Seq<char>, JsonV),
>
    decreases tokens.len(),
{
    if tokens.len() == 0 {
        current
    } else {
        let c = apply_tokens(current, tokens.drop_last());
        let (k, v) = tokens.last();
        if v is Null {
            object_remove(c, k)
        } else {
            object_insert(c, k, v)
        }
    }
}

/// A workspace after `tokens` were published for it: its `tokens` member,
/// made where it had none, updated; the message where the workspace or its
/// tokens are not objects.
pub open spec fn with_tokens_spec(workspace: JsonV, tokens: JsonV) -> Result<JsonV, Seq<char>> {
    match tokens {
        JsonV::Object(te) => match workspace {
            JsonV::Object(we) => match entries_get(we, "tokens"@) {
                None => Ok(
                    JsonV::Object(
                        object_insert(we, "tokens"@, JsonV::Object(apply_tokens(Seq::empty(), te))),
                    ),
                ),
                Some(JsonV::Object(cur)) => Ok(
                    JsonV::Object(object_insert(we, "tokens"@, JsonV::Object(apply_tokens(cur, te)))),
                ),
                Some(_) => Err("invalid workspace tokens"@),
            },
            _ => Err("invalid workspace"@),
        },
        _ => Err("invalid token object"@),
    }
}

proof fn lemma_object_insert_split(e: Seq<(Seq<char>, JsonV)>, k: Seq<char>, v: JsonV, i: int)
    requires
        0 <= i <= e.len(),
        forall|j: int| 0 <= j < i ==> (#[trigger] e[j]).0 != k && !seq_lt(k, e[j].0),
    ensures
        object_insert(e, k, v) == e.take(i) + object_insert(e.skip(i), k, v),
    decreases i,
{
    if i > 0 {
        assert(e.drop_first().skip(i - 1) =~= e.skip(i));
        assert(e[0].0 != k && !seq_lt(k, e[0].0));
        lemma_object_insert_split(e.drop_first(), k, v, i - 1);
        assert(e.take(i) =~= seq![e[0]] + e.drop_first().take(i - 1));
        assert(object_insert(e, k, v) =~= e.take(i) + object_insert(e.skip(i), k, v));
    } else {
        assert(e.skip(0) =~= e);
        assert(e.take(0) + object_insert(e, k, v) =~= object_insert(e, k, v));
    }
}

/// Sets `k` to `v` in object entries kept in key order.
pub fn entries_insert(e: &mut Vec<(String, Json)>, k: String, v: Json)
    ensures
        crate::json::entries_view(final(e)@) == object_insert(
            crate::json::entries_view(old(e)@),
            k@,
            v@,
        ),
{
    let ghost ev = crate::json::entries_view(e@);
    proof {
        crate::json::lemma_entries_view(e@);
    }
    let n = e.len();
    let mut i: usize = 0;
    while i < n
        invariant
            i <= n,
            n == e@.len(),
            e@ == old(e)@,
            ev == crate::json::entries_view(e@),
            ev.len() == n,
            forall|j: int| 0 <= j < n ==> #[trigger] ev[j] == (e@[j].0@, e@[j].1@),
            forall|j: int| 0 <= j < i ==> (#[trigger] ev[j]).0 != k@ && !seq_lt(k@, ev[j].0),
        decreases n - i,
    {
        let same = str_equal(e[i].0.as_str(), k.as_str());
        let before = str_less(k.as_str(), e[i].0.as_str());
        if same || before {
            proof {
                lemma_object_insert_split(ev, k@, v@, i as int);
                assert(ev.skip(i as int)[0] == ev[i as int]);
            }
            if same {
                e.remove(i);
            }
            e.insert(i, (k, v));
            proof {
                crate::json::lemma_entries_view(e@);
                if same {
                    assert(ev.skip(i as int).drop_first() =~= ev.skip(i + 1));
                    assert(crate::json::entries_view(e@) =~= ev.take(i as int) + (seq![(k@, v@)]
                        + ev.skip(i as int).drop_first()));
                } else {
                    assert(crate::json::entries_view(e@) =~= ev.take(i as int) + (seq![(k@, v@)]
                        + ev.skip(i as int)));
                }
            }
            return;
        }
        i = i + 1;
    }
    proof {
        lemma_object_insert_split(ev, k@, v@, n as int);
        assert(ev.skip(n as int) =~= Seq::<(Seq<char>, JsonV)>::empty());
    }
    e.push((k, v));
    proof {
        crate::json::lemma_entries_view(e@);
        assert(crate::json::entries_view(e@) =~= ev.take(n as int) + seq![(k@, v@)]);
    }
}

/// The object entries without those with key `k`.
pub fn entries_remove(e: &Vec<(String, Json)>, k: &str) -> (r: Vec<(String, Json)>)
    ensures
        crate::json::entries_view(r@) == object_remove(crate::json::entries_view(e@), k@),
{
    let ghost ev = crate::json::entries_view(e@);
    proof {
        crate::json::lemma_entries_view(e@);
        assert(ev.take(0) =~= Seq::<(Seq<char>, JsonV)>::empty());
    }
    let n = e.len();
    let mut out: Vec<(String, Json)> = Vec::new();
    let mut i: usize = 0;
    while i < n
        invariant
            i <= n,
            n == e@.len(),
            ev == crate::json::entries_view(e@),
            ev.len() == n,
            forall|j: int| 0 <= j < n ==> #[trigger] ev[j] == (e@[j].0@, e@[j].1@),
            crate::json::entries_view(out@) == object_remove(ev.take(i as int), k@),
        decreases n - i,
    {
        proof {
            assert(ev.take(i + 1).drop_last() =~= ev.take(i as int));
            assert(ev.take(i + 1).last() == ev[i as int]);
        }
        if !str_equal(e[i].0.as_str(), k) {
            let ghost before = out@;
            out.push((e[i].0.clone(), e[i].1.deep_copy()));
            proof {
                crate::json::lemma_entries_view(before);
                crate::json::lemma_entries_view(out@);
                assert(crate::json::entries_view(out@) =~= crate::json::entries_view(before).push(
                    ev[i as int],
                ));
            }
        }
        i = i + 1;
    }
    proof {
        assert(ev.take(n as int) =~= ev);
    }
    out
}

fn copy_entries(e: &Vec<(String, Json)>) -> (r: Vec<(String, Json)>)
    ensures
        crate::json::entries_view(r@) == crate::json::entries_view(e@),
{
    let n = e.len();
    let mut out: Vec<(String, Json)> = Vec::new();
    let mut i: usize = 0;
    while i < n
        invariant
            i <= n,
            n == e@.len(),
            out@.len() == i,
            forall|j: int| 0 <= j < i ==> (#[trigger] out@[j]).0@ == e@[j].0@ && out@[j].1@
                == e@[j].1@,
        decreases n - i,
    {
        out.push((e[i].0.clone(), e[i].1.deep_copy()));
        i = i + 1;
    }
    proof {
        crate::json::lemma_entries_view(out@);
        crate::json::lemma_entries_view(e@);
        assert(crate::json::entries_view(out@) =~= crate::json::entries_view(e@));
    }
    out
}

fn apply_token_entries(current: Vec<(String, Json)>, tokens: &Vec<(String, Json)>) -> (r: Vec<
    (String, Json),
>)
    ensures
        crate::json::entries_view(r@) == apply_tokens(
            crate::json::entries_view(current@),
            crate::json::entries_view(tokens@),
        ),
{
    let ghost cv = crate::json::entries_view(current@);
    let ghost tv = crate::json::entries_view(tokens@);
    proof {
        crate::json::lemma_entries_view(tokens@);
        assert(tv.take(0) =~= Seq::<(Seq<char>, JsonV)>::empty());
    }
    let mut cur = current;
    let n = tokens.len();
    let mut i: usize = 0;
    while i < n
        invariant
            i <= n,
            n == tokens@.len(),
            tv == crate::json::entries_view(tokens@),
            tv.len() == n,
            forall|j: int| 0 <= j < n ==> #[trigger] tv[j] == (tokens@[j].0@, tokens@[j].1@),
            crate::json::entries_view(cur@) == apply_tokens(cv, tv.take(i as int)),
        decreases n - i,
    {
        proof {
            assert(tv.take(i + 1).drop_last() =~= tv.take(i as int));
            assert(tv.take(i + 1).last() == tv[i as int]);
        }
        let key = tokens[i].0.as_str();
        if tokens[i].1.is_null() {
            cur = entries_remove(&cur, key);
        } else {
            entries_insert(&mut cur, key.to_owned(), tokens[i].1.deep_copy());
        }
        i = i + 1;
    }
    proof {
        assert(tv.take(n as int) =~= tv);
    }
    cur
}

/// The workspace after `tokens` were published for it, as
/// [`with_tokens_spec`] says.
pub fn with_tokens(workspace: &Json, tokens: &Json) -> (r: Result<Json, String>)
    ensures
        match r {
            Ok(w) => with_tokens_spec(workspace@, tokens@) == Ok::<JsonV, Seq<char>>(w@),
            Err(e) => with_tokens_spec(workspace@, tokens@) == Err::<JsonV, Seq<char>>(e@),
        },
{
    let te = match tokens {
        Json::Object(te) => te,
        _ => {
            return Err("invalid token object".to_owned());
        },
    };
    let we = match workspace {
        Json::Object(we) => we,
        _ => {
            return Err("invalid workspace".to_owned());
        },
    };
    let current: Vec<(String, Json)> = match workspace.get("tokens") {
        None => Vec::new(),
        Some(Json::Object(cur)) => copy_entries(cur),
        Some(_) => {
            return Err("invalid workspace tokens".to_owned());
        },
    };
    proof {
        crate::json::lemma_entries_view(current@);
    }
    let updated = apply_token_entries(current, te);
    let mut entries = copy_entries(we);
    entries_insert(&mut entries, "tokens".to_owned(), Json::Object(updated));
    Ok(Json::Object(entries))
}

} // verus!
