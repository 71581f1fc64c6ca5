//! The decisions of one refresh of all spaces: which saved hints still
//! hold, the first label of a new space, where to ask Git, which space was
//! just renamed, and the lock's per-session name.
use vstd::prelude::*;
use vstd::hash_map::StringHashMap;

use crate::formatter::Formatter;
use crate::json::{truthy_spec, Json, JsonV};
use crate::text::{str_equal, token_text, token_text_spec};
use crate::workspace::{
    current_hint, current_hint_spec, json_views, labels, labels_spec, map_view, strings_set,
    strings_view, text_field, text_field_spec, token_value,
};

verus! {

/// The saved hints that still describe live workspaces, by workspace id;
/// the message of the first workspace without an id.
pub open spec fn current_hints_spec(saved: Map<Seq<char>, JsonV>, ws: Seq<JsonV>) -> Result<
    Map<Seq<char>, JsonV>,
    Seq<char>,
>
    decreases ws.len(),
{
    if ws.len() == 0 {
        Ok(Map::empty())
    } else {
        match current_hints_spec(saved, ws.drop_last()) {
            Err(e) => Err(e),
            Ok(m) => match text_field_spec(ws.last(), "workspace_id"@) {
                Err(e) => Err(e),
                Ok(id) => if saved.contains_key(id) && current_hint_spec(
                    ws.last(),
                    Some(saved[id]),
                ) {
                    Ok(m.insert(id, saved[id]))
                } else {
                    Ok(m)
                },
            },
        }
    }
}

proof fn lemma_current_hints_err(saved: Map<Seq<char>, JsonV>, ws: Seq<JsonV>, j: int)
    requires
        0 <= j <= ws.len(),
        current_hints_spec(saved, ws.take(j)) is Err,
    ensures
        current_hints_spec(saved, ws) == current_hints_spec(saved, ws.take(j)),
    decreases ws.len() - j,
{
    if j < ws.len() {
        assert(ws.drop_last().take(j) =~= ws.take(j));
        lemma_current_hints_err(saved, ws.drop_last(), j);
    } else {
        assert(ws.take(j) =~= ws);
    }
}

/// The saved hints that still describe the live workspaces, as
/// [`current_hints_spec`] says.
pub fn current_hints(saved: &StringHashMap<Json>, workspaces: &[Json]) -> (r: Result<
    StringHashMap<Json>,
    String,
>)
    ensures
        match r {
            Ok(m) => current_hints_spec(map_view(saved@), json_views(workspaces@)) == Ok::<
                Map<Seq<char>, JsonV>,
                Seq<char>,
            >(map_view(m@)),
            Err(e) => current_hints_spec(map_view(saved@), json_views(workspaces@)) == Err::<
                Map<Seq<char>, JsonV>,
                Seq<char>,
            >(e@),
        },
{
    let ghost wv = json_views(workspaces@);
    let ghost sv = map_view(saved@);
    let mut hints: StringHashMap<Json> = StringHashMap::new();
    proof {
        assert(wv.take(0) =~= Seq::<JsonV>::empty());
        assert(map_view(hints@) =~= Map::empty());
    }
    let n = workspaces.len();
    let mut i: usize = 0;
    while i < n
        invariant
            i <= n,
            n == workspaces@.len(),
            wv == json_views(workspaces@),
            sv == map_view(saved@),
            current_hints_spec(sv, wv.take(i as int)) == Ok::<Map<Seq<char>, JsonV>, Seq<char>>(
                map_view(hints@),
            ),
        decreases n - i,
    {
        let workspace = &workspaces[i];
        proof {
            assert(wv.take(i + 1).drop_last() =~= wv.take(i as int));
            assert(wv.take(i + 1).last() == workspace@);
        }
        let id = match text_field(workspace, "workspace_id") {
            Ok(id) => id,
            Err(e) => {
                proof {
                    lemma_current_hints_err(sv, wv, i + 1);
                }
                return Err(e);
            },
        };
        match saved.get(id) {
            Some(hint) => {
                if current_hint(workspace, Some(hint)) {
                    let ghost before = hints@;
                    hints.insert(id.to_owned(), hint.deep_copy());
                    proof {
                        assert(map_view(hints@) =~= map_view(before).insert(id@, hint@));
                    }
                }
            },
            None => {},
        }
        i = i + 1;
    }
    proof {
        assert(wv.take(n as int) =~= wv);
    }
    Ok(hints)
}

/// Whether a workspace still needs its first label: it has no current hint.
pub fn needs_initial_label(hints: &StringHashMap<Json>, workspace: &Json) -> (r: Result<
    bool,
    String,
>)
    ensures
        match r {
            Ok(b) => text_field_spec(workspace@, "workspace_id"@) matches Ok(id) && b
                == !hints@.contains_key(id),
            Err(e) => text_field_spec(workspace@, "workspace_id"@) == Err::<Seq<char>, Seq<char>>(
                e@,
            ),
        },
{
    match text_field(workspace, "workspace_id") {
        Ok(id) => Ok(!hints.contains_key(id)),
        Err(e) => Err(e),
    }
}

/// The tokens of a space without a current hint: its label as the space
/// token.
pub open spec fn initial_tokens_spec(workspace: JsonV) -> Result<JsonV, Seq<char>> {
    match text_field_spec(workspace, "label"@) {
        Err(e) => Err(e),
        Ok(label) => Ok(
            JsonV::Object(seq![("short_space"@, token_value(token_text_spec(Some(label))))]),
        ),
    }
}

/// The tokens of a space without a current hint, as
/// [`initial_tokens_spec`] says.
pub fn initial_tokens(workspace: &Json) -> (r: Result<Json, String>)
    ensures
        match r {
            Ok(t) => initial_tokens_spec(workspace@) == Ok::<JsonV, Seq<char>>(t@),
            Err(e) => initial_tokens_spec(workspace@) == Err::<JsonV, Seq<char>>(e@),
        },
{
    let label = match text_field(workspace, "label") {
        Ok(l) => l,
        Err(e) => {
            return Err(e);
        },
    };
    let value = match token_text(Some(label)) {
        Some(t) => Json::Str(t),
        None => Json::Null,
    };
    let entries = vec![("short_space".to_owned(), value)];
    proof {
        crate::json::lemma_entries_view(entries@);
        assert(crate::json::entries_view(entries@) =~= seq![
            ("short_space"@, token_value(token_text_spec(Some(label@)))),
        ]);
    }
    Ok(Json::Object(entries))
}

/// Whether every live workspace has a current hint, so that waiting for
/// Herdr to save more of them is over.
pub fn hints_complete(hints: &StringHashMap<Json>, workspaces: &[Json]) -> (r: bool)
    ensures
        r == (hints@.len() == workspaces@.len()),
{
    hints.len() == workspaces.len()
}

/// What waiting for identity hints does after a look at the saved ones.
#[derive(Clone, Copy, Debug, PartialEq, Eq)]
pub enum HintsAction {
    /// Publish the first label of each space without a current hint.
    PublishInitial,
    /// Stop waiting and go on with the hints there are.
    Finish,
    /// Sleep a little and look again.
    Wait,
}

/// The action after a look at the saved hints: first labels once, at the
/// first look; then done once every space has a hint or the deadline has
/// passed.
pub open spec fn hints_action_spec(initialized: bool, complete: bool, deadline_passed: bool) -> HintsAction {
    if !initialized {
        HintsAction::PublishInitial
    } else if complete || deadline_passed {
        HintsAction::Finish
    } else {
        HintsAction::Wait
    }
}

/// The action after a look at the saved hints, as [`hints_action_spec`] says.
pub fn hints_action(initialized: bool, complete: bool, deadline_passed: bool) -> (a: HintsAction)
    ensures
        a == hints_action_spec(initialized, complete, deadline_passed),
{
    if !initialized {
        HintsAction::PublishInitial
    } else if complete || deadline_passed {
        HintsAction::Finish
    } else {
        HintsAction::Wait
    }
}

/// The message for a space whose Git worker gave no answer.
pub open spec fn missing_worker_message() -> Seq<char> {
    "Git worker did not return a result"@
}

/// What one Git worker reported for a space: its branch, or its error, or
/// the missing-answer error where it reported nothing.
pub open spec fn worker_result(r: Option<Result<Option<String>, String>>) -> Result<
    Option<Seq<char>>,
    Seq<char>,
> {
    match r {
        None => Err(missing_worker_message()),
        Some(Err(e)) => Err(e@),
        Some(Ok(None)) => Ok(None),
        Some(Ok(Some(b))) => Ok(Some(b@)),
    }
}

/// The branches of all spaces, in order, from what the workers reported;
/// the first error in the order of the spaces.
pub open spec fn gathered_spec(rs: Seq<Option<Result<Option<String>, String>>>) -> Result<
    Seq<Option<Seq<char>>>,
    Seq<char>,
>
    decreases rs.len(),
{
    if rs.len() == 0 {
        Ok(Seq::empty())
    } else {
        match gathered_spec(rs.drop_last()) {
            Err(e) => Err(e),
            Ok(v) => match worker_result(rs.last()) {
                Err(e) => Err(e),
                Ok(b) => Ok(v.push(b)),
            },
        }
    }
}

/// The models of optional strings.
pub open spec fn opt_strings_view(v: Seq<Option<String>>) -> Seq<Option<Seq<char>>> {
    v.map_values(|o: Option<String>| match o {
        Some(s) => Some(s@),
        None => None,
    })
}

proof fn lemma_gathered_err(rs: Seq<Option<Result<Option<String>, String>>>, m: int)
    requires
        0 <= m <= rs.len(),
        gathered_spec(rs.take(m)) is Err,
    ensures
        gathered_spec(rs) == gathered_spec(rs.take(m)),
    decreases rs.len(),
{
    if m == rs.len() {
        assert(rs.take(m) =~= rs);
    } else {
        assert(rs.drop_last().take(m) =~= rs.take(m));
        lemma_gathered_err(rs.drop_last(), m);
    }
}

/// The branches of all spaces from what the Git workers reported, as
/// [`gathered_spec`] says.
pub fn gathered_branches(results: &[Option<Result<Option<String>, String>>]) -> (r: Result<
    Vec<Option<String>>,
    String,
>)
    ensures
        match r {
            Ok(v) => gathered_spec(results@) == Ok::<Seq<Option<Seq<char>>>, Seq<char>>(
                opt_strings_view(v@),
            ),
            Err(e) => gathered_spec(results@) == Err::<Seq<Option<Seq<char>>>, Seq<char>>(e@),
        },
{
    let n = results.len();
    let mut out: Vec<Option<String>> = Vec::new();
    let mut i: usize = 0;
    assert(results@.take(0) =~= Seq::<Option<Result<Option<String>, String>>>::empty());
    assert(opt_strings_view(out@) =~= Seq::<Option<Seq<char>>>::empty());
    while i < n
        invariant
            i <= n,
            n == results@.len(),
            gathered_spec(results@.take(i as int)) == Ok::<Seq<Option<Seq<char>>>, Seq<char>>(
                opt_strings_view(out@),
            ),
        decreases n - i,
    {
        let ghost p1 = results@.take(i + 1);
        proof {
            assert(p1.drop_last() =~= results@.take(i as int));
            assert(p1.last() == results@[i as int]);
        }
        let ghost before = out@;
        match &results[i] {
            None => {
                proof {
                    lemma_gathered_err(results@, i + 1);
                }
                return Err("Git worker did not return a result".to_owned());
            },
            Some(Err(e)) => {
                proof {
                    lemma_gathered_err(results@, i + 1);
                }
                return Err(e.as_str().to_owned());
            },
            Some(Ok(None)) => {
                out.push(None);
            },
            Some(Ok(Some(b))) => {
                out.push(Some(b.as_str().to_owned()));
            },
        }
        proof {
            assert(opt_strings_view(out@) =~= opt_strings_view(before).push(
                worker_result(results@[i as int])->Ok_0,
            ));
        }
        i = i + 1;
    }
    assert(results@.take(n as int) =~= results@);
    Ok(out)
}

/// The directory of a workspace to ask Git about: its worktree's checkout
/// path where that is set, else the identity directory of its saved hint;
/// nothing where the chosen value is not a string.
pub open spec fn checkout_path_spec(workspace: JsonV, saved: Map<Seq<char>, JsonV>) -> Option<
    Seq<char>,
> {
    let primary = match workspace.get("worktree"@) {
        Some(t) => match t.get("checkout_path"@) {
            Some(p) => if truthy_spec(p) {
                Some(p)
            } else {
                None
            },
            None => None,
        },
        None => None,
    };
    let chosen = match primary {
        Some(p) => Some(p),
        None => match workspace.str_field("workspace_id"@) {
            Some(id) => if saved.contains_key(id) {
                saved[id].get("identity_cwd"@)
            } else {
                None
            },
            None => None,
        },
    };
    match chosen {
        Some(v) => v.as_str(),
        None => None,
    }
}

/// The directory of a workspace to ask Git about, as
/// [`checkout_path_spec`] says.
pub fn checkout_path(workspace: &Json, saved: &StringHashMap<Json>) -> (r: Option<String>)
    ensures
        match r {
            Some(p) => checkout_path_spec(workspace@, map_view(saved@)) == Some(p@),
            None => checkout_path_spec(workspace@, map_view(saved@)) is None,
        },
{
    let primary: Option<&Json> = match workspace.get("worktree") {
        Some(t) => match t.get("checkout_path") {
            Some(p) => if p.is_truthy() {
                Some(p)
            } else {
                None
            },
            None => None,
        },
        None => None,
    };
    let chosen: Option<&Json> = match primary {
        Some(p) => Some(p),
        None => match workspace.get("workspace_id") {
            Some(id) => match id.as_str() {
                Some(id) => match saved.get(id) {
                    Some(h) => h.get("identity_cwd"),
                    None => None,
                },
                None => None,
            },
            None => None,
        },
    };
    match chosen {
        Some(v) => match v.as_str() {
            Some(s) => Some(s.to_owned()),
            None => None,
        },
        None => None,
    }
}

/// Whether the hook that runs the refresh was a workspace rename.
pub fn is_rename_event(event: Option<&str>) -> (r: bool)
    ensures
        r == (event matches Some(e) && e@ == "workspace.renamed"@),
{
    match event {
        Some(e) => str_equal(e, "workspace.renamed"),
        None => false,
    }
}

/// The id of the renamed workspace in a rename hook's context.
pub fn renamed_workspace(context: &Json) -> (r: Option<String>)
    ensures
        match r {
            Some(id) => context@.str_field("workspace_id"@) == Some(id@),
            None => context@.str_field("workspace_id"@) is None,
        },
{
    match context.get("workspace_id") {
        Some(v) => match v.as_str() {
            Some(s) => Some(s.to_owned()),
            None => None,
        },
        None => None,
    }
}

/// A saved hint by id.
pub open spec fn hint_for(saved: Map<Seq<char>, JsonV>, id: Seq<char>) -> Option<JsonV> {
    if saved.contains_key(id) {
        Some(saved[id])
    } else {
        None
    }
}

/// The tokens of one workspace in a refresh: [`labels_spec`] with its saved
/// hint, whether it is indented, and whether it is the space just renamed.
pub open spec fn space_tokens_spec(
    workspace: JsonV,
    saved: Map<Seq<char>, JsonV>,
    branch: Option<Seq<char>>,
    indented: Set<Seq<char>>,
    formatter: crate::formatter::FormatterView,
    renamed: Option<Seq<char>>,
) -> Result<JsonV, Seq<char>> {
    match text_field_spec(workspace, "workspace_id"@) {
        Err(e) => Err(e),
        Ok(id) => labels_spec(
            workspace,
            hint_for(saved, id),
            branch,
            indented.contains(id),
            formatter,
            renamed == Some(id),
        ),
    }
}

/// Whether a list of strings holds `s`.
pub fn list_contains(list: &Vec<String>, s: &str) -> (r: bool)
    ensures
        r == strings_set(list@).contains(s@),
{
    let n = list.len();
    let mut i: usize = 0;
    while i < n
        invariant
            i <= n,
            n == list@.len(),
            forall|k: int| 0 <= k < i ==> (#[trigger] strings_view(list@)[k]) != s@,
        decreases n - i,
    {
        if str_equal(list[i].as_str(), s) {
            proof {
                assert(strings_view(list@)[i as int] == s@);
            }
            return true;
        }
        i = i + 1;
    }
    false
}

/// The tokens of one workspace in a refresh, as [`space_tokens_spec`] says.
pub fn space_tokens(
    workspace: &Json,
    saved: &StringHashMap<Json>,
    branch: Option<&str>,
    indented: &Vec<String>,
    formatter: &Formatter,
    renamed: Option<&str>,
) -> (r: Result<Json, String>)
    ensures
        match r {
            Ok(t) => space_tokens_spec(
                workspace@,
                map_view(saved@),
                crate::text::str_option_view(branch),
                strings_set(indented@),
                formatter@,
                crate::text::str_option_view(renamed),
            ) == Ok::<JsonV, Seq<char>>(t@),
            Err(e) => space_tokens_spec(
                workspace@,
                map_view(saved@),
                crate::text::str_option_view(branch),
                strings_set(indented@),
                formatter@,
                crate::text::str_option_view(renamed),
            ) == Err::<JsonV, Seq<char>>(e@),
        },
{
    let id = match text_field(workspace, "workspace_id") {
        Ok(id) => id,
        Err(e) => {
            return Err(e);
        },
    };
    let is_renamed = match renamed {
        Some(r) => str_equal(r, id),
        None => false,
    };
    labels(workspace, saved.get(id), branch, list_contains(indented, id), formatter, is_renamed)
}

/// SHA-256 of `data`, as the sha2 crate computes it.
pub uninterp spec fn sha256_digest(data: Seq<u8>) -> Seq<u8>;

/// Hashes `data` with `sha2::Sha256::digest`. The contract claims that the
/// digest is `sha256_digest` of the data and, as the crate's output size
/// says, 32 bytes long.
#[verifier::external_body]
fn sha256(data: &[u8]) -> (r: Vec<u8>)
    ensures
        r@ == sha256_digest(data@),
        r@.len() == 32,
{
    <sha2::Sha256 as sha2::Digest>::digest(data).to_vec()
}

/// The lower-case hexadecimal digit of `d`.
pub open spec fn hex_digit(d: int) -> char {
    if d < 10 {
        crate::runtime::digit_char(d)
    } else if d == 10 {
        'a'
    } else if d == 11 {
        'b'
    } else if d == 12 {
        'c'
    } else if d == 13 {
        'd'
    } else if d == 14 {
        'e'
    } else {
        'f'
    }
}

/// Bytes as lower-case hexadecimal, two digits each.
pub open spec fn hex_lower(bytes: Seq<u8>) -> Seq<char>
    decreases bytes.len(),
{
    if bytes.len() == 0 {
        Seq::empty()
    } else {
        hex_lower(bytes.drop_last()) + seq![
            hex_digit(bytes.last() as int / 16),
            hex_digit(bytes.last() as int % 16),
        ]
    }
}

proof fn lemma_hex_len(bytes: Seq<u8>)
    ensures
        hex_lower(bytes).len() == 2 * bytes.len(),
    decreases bytes.len(),
{
    if bytes.len() > 0 {
        lemma_hex_len(bytes.drop_last());
    }
}

/// How many digest bytes name a session's lock file.
pub const SESSION_KEY_BYTES: usize = 12;

/// The name of a Herdr session's lock: the first twelve bytes of the
/// SHA-256 of its socket path, in lower-case hexadecimal.
pub open spec fn session_key_spec(socket_path: Seq<u8>) -> Seq<char> {
    hex_lower(sha256_digest(socket_path).take(SESSION_KEY_BYTES as int))
}

fn hex_char(d: u8) -> (c: char)
    requires
        d < 16,
    ensures
        c == hex_digit(d as int),
{
    if d < 10 {
        if d == 0 {
            '0'
        } else if d == 1 {
            '1'
        } else if d == 2 {
            '2'
        } else if d == 3 {
            '3'
        } else if d == 4 {
            '4'
        } else if d == 5 {
            '5'
        } else if d == 6 {
            '6'
        } else if d == 7 {
            '7'
        } else if d == 8 {
            '8'
        } else {
            '9'
        }
    } else if d == 10 {
        'a'
    } else if d == 11 {
        'b'
    } else if d == 12 {
        'c'
    } else if d == 13 {
        'd'
    } else if d == 14 {
        'e'
    } else {
        'f'
    }
}

/// The name of the lock of the Herdr session with this socket path, as
/// [`session_key_spec`] says.
pub fn session_key(socket_path: &[u8]) -> (r: String)
    ensures
        r@ == session_key_spec(socket_path@),
        r@.len() == 2 * SESSION_KEY_BYTES,
{
    let digest = sha256(socket_path);
    let ghost d = digest@.take(SESSION_KEY_BYTES as int);
    let mut out: Vec<char> = Vec::new();
    let mut i: usize = 0;
    proof {
        assert(d.take(0) =~= Seq::<u8>::empty());
    }
    while i < SESSION_KEY_BYTES
        invariant
            i <= SESSION_KEY_BYTES,
            digest@.len() == 32,
            d == digest@.take(SESSION_KEY_BYTES as int),
            out@ == hex_lower(d.take(i as int)),
        decreases SESSION_KEY_BYTES - i,
    {
        let b = digest[i];
        proof {
            assert(d.take(i + 1).drop_last() =~= d.take(i as int));
            assert(d.take(i + 1).last() == b);
        }
        let ghost before = out@;
        out.push(hex_char(b / 16));
        out.push(hex_char(b % 16));
        proof {
            assert(out@ =~= before + seq![hex_digit(b as int / 16), hex_digit(b as int % 16)]);
        }
        i = i + 1;
    }
    proof {
        assert(d.take(SESSION_KEY_BYTES as int) =~= d);
        lemma_hex_len(d);
    }
    crate::text::string_from_chars(out)
}

} // verus!
