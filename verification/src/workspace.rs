//! What the sidebar shows for each workspace: saved identity hints, the
//! grouping of worktrees, and the two display tokens.
use vstd::prelude::*;

use crate::json::{opt_view, truthy_spec, Json, JsonNumber, JsonV};
use crate::formatter::{format_spec, Formatter, FormatterView};
use crate::text::{chars_of, str_equal, string_from_chars, token_text, token_text_spec};

verus! {

/// The message for a workspace without the string member `key`.
pub open spec fn missing_field_message(key: Seq<char>) -> Seq<char> {
    "missing string field "@ + key
}

/// The string member `key` of `value`, or the message that it is missing.
pub open spec fn text_field_spec(value: JsonV, key: Seq<char>) -> Result<Seq<char>, Seq<char>> {
    match value.str_field(key) {
        Some(s) => Ok(s),
        None => Err(missing_field_message(key)),
    }
}

/// The string member `key` of `value`, or the message that it is missing.
pub fn text_field<'a>(value: &'a Json, key: &str) -> (r: Result<&'a str, String>)
    ensures
        match r {
            Ok(s) => text_field_spec(value@, key@) == Ok::<Seq<char>, Seq<char>>(s@),
            Err(e) => text_field_spec(value@, key@) == Err::<Seq<char>, Seq<char>>(e@),
        },
{
    match value.get(key) {
        Some(v) => match v.as_str() {
            Some(s) => {
                return Ok(s);
            },
            None => {},
        },
        None => {},
    }
    let mut message = "missing string field ".to_owned();
    message.append(key);
    Err(message)
}

/// Whether a JSON value counts as set: `false`, `null`, zero and empty
/// strings, arrays and objects do not.
pub fn truthy(value: &Json) -> (r: bool)
    ensures
        r == truthy_spec(value@),
{
    value.is_truthy()
}

/// Whether a path is absolute on Unix: it starts at the root.
pub open spec fn is_absolute_path(path: Seq<char>) -> bool {
    path.len() > 0 && path[0] == '/'
}

/// The position of the last `/` before `end`, or -1 where there is none.
pub open spec fn last_slash_before(s: Seq<char>, end: int) -> int
    decreases end,
{
    if end <= 0 {
        -1
    } else if s[end - 1] == '/' {
        end - 1
    } else {
        last_slash_before(s, end - 1)
    }
}

/// The last `/`-separated component of `s[..end]` that is neither empty
/// nor `.`.
pub open spec fn last_component(s: Seq<char>, end: int) -> Option<Seq<char>>
    decreases end + 1,
{
    if end < 0 {
        None
    } else {
        let j = last_slash_before(s, end);
        proof {
            lemma_last_slash_bounds(s, end);
        }
        let segment = s.subrange(j + 1, end);
        if segment.len() > 0 && segment != seq!['.'] {
            Some(segment)
        } else if j < 0 {
            None
        } else {
            last_component(s, j)
        }
    }
}

pub proof fn lemma_last_slash_bounds(s: Seq<char>, end: int)
    ensures
        end >= 0 ==> -1 <= last_slash_before(s, end) < end,
    decreases end,
{
    if end > 0 && s[end - 1] != '/' {
        lemma_last_slash_bounds(s, end - 1);
    }
}

/// The name that Herdr gives a workspace opened in `cwd`: the last
/// component that is neither empty nor `.`, or `cwd` itself where there is
/// none.
pub open spec fn directory_name(cwd: Seq<char>) -> Seq<char> {
    match last_component(cwd, cwd.len() as int) {
        Some(c) => c,
        None => cwd,
    }
}

/// Whether a saved identity hint still describes the live workspace: a
/// custom name that equals the workspace's label, or no custom name and an
/// absolute identity directory whose name equals the label.
pub open spec fn current_hint_spec(workspace: JsonV, hint: Option<JsonV>) -> bool {
    match hint {
        None => false,
        Some(h) => match h.get("custom_name"@) {
            None => false,
            Some(JsonV::Null) => match h.str_field("identity_cwd"@) {
                None => false,
                Some(cwd) => is_absolute_path(cwd) && workspace.str_field("label"@) == Some(
                    directory_name(cwd),
                ),
            },
            Some(JsonV::Str(name)) => workspace.str_field("label"@) == Some(name),
            Some(_) => false,
        },
    }
}

proof fn lemma_last_slash_range(s: Seq<char>, end: int)
    requires
        end <= s.len(),
    ensures
        -1 <= last_slash_before(s, end) < end || (end <= 0 && last_slash_before(s, end) == -1),
        last_slash_before(s, end) >= 0 ==> s[last_slash_before(s, end)] == '/',
    decreases end,
{
    if end > 0 && s[end - 1] != '/' {
        lemma_last_slash_range(s, end - 1);
    }
}

/// The name that Herdr gives a workspace opened in `cwd`.
pub fn directory_name_of(cwd: &Vec<char>) -> (name: Vec<char>)
    ensures
        name@ == directory_name(cwd@),
{
    let n = cwd.len();
    let mut end: usize = n;
    let ghost s = cwd@;
    loop
        invariant
            end <= n,
            n == s.len(),
            s == cwd@,
            last_component(s, n as int) == last_component(s, end as int),
        decreases end,
    {
        let mut j: usize = end;
        while j > 0 && cwd[j - 1] != '/'
            invariant
                j <= end <= n,
                n == s.len(),
                s == cwd@,
                last_slash_before(s, end as int) == last_slash_before(s, j as int),
            decreases j,
        {
            j = j - 1;
        }
        proof {
            lemma_last_slash_range(s, j as int);
            assert(last_slash_before(s, end as int) == j - 1);
        }
        let mut segment: Vec<char> = Vec::new();
        let mut k: usize = j;
        while k < end
            invariant
                j <= k <= end <= n,
                n == s.len(),
                s == cwd@,
                segment@ == s.subrange(j as int, k as int),
            decreases end - k,
        {
            segment.push(cwd[k]);
            assert(segment@ =~= s.subrange(j as int, k + 1));
            k = k + 1;
        }
        let is_dot = segment.len() == 1 && segment[0] == '.';
        proof {
            if is_dot {
                assert(segment@ =~= seq!['.']);
            } else if segment.len() == 1 {
                assert(seq!['.'][0] == '.');
                assert(segment@ != seq!['.']);
            }
        }
        if segment.len() > 0 && !is_dot {
            return segment;
        }
        if j == 0 {
            let mut all: Vec<char> = Vec::new();
            let mut m: usize = 0;
            while m < n
                invariant
                    m <= n,
                    n == s.len(),
                    s == cwd@,
                    all@ == s.take(m as int),
                decreases n - m,
            {
                all.push(cwd[m]);
                assert(all@ =~= s.take(m + 1));
                m = m + 1;
            }
            assert(all@ =~= s);
            return all;
        }
        end = j - 1;
    }
}

/// Whether the saved `hint` still describes `workspace`, as
/// [`current_hint_spec`] says.
pub fn current_hint(workspace: &Json, hint: Option<&Json>) -> (r: bool)
    ensures
        r == current_hint_spec(workspace@, opt_view(hint)),
{
    let hint = match hint {
        None => {
            return false;
        },
        Some(h) => h,
    };
    let custom_name = match hint.get("custom_name") {
        None => {
            return false;
        },
        Some(c) => c,
    };
    let name: String = if custom_name.is_null() {
        let cwd = match hint.get("identity_cwd") {
            None => {
                return false;
            },
            Some(c) => match c.as_str() {
                None => {
                    return false;
                },
                Some(s) => s,
            },
        };
        let chars = chars_of(cwd);
        if chars.len() == 0 || chars[0] != '/' {
            return false;
        }
        string_from_chars(directory_name_of(&chars))
    } else {
        match custom_name.as_str() {
            None => {
                return false;
            },
            Some(s) => s.to_owned(),
        }
    };
    match workspace.get("label") {
        None => false,
        Some(label) => match label.as_str() {
            None => false,
            Some(l) => str_equal(l, name.as_str()),
        },
    }
}

/// Whether a number is 3, as `Value::as_f64(..) == 3.0` tests it.
pub open spec fn number_is_three(n: JsonNumber) -> bool {
    match n {
        JsonNumber::PosInt(u) => u == 3,
        JsonNumber::NegInt(i) => i == 3,
        JsonNumber::Float(bits) => bits == 0x4008_0000_0000_0000u64,
    }
}

/// The saved workspaces of a list, by their string `id`; a later entry
/// replaces an earlier one with the same id, entries without one are left
/// out.
pub open spec fn workspaces_by_id(items: Seq<JsonV>) -> Map<Seq<char>, JsonV>
    decreases items.len(),
{
    if items.len() == 0 {
        Map::empty()
    } else {
        let m = workspaces_by_id(items.drop_last());
        match items.last().str_field("id"@) {
            Some(id) => m.insert(id, items.last()),
            None => m,
        }
    }
}

/// The saved workspaces of a Herdr session snapshot: those of a version 3
/// snapshot with a `workspaces` array; none for a missing or unreadable
/// snapshot or any other.
pub open spec fn saved_workspaces_spec(snapshot: Option<JsonV>) -> Map<Seq<char>, JsonV> {
    match snapshot {
        None => Map::empty(),
        Some(s) => match s.get("version"@) {
            Some(JsonV::Number(n)) => if number_is_three(n) {
                match s.get("workspaces"@) {
                    Some(JsonV::Array(items)) => workspaces_by_id(items),
                    _ => Map::empty(),
                }
            } else {
                Map::empty()
            },
            _ => Map::empty(),
        },
    }
}

/// JSON values by string key, such as saved workspaces by id.
pub type JsonMap = vstd::hash_map::StringHashMap<Json>;

/// The models of the values of a map of JSON values.
pub open spec fn map_view(m: Map<Seq<char>, Json>) -> Map<Seq<char>, JsonV> {
    m.map_values(|j: Json| j@)
}

fn is_three(n: JsonNumber) -> (r: bool)
    ensures
        r == number_is_three(n),
{
    match n {
        JsonNumber::PosInt(u) => u == 3,
        JsonNumber::NegInt(i) => i == 3,
        JsonNumber::Float(bits) => bits == 0x4008_0000_0000_0000u64,
    }
}

/// The saved workspaces of a parsed session snapshot (`None` where the
/// snapshot is missing or is not JSON), by id.
pub fn saved_workspaces(snapshot: Option<&Json>) -> (r: vstd::hash_map::StringHashMap<Json>)
    ensures
        map_view(r@) == saved_workspaces_spec(opt_view(snapshot)),
{
    let mut out: vstd::hash_map::StringHashMap<Json> = vstd::hash_map::StringHashMap::new();
    proof {
        assert(map_view(out@) =~= Map::empty());
    }
    let snapshot = match snapshot {
        None => {
            return out;
        },
        Some(s) => s,
    };
    match snapshot.get("version") {
        Some(Json::Number(n)) => {
            if !is_three(*n) {
                return out;
            }
        },
        _ => {
            return out;
        },
    }
    let items = match snapshot.get("workspaces") {
        Some(Json::Array(items)) => items,
        _ => {
            return out;
        },
    };
    let ghost iv = crate::json::items_view(items@);
    proof {
        crate::json::lemma_items_view(items@);
        assert(iv.take(0) =~= Seq::<JsonV>::empty());
    }
    let n = items.len();
    let mut i: usize = 0;
    while i < n
        invariant
            i <= n,
            n == items@.len(),
            iv == crate::json::items_view(items@),
            iv.len() == n,
            forall|k: int| 0 <= k < n ==> #[trigger] iv[k] == items@[k]@,
            map_view(out@) == workspaces_by_id(iv.take(i as int)),
        decreases n - i,
    {
        let item = &items[i];
        proof {
            assert(iv.take(i + 1).drop_last() =~= iv.take(i as int));
            assert(iv.take(i + 1).last() == item@);
        }
        match item.get("id") {
            Some(id) => match id.as_str() {
                Some(id) => {
                    let ghost before = out@;
                    out.insert(id.to_owned(), item.deep_copy());
                    proof {
                        assert(map_view(out@) =~= map_view(before).insert(id@, item@));
                    }
                },
                None => {},
            },
            None => {},
        }
        i = i + 1;
    }
    proof {
        assert(iv.take(n as int) =~= iv);
    }
    out
}

/// The models of a sequence of JSON values.
pub open spec fn json_views(s: Seq<Json>) -> Seq<JsonV> {
    s.map_values(|j: Json| j@)
}

/// The characters of each string of a sequence.
pub open spec fn strings_view(v: Seq<String>) -> Seq<Seq<char>> {
    v.map_values(|s: String| s@)
}

/// The set of the strings of a sequence.
pub open spec fn strings_set(v: Seq<String>) -> Set<Seq<char>> {
    Set::new(|x: Seq<char>| strings_view(v).contains(x))
}

/// Lexicographic order on strings by code point, the order of `str`.
pub open spec fn seq_lt(a: Seq<char>, b: Seq<char>) -> bool
    decreases a.len(),
{
    if b.len() == 0 {
        false
    } else if a.len() == 0 {
        true
    } else if a[0] != b[0] {
        a[0] < b[0]
    } else {
        seq_lt(a.drop_first(), b.drop_first())
    }
}

/// `k` added to a list kept in increasing order, where it is not yet there.
pub open spec fn insert_sorted(s: Seq<Seq<char>>, k: Seq<char>) -> Seq<Seq<char>>
    decreases s.len(),
{
    if s.len() == 0 {
        seq![k]
    } else if s[0] == k {
        s
    } else if seq_lt(k, s[0]) {
        seq![k] + s
    } else {
        seq![s[0]] + insert_sorted(s.drop_first(), k)
    }
}

proof fn lemma_seq_lt_skip(a: Seq<char>, b: Seq<char>, i: int)
    requires
        0 <= i <= a.len(),
        i <= b.len(),
        forall|j: int| 0 <= j < i ==> a[j] == b[j],
    ensures
        seq_lt(a, b) == seq_lt(a.skip(i), b.skip(i)),
    decreases i,
{
    if i > 0 {
        assert(a.drop_first().skip(i - 1) =~= a.skip(i));
        assert(b.drop_first().skip(i - 1) =~= b.skip(i));
        lemma_seq_lt_skip(a.drop_first(), b.drop_first(), i - 1);
    } else {
        assert(a.skip(0) =~= a);
        assert(b.skip(0) =~= b);
    }
}

/// Whether `a` comes before `b` in the order of `str`.
pub fn str_less(a: &str, b: &str) -> (r: bool)
    ensures
        r == seq_lt(a@, b@),
{
    let x = chars_of(a);
    let y = chars_of(b);
    let mut i: usize = 0;
    while i < x.len() && i < y.len()
        invariant
            i <= x@.len(),
            i <= y@.len(),
            x@ == a@,
            y@ == b@,
            forall|j: int| 0 <= j < i ==> x@[j] == y@[j],
        decreases x@.len() - i,
    {
        if x[i] != y[i] {
            proof {
                lemma_seq_lt_skip(x@, y@, i as int);
                assert(x@.skip(i as int)[0] == x@[i as int]);
                assert(y@.skip(i as int)[0] == y@[i as int]);
            }
            return x[i] < y[i];
        }
        i = i + 1;
    }
    proof {
        lemma_seq_lt_skip(x@, y@, i as int);
    }
    i < y.len()
}

proof fn lemma_insert_sorted_split(s: Seq<Seq<char>>, k: Seq<char>, i: int)
    requires
        0 <= i <= s.len(),
        forall|j: int| 0 <= j < i ==> #[trigger] s[j] != k && !seq_lt(k, s[j]),
    ensures
        insert_sorted(s, k) == s.take(i) + insert_sorted(s.skip(i), k),
    decreases i,
{
    if i > 0 {
        assert(s.drop_first().skip(i - 1) =~= s.skip(i));
        assert(s[0] != k && !seq_lt(k, s[0]));
        lemma_insert_sorted_split(s.drop_first(), k, i - 1);
        assert(s.take(i) =~= seq![s[0]] + s.drop_first().take(i - 1));
        assert(insert_sorted(s, k) =~= s.take(i) + insert_sorted(s.skip(i), k));
    } else {
        assert(s.skip(0) =~= s);
        assert(s.take(0) + insert_sorted(s, k) =~= insert_sorted(s, k));
    }
}

pub proof fn lemma_insert_sorted_contains(s: Seq<Seq<char>>, k: Seq<char>)
    ensures
        forall|x: Seq<char>| #[trigger] insert_sorted(s, k).contains(x) <==> (s.contains(x) || x == k),
    decreases s.len(),
{
    if s.len() == 0 {
        assert forall|x: Seq<char>| #[trigger] insert_sorted(s, k).contains(x) <==> (s.contains(
            x,
        ) || x == k) by {
            if x == k {
                assert(insert_sorted(s, k)[0] == k);
            }
        }
    } else if s[0] == k {
        assert(s.contains(k));
    } else if seq_lt(k, s[0]) {
        let r = seq![k] + s;
        assert forall|x: Seq<char>| #[trigger] insert_sorted(s, k).contains(x) <==> (s.contains(
            x,
        ) || x == k) by {
            if s.contains(x) {
                let j = choose|j: int| 0 <= j < s.len() && s[j] == x;
                assert(r[j + 1] == x);
            }
            if x == k {
                assert(r[0] == k);
            }
            if r.contains(x) {
                let j = choose|j: int| 0 <= j < r.len() && r[j] == x;
                if j > 0 {
                    assert(s[j - 1] == x);
                }
            }
        }
    } else {
        let t = s.drop_first();
        let q = insert_sorted(t, k);
        let r = seq![s[0]] + q;
        lemma_insert_sorted_contains(t, k);
        assert forall|x: Seq<char>| #[trigger] insert_sorted(s, k).contains(x) <==> (s.contains(
            x,
        ) || x == k) by {
            if s.contains(x) {
                let j = choose|j: int| 0 <= j < s.len() && s[j] == x;
                if j > 0 {
                    assert(t[j - 1] == x);
                    assert(t.contains(x));
                    assert(q.contains(x));
                    let m = choose|m: int| 0 <= m < q.len() && q[m] == x;
                    assert(r[m + 1] == x);
                } else {
                    assert(r[0] == x);
                }
            }
            if x == k {
                assert(q.contains(x));
                let m = choose|m: int| 0 <= m < q.len() && q[m] == x;
                assert(r[m + 1] == x);
            }
            if r.contains(x) {
                let j = choose|j: int| 0 <= j < r.len() && r[j] == x;
                if j > 0 {
                    assert(q[j - 1] == x);
                    assert(q.contains(x));
                    if t.contains(x) {
                        let m = choose|m: int| 0 <= m < t.len() && t[m] == x;
                        assert(s[m + 1] == x);
                    }
                } else {
                    assert(s[0] == x);
                }
            }
        }
    }
}

/// Whether a list of strings is in strictly increasing order.
pub open spec fn strictly_sorted(s: Seq<Seq<char>>) -> bool {
    forall|i: int, j: int| 0 <= i < j < s.len() ==> seq_lt(#[trigger] s[i], #[trigger] s[j])
}

/// Of two different strings, one comes before the other.
pub proof fn lemma_seq_lt_total(a: Seq<char>, b: Seq<char>)
    requires
        a != b,
    ensures
        seq_lt(a, b) || seq_lt(b, a),
    decreases a.len(),
{
    if a.len() > 0 && b.len() > 0 && a[0] == b[0] {
        if a.drop_first() == b.drop_first() {
            assert(a =~= seq![a[0]] + a.drop_first());
            assert(b =~= seq![b[0]] + b.drop_first());
        }
        lemma_seq_lt_total(a.drop_first(), b.drop_first());
    } else if a.len() == 0 && b.len() == 0 {
        assert(a =~= b);
    }
}

/// The order of strings is transitive.
pub proof fn lemma_seq_lt_transitive(a: Seq<char>, b: Seq<char>, c: Seq<char>)
    requires
        seq_lt(a, b),
        seq_lt(b, c),
    ensures
        seq_lt(a, c),
    decreases a.len(),
{
    if a.len() > 0 && a[0] == b[0] && b[0] == c[0] {
        lemma_seq_lt_transitive(a.drop_first(), b.drop_first(), c.drop_first());
    }
}

/// Adding to a strictly increasing list keeps it strictly increasing.
pub proof fn lemma_insert_sorted_sorted(s: Seq<Seq<char>>, k: Seq<char>)
    requires
        strictly_sorted(s),
    ensures
        strictly_sorted(insert_sorted(s, k)),
    decreases s.len(),
{
    if s.len() == 0 {
    } else if s[0] == k {
    } else if seq_lt(k, s[0]) {
        let r = seq![k] + s;
        assert forall|i: int, j: int| 0 <= i < j < r.len() implies seq_lt(
            #[trigger] r[i],
            #[trigger] r[j],
        ) by {
            if i == 0 {
                if j > 1 {
                    assert(seq_lt(s[0], s[j - 1]));
                    lemma_seq_lt_transitive(k, s[0], s[j - 1]);
                }
            } else {
                assert(seq_lt(s[i - 1], s[j - 1]));
            }
        }
    } else {
        lemma_seq_lt_total(k, s[0]);
        let t = s.drop_first();
        assert forall|i: int, j: int| 0 <= i < j < t.len() implies seq_lt(
            #[trigger] t[i],
            #[trigger] t[j],
        ) by {
            assert(seq_lt(s[i + 1], s[j + 1]));
        }
        lemma_insert_sorted_sorted(t, k);
        lemma_insert_sorted_contains(t, k);
        let q = insert_sorted(t, k);
        let r = seq![s[0]] + q;
        assert forall|i: int, j: int| 0 <= i < j < r.len() implies seq_lt(
            #[trigger] r[i],
            #[trigger] r[j],
        ) by {
            if i == 0 {
                let x = q[j - 1];
                assert(q.contains(x));
                if x != k {
                    assert(t.contains(x));
                    let m = choose|m: int| 0 <= m < t.len() && t[m] == x;
                    assert(seq_lt(s[0], s[m + 1]));
                }
            } else {
                assert(seq_lt(q[i - 1], q[j - 1]));
            }
        }
    }
}

/// Adds `k` to a list of strings kept in increasing order, where it is not
/// yet there.
pub fn insert_string_sorted(list: &mut Vec<String>, k: String)
    ensures
        strings_view(final(list)@) == insert_sorted(strings_view(old(list)@), k@),
        forall|x: Seq<char>| #[trigger]
            strings_set(final(list)@).contains(x) <==> (strings_set(old(list)@).contains(x) || x
                == k@),
        strictly_sorted(strings_view(old(list)@)) ==> strictly_sorted(strings_view(final(list)@)),
{
    let ghost sv = strings_view(list@);
    proof {
        lemma_insert_sorted_contains(sv, k@);
        if strictly_sorted(sv) {
            lemma_insert_sorted_sorted(sv, k@);
        }
    }
    let n = list.len();
    let mut i: usize = 0;
    while i < n
        invariant
            i <= n,
            n == list@.len(),
            list@ == old(list)@,
            sv == strings_view(list@),
            forall|j: int| 0 <= j < i ==> #[trigger] sv[j] != k@ && !seq_lt(k@, sv[j]),
        decreases n - i,
    {
        if str_equal(list[i].as_str(), k.as_str()) {
            proof {
                assert(strings_view(list@)[i as int] == k@);
                lemma_insert_sorted_split(sv, k@, i as int);
                assert(sv.skip(i as int)[0] == sv[i as int]);
                assert(sv.take(i as int) + sv.skip(i as int) =~= sv);
            }
            return;
        }
        if str_less(k.as_str(), list[i].as_str()) {
            proof {
                lemma_insert_sorted_split(sv, k@, i as int);
                assert(sv.skip(i as int)[0] == sv[i as int]);
            }
            list.insert(i, k);
            proof {
                lemma_insert_sorted_contains(sv, k@);
                if strictly_sorted(sv) {
                    lemma_insert_sorted_sorted(sv, k@);
                }
                assert(strings_view(list@) =~= sv.take(i as int) + (seq![k@] + sv.skip(i as int)));
            }
            return;
        }
        i = i + 1;
    }
    proof {
        lemma_insert_sorted_split(sv, k@, n as int);
        assert(sv.skip(n as int) =~= Seq::<Seq<char>>::empty());
    }
    list.push(k);
    proof {
        assert(strings_view(list@) =~= sv.take(n as int) + seq![k@]);
    }
}

/// The repository that a workspace's worktree belongs to, where it names a
/// non-empty one.
pub open spec fn repo_key(w: JsonV) -> Option<Seq<char>> {
    match w.get("worktree"@) {
        Some(t) => match t.str_field("repo_key"@) {
            Some(k) => if k.len() > 0 {
                Some(k)
            } else {
                None
            },
            None => None,
        },
        None => None,
    }
}

/// Whether a workspace's worktree is linked, as it says.
pub open spec fn linked_flag(w: JsonV) -> Option<JsonV> {
    match w.get("worktree"@) {
        Some(t) => t.get("is_linked_worktree"@),
        None => None,
    }
}

/// The repositories of the workspaces, each once, in increasing order.
pub open spec fn group_keys(ws: Seq<JsonV>) -> Seq<Seq<char>>
    decreases ws.len(),
{
    if ws.len() == 0 {
        Seq::empty()
    } else {
        let ks = group_keys(ws.drop_last());
        match repo_key(ws.last()) {
            Some(k) => insert_sorted(ks, k),
            None => ks,
        }
    }
}

/// The message for a grouped workspace that does not say whether it is linked.
pub open spec fn missing_linked_message() -> Seq<char> {
    "missing is_linked_worktree"@
}

/// The position of the first workspace of group `key` from `i` on that is
/// not a linked worktree (the group's primary checkout); the message where
/// a workspace of the group before it does not say whether it is linked.
pub open spec fn primary_from(ws: Seq<JsonV>, key: Seq<char>, i: int) -> Result<
    Option<int>,
    Seq<char>,
>
    decreases ws.len() - i,
{
    if i < 0 || i >= ws.len() {
        Ok(None)
    } else if repo_key(ws[i]) != Some(key) {
        primary_from(ws, key, i + 1)
    } else {
        match linked_flag(ws[i]) {
            None => Err(missing_linked_message()),
            Some(f) => if !truthy_spec(f) {
                Ok(Some(i))
            } else {
                primary_from(ws, key, i + 1)
            },
        }
    }
}

/// The number of workspaces of group `key` among the first `n`.
pub open spec fn member_count(ws: Seq<JsonV>, key: Seq<char>, n: int) -> nat
    decreases n,
{
    if n <= 0 {
        0
    } else if repo_key(ws[n - 1]) == Some(key) {
        member_count(ws, key, n - 1) + 1
    } else {
        member_count(ws, key, n - 1)
    }
}

/// The ids of the workspaces of group `key` among the first `n`, but for
/// the one at `primary`; the message of the first without an id.
pub open spec fn other_members(ws: Seq<JsonV>, key: Seq<char>, primary: int, n: int) -> Result<
    Set<Seq<char>>,
    Seq<char>,
>
    decreases n,
{
    if n <= 0 {
        Ok(Set::empty())
    } else {
        match other_members(ws, key, primary, n - 1) {
            Err(e) => Err(e),
            Ok(s) => if repo_key(ws[n - 1]) == Some(key) && n - 1 != primary {
                match text_field_spec(ws[n - 1], "workspace_id"@) {
                    Ok(id) => Ok(s.insert(id)),
                    Err(e) => Err(e),
                }
            } else {
                Ok(s)
            },
        }
    }
}

/// The indented workspaces of group `key`: where the group has a primary
/// checkout and more than one workspace, all the others.
pub open spec fn group_indented(ws: Seq<JsonV>, key: Seq<char>) -> Result<Set<Seq<char>>, Seq<char>> {
    match primary_from(ws, key, 0) {
        Err(e) => Err(e),
        Ok(None) => Ok(Set::empty()),
        Ok(Some(p)) => if member_count(ws, key, ws.len() as int) > 1 {
            other_members(ws, key, p, ws.len() as int)
        } else {
            Ok(Set::empty())
        },
    }
}

/// The indented workspaces of the groups `keys`, taken in order; the first
/// problem met.
pub open spec fn indented_in_groups(ws: Seq<JsonV>, keys: Seq<Seq<char>>) -> Result<
    Set<Seq<char>>,
    Seq<char>,
>
    decreases keys.len(),
{
    if keys.len() == 0 {
        Ok(Set::empty())
    } else {
        match indented_in_groups(ws, keys.drop_last()) {
            Err(e) => Err(e),
            Ok(s) => match group_indented(ws, keys.last()) {
                Err(e) => Err(e),
                Ok(t) => Ok(s.union(t)),
            },
        }
    }
}

/// The ids of the workspaces that the sidebar indents under their
/// repository's primary checkout, groups taken in increasing order of
/// repository.
pub open spec fn indented_spec(ws: Seq<JsonV>) -> Result<Set<Seq<char>>, Seq<char>> {
    indented_in_groups(ws, group_keys(ws))
}

fn repo_key_of(w: &Json) -> (r: Option<&str>)
    ensures
        match r {
            Some(k) => repo_key(w@) == Some(k@),
            None => repo_key(w@) is None,
        },
{
    match w.get("worktree") {
        Some(t) => match t.get("repo_key") {
            Some(k) => match k.as_str() {
                Some(k) => if k.is_empty() {
                    None
                } else {
                    Some(k)
                },
                None => None,
            },
            None => None,
        },
        None => None,
    }
}

fn linked_flag_of(w: &Json) -> (r: Option<&Json>)
    ensures
        opt_view(r) == linked_flag(w@),
{
    match w.get("worktree") {
        Some(t) => t.get("is_linked_worktree"),
        None => None,
    }
}

fn in_group(w: &Json, key: &str) -> (r: bool)
    ensures
        r == (repo_key(w@) == Some(key@)),
{
    match repo_key_of(w) {
        Some(k) => str_equal(k, key),
        None => false,
    }
}

fn primary_member(ws: &[Json], key: &str) -> (r: Result<Option<usize>, String>)
    ensures
        match primary_from(json_views(ws@), key@, 0) {
            Ok(None) => r == Ok::<Option<usize>, String>(None),
            Ok(Some(p)) => r matches Ok(Some(q)) && q == p,
            Err(e) => r matches Err(f) && f@ == e,
        },
{
    let ghost wv = json_views(ws@);
    let n = ws.len();
    let mut i: usize = 0;
    while i < n
        invariant
            i <= n,
            n == ws@.len(),
            wv == json_views(ws@),
            primary_from(wv, key@, 0) == primary_from(wv, key@, i as int),
        decreases n - i,
    {
        if in_group(&ws[i], key) {
            match linked_flag_of(&ws[i]) {
                None => {
                    return Err("missing is_linked_worktree".to_owned());
                },
                Some(f) => {
                    if !f.is_truthy() {
                        return Ok(Some(i));
                    }
                },
            }
        }
        i = i + 1;
    }
    Ok(None)
}

fn count_members(ws: &[Json], key: &str) -> (r: usize)
    ensures
        r == member_count(json_views(ws@), key@, ws@.len() as int),
{
    let ghost wv = json_views(ws@);
    let n = ws.len();
    let mut i: usize = 0;
    let mut count: usize = 0;
    while i < n
        invariant
            i <= n,
            n == ws@.len(),
            wv == json_views(ws@),
            count == member_count(wv, key@, i as int),
            count <= i,
        decreases n - i,
    {
        if in_group(&ws[i], key) {
            count = count + 1;
        }
        i = i + 1;
    }
    count
}

proof fn lemma_other_members_err(ws: Seq<JsonV>, key: Seq<char>, p: int, m: int, n: int)
    requires
        0 <= m <= n,
        other_members(ws, key, p, m) is Err,
    ensures
        other_members(ws, key, p, n) == other_members(ws, key, p, m),
    decreases n - m,
{
    if n > m {
        lemma_other_members_err(ws, key, p, m, n - 1);
    }
}

proof fn lemma_groups_err(ws: Seq<JsonV>, keys: Seq<Seq<char>>, j: int)
    requires
        0 <= j <= keys.len(),
        indented_in_groups(ws, keys.take(j)) is Err,
    ensures
        indented_in_groups(ws, keys) == indented_in_groups(ws, keys.take(j)),
    decreases keys.len() - j,
{
    if j < keys.len() {
        assert(keys.drop_last().take(j) =~= keys.take(j));
        lemma_groups_err(ws, keys.drop_last(), j);
    } else {
        assert(keys.take(j) =~= keys);
    }
}

fn add_other_members(ws: &[Json], key: &str, primary: usize, out: &mut Vec<String>) -> (r: Result<
    (),
    String,
>)
    ensures
        match other_members(json_views(ws@), key@, primary as int, ws@.len() as int) {
            Ok(t) => r is Ok && forall|x: Seq<char>| #[trigger]
                strings_set(final(out)@).contains(x) <==> (strings_set(old(out)@).contains(x)
                    || t.contains(x)),
            Err(e) => r matches Err(f) && f@ == e,
        },
        strictly_sorted(strings_view(old(out)@)) ==> strictly_sorted(strings_view(final(out)@)),
{
    let ghost wv = json_views(ws@);
    let n = ws.len();
    let mut i: usize = 0;
    while i < n
        invariant
            i <= n,
            n == ws@.len(),
            wv == json_views(ws@),
            other_members(wv, key@, primary as int, i as int) is Ok,
            strictly_sorted(strings_view(old(out)@)) ==> strictly_sorted(strings_view(out@)),
            forall|x: Seq<char>| #[trigger]
                strings_set(out@).contains(x) <==> (strings_set(old(out)@).contains(x)
                    || other_members(wv, key@, primary as int, i as int)->Ok_0.contains(x)),
        decreases n - i,
    {
        if i != primary && in_group(&ws[i], key) {
            match text_field(&ws[i], "workspace_id") {
                Ok(id) => {
                    insert_string_sorted(out, id.to_owned());
                },
                Err(e) => {
                    proof {
                        lemma_other_members_err(wv, key@, primary as int, i + 1, n as int);
                    }
                    return Err(e);
                },
            }
        }
        i = i + 1;
    }
    Ok(())
}

/// The ids of the workspaces that the sidebar indents, as
/// [`indented_spec`] says, in increasing order; the first problem met.
pub fn indented_workspaces(workspaces: &[Json]) -> (r: Result<Vec<String>, String>)
    ensures
        match r {
            Ok(v) => indented_spec(json_views(workspaces@)) == Ok::<Set<Seq<char>>, Seq<char>>(
                strings_set(v@),
            ) && strictly_sorted(strings_view(v@)),
            Err(e) => indented_spec(json_views(workspaces@)) == Err::<Set<Seq<char>>, Seq<char>>(
                e@,
            ),
        },
{
    let ghost wv = json_views(workspaces@);
    let n = workspaces.len();
    let mut keys: Vec<String> = Vec::new();
    let mut i: usize = 0;
    proof {
        assert(wv.take(0) =~= Seq::<JsonV>::empty());
        assert(strings_view(keys@) =~= Seq::<Seq<char>>::empty());
    }
    while i < n
        invariant
            i <= n,
            n == workspaces@.len(),
            wv == json_views(workspaces@),
            strings_view(keys@) == group_keys(wv.take(i as int)),
        decreases n - i,
    {
        proof {
            assert(wv.take(i + 1).drop_last() =~= wv.take(i as int));
            assert(wv.take(i + 1).last() == workspaces@[i as int]@);
        }
        match repo_key_of(&workspaces[i]) {
            Some(k) => {
                insert_string_sorted(&mut keys, k.to_owned());
            },
            None => {},
        }
        i = i + 1;
    }
    proof {
        assert(wv.take(n as int) =~= wv);
    }
    let ghost kv = strings_view(keys@);
    let mut result: Vec<String> = Vec::new();
    proof {
        assert(kv.take(0) =~= Seq::<Seq<char>>::empty());
        assert(strings_set(result@) =~= Set::<Seq<char>>::empty());
    }
    let nk = keys.len();
    let mut g: usize = 0;
    while g < nk
        invariant
            g <= nk,
            nk == keys@.len(),
            n == workspaces@.len(),
            wv == json_views(workspaces@),
            kv == strings_view(keys@),
            kv == group_keys(wv),
            indented_in_groups(wv, kv.take(g as int)) == Ok::<Set<Seq<char>>, Seq<char>>(
                strings_set(result@),
            ),
            strictly_sorted(strings_view(result@)),
        decreases nk - g,
    {
        let key = keys[g].as_str();
        let ghost before = strings_set(result@);
        proof {
            assert(kv.take(g + 1).drop_last() =~= kv.take(g as int));
            assert(kv.take(g + 1).last() == key@);
        }
        match primary_member(workspaces, key) {
            Err(e) => {
                proof {
                    lemma_groups_err(wv, kv, g + 1);
                }
                return Err(e);
            },
            Ok(None) => {
                proof {
                    assert(before.union(Set::<Seq<char>>::empty()) =~= before);
                }
            },
            Ok(Some(p)) => {
                if count_members(workspaces, key) > 1 {
                    match add_other_members(workspaces, key, p, &mut result) {
                        Err(e) => {
                            proof {
                                lemma_groups_err(wv, kv, g + 1);
                            }
                            return Err(e);
                        },
                        Ok(()) => {
                            proof {
                                let t = other_members(wv, key@, p as int, n as int)->Ok_0;
                                assert(strings_set(result@) =~= before.union(t));
                            }
                        },
                    }
                } else {
                    proof {
                        assert(before.union(Set::<Seq<char>>::empty()) =~= before);
                    }
                }
            },
        }
        g = g + 1;
    }
    proof {
        assert(kv.take(nk as int) =~= kv);
    }
    Ok(result)
}

/// A token's JSON value: its text, or `null` where there is none.
pub open spec fn token_value(t: Option<Seq<char>>) -> JsonV {
    match t {
        Some(s) => JsonV::Str(s),
        None => JsonV::Null,
    }
}

/// The two display tokens of a space as a JSON object.
pub open spec fn tokens_object(space: Option<Seq<char>>, branch: Option<Seq<char>>) -> JsonV {
    JsonV::Object(
        seq![("short_branch"@, token_value(branch)), ("short_space"@, token_value(space))],
    )
}

/// An optional string's model.
pub open spec fn opt_string_view(s: Option<String>) -> Option<Seq<char>> {
    match s {
        Some(t) => Some(t@),
        None => None,
    }
}

/// A branch name, where it is not empty.
pub open spec fn nonempty_branch(branch: Option<Seq<char>>) -> Option<Seq<char>> {
    match branch {
        Some(b) => if b.len() > 0 {
            Some(b)
        } else {
            None
        },
        None => None,
    }
}

/// Whether a saved hint says that Herdr named the space after its directory.
pub open spec fn automatic_name(hint: Option<JsonV>) -> bool {
    match hint {
        Some(h) => h.get("custom_name"@) == Some(JsonV::Null),
        None => false,
    }
}

/// The display tokens of a workspace. The space keeps its label, but an
/// indented space named automatically (and not just renamed) shows its
/// formatted branch; only a space that is not indented shows the formatted
/// branch as its branch token. Both go through [`token_text_spec`].
pub open spec fn labels_spec(
    workspace: JsonV,
    hint: Option<JsonV>,
    branch: Option<Seq<char>>,
    indented: bool,
    formatter: FormatterView,
    renamed: bool,
) -> Result<JsonV, Seq<char>> {
    match text_field_spec(workspace, "label"@) {
        Err(e) => Err(e),
        Ok(label) => {
            let branch = nonempty_branch(branch);
            let name = if indented && automatic_name(hint) && !renamed && branch is Some {
                format_spec(formatter, branch->0)
            } else {
                Ok(label)
            };
            match name {
                Err(e) => Err(e),
                Ok(name) => if !indented && branch is Some {
                    match format_spec(formatter, branch->0) {
                        Err(e) => Err(e),
                        Ok(b) => Ok(
                            tokens_object(token_text_spec(Some(name)), token_text_spec(Some(b))),
                        ),
                    }
                } else {
                    Ok(tokens_object(token_text_spec(Some(name)), None))
                },
            }
        },
    }
}

fn token_json(t: Option<String>) -> (j: Json)
    ensures
        j@ == token_value(opt_string_view(t)),
{
    match t {
        Some(s) => Json::Str(s),
        None => Json::Null,
    }
}

/// The two display tokens as a JSON object.
pub fn tokens_json(space: Option<String>, branch: Option<String>) -> (j: Json)
    ensures
        j@ == tokens_object(opt_string_view(space), opt_string_view(branch)),
{
    let b = token_json(branch);
    let s = token_json(space);
    let entries = vec![("short_branch".to_owned(), b), ("short_space".to_owned(), s)];
    proof {
        crate::json::lemma_entries_view(entries@);
        assert(crate::json::entries_view(entries@) =~= seq![
            ("short_branch"@, token_value(opt_string_view(branch))),
            ("short_space"@, token_value(opt_string_view(space))),
        ]);
    }
    Json::Object(entries)
}

/// The display tokens of a workspace, as [`labels_spec`] says.
pub fn labels(
    workspace: &Json,
    hint: Option<&Json>,
    branch: Option<&str>,
    indented: bool,
    formatter: &Formatter,
    renamed: bool,
) -> (r: Result<Json, String>)
    ensures
        match r {
            Ok(j) => labels_spec(
                workspace@,
                opt_view(hint),
                crate::text::str_option_view(branch),
                indented,
                formatter@,
                renamed,
            ) == Ok::<JsonV, Seq<char>>(j@),
            Err(e) => labels_spec(
                workspace@,
                opt_view(hint),
                crate::text::str_option_view(branch),
                indented,
                formatter@,
                renamed,
            ) == Err::<JsonV, Seq<char>>(e@),
        },
{
    let label = match text_field(workspace, "label") {
        Ok(l) => l,
        Err(e) => {
            return Err(e);
        },
    };
    let branch = match branch {
        Some(b) => if b.is_empty() {
            None
        } else {
            Some(b)
        },
        None => None,
    };
    let automatic = match hint {
        Some(h) => match h.get("custom_name") {
            Some(c) => c.is_null(),
            None => false,
        },
        None => false,
    };
    let mut name: String = label.to_owned();
    if indented && automatic && !renamed {
        if let Some(b) = branch {
            match formatter.format(b) {
                Ok(f) => {
                    name = f;
                },
                Err(e) => {
                    return Err(e);
                },
            }
        }
    }
    let short_branch: Option<String> = if !indented {
        match branch {
            Some(b) => match formatter.format(b) {
                Ok(f) => Some(f),
                Err(e) => {
                    return Err(e);
                },
            },
            None => None,
        }
    } else {
        None
    };
    let space_token = token_text(Some(name.as_str()));
    let branch_token = match &short_branch {
        Some(b) => token_text(Some(b.as_str())),
        None => None,
    };
    Ok(tokens_json(space_token, branch_token))
}

} // verus!
