//! Character-level text handling: Unicode whitespace, trimming, collapsing
//! runs of whitespace, and the normalisation of sidebar tokens.
use vstd::prelude::*;

verus! {

/// The longest token, in characters, that Herdr keeps.
pub const TOKEN_LIMIT: usize = 80;

/// Unicode's `White_Space` property, the set that `char::is_whitespace`,
/// `str::trim` and `str::split_whitespace` use.
pub open spec fn is_white_space(c: char) -> bool {
    ||| ('\t' <= c && c <= '\r')
    ||| c == ' '
    ||| c == '\u{85}'
    ||| c == '\u{a0}'
    ||| c == '\u{1680}'
    ||| ('\u{2000}' <= c && c <= '\u{200a}')
    ||| c == '\u{2028}'
    ||| c == '\u{2029}'
    ||| c == '\u{202f}'
    ||| c == '\u{205f}'
    ||| c == '\u{3000}'
}

/// Whether `c` is Unicode whitespace.
pub fn white_space(c: char) -> (b: bool)
    ensures
        b == is_white_space(c),
{
    ('\t' <= c && c <= '\r') || c == ' ' || c == '\u{85}' || c == '\u{a0}' || c == '\u{1680}'
        || ('\u{2000}' <= c && c <= '\u{200a}') || c == '\u{2028}' || c == '\u{2029}' || c
        == '\u{202f}' || c == '\u{205f}' || c == '\u{3000}'
}

/// `s` without its leading whitespace.
pub open spec fn trim_start(s: Seq<char>) -> Seq<char>
    decreases s.len(),
{
    if s.len() > 0 && is_white_space(s[0]) {
        trim_start(s.drop_first())
    } else {
        s
    }
}

/// `s` without its trailing whitespace.
pub open spec fn trim_end(s: Seq<char>) -> Seq<char>
    decreases s.len(),
{
    if s.len() > 0 && is_white_space(s.last()) {
        trim_end(s.drop_last())
    } else {
        s
    }
}

/// `s` without leading and trailing whitespace, as `str::trim` gives it.
pub open spec fn trim(s: Seq<char>) -> Seq<char> {
    trim_end(trim_start(s))
}

/// The maximal runs of non-whitespace characters of `s`, in order, as
/// `str::split_whitespace` yields them.
pub open spec fn words(s: Seq<char>) -> Seq<Seq<char>>
    decreases s.len(),
{
    if s.len() == 0 {
        Seq::empty()
    } else {
        let w = words(s.drop_last());
        let c = s.last();
        if is_white_space(c) {
            w
        } else if s.len() >= 2 && !is_white_space(s[s.len() - 2]) {
            w.update(w.len() - 1, w.last().push(c))
        } else {
            w.push(seq![c])
        }
    }
}

/// The words joined with single spaces.
pub open spec fn join_words(w: Seq<Seq<char>>) -> Seq<char>
    decreases w.len(),
{
    if w.len() == 0 {
        Seq::empty()
    } else if w.len() == 1 {
        w[0]
    } else {
        join_words(w.drop_last()) + seq![' '] + w.last()
    }
}

/// Every run of whitespace in `s` collapsed to one space, with none at
/// either end.
pub open spec fn collapse_white_space(s: Seq<char>) -> Seq<char> {
    join_words(words(s))
}

/// A character that a sidebar token keeps: neither a C0 control character
/// nor DEL or a C1 control character.
pub open spec fn is_visible(c: char) -> bool {
    c >= ' ' && !('\u{7f}' <= c && c <= '\u{9f}')
}

/// The visible characters of `s`, in order.
pub open spec fn visible_chars(s: Seq<char>) -> Seq<char>
    decreases s.len(),
{
    if s.len() == 0 {
        Seq::empty()
    } else if is_visible(s.last()) {
        visible_chars(s.drop_last()).push(s.last())
    } else {
        visible_chars(s.drop_last())
    }
}

/// The first `n` characters of `s`, or all of them where there are fewer.
pub open spec fn take_at_most(s: Seq<char>, n: nat) -> Seq<char> {
    if s.len() <= n {
        s
    } else {
        s.take(n as int)
    }
}

/// The sidebar token for a text: its visible characters, whitespace runs
/// collapsed to single spaces, cut to the token limit; nothing where that
/// leaves no character.
pub open spec fn token_text_spec(value: Option<Seq<char>>) -> Option<Seq<char>> {
    match value {
        None => None,
        Some(s) => {
            let t = take_at_most(collapse_white_space(visible_chars(s)), TOKEN_LIMIT as nat);
            if t.len() == 0 {
                None
            } else {
                Some(t)
            }
        },
    }
}

/// The characters of an optional string slice.
pub open spec fn str_option_view(value: Option<&str>) -> Option<Seq<char>> {
    match value {
        None => None,
        Some(v) => Some(v@),
    }
}

/// The characters of `s`, in order.
pub fn chars_of(s: &str) -> (out: Vec<char>)
    ensures
        out@ == s@,
{
    let mut out: Vec<char> = Vec::new();
    for c in it: s.chars()
        invariant
            out@ == it.seq().take(it.index() as int),
    {
        out.push(c);
    }
    out
}

/// A `String` holding the characters of `chars`, built by `String::from_iter`,
/// whose documentation says that it collects the characters in order.
#[verifier::external_body]
pub(crate) fn string_from_chars(chars: Vec<char>) -> (s: String)
    ensures
        s@ == chars@,
{
    String::from_iter(chars)
}

/// Whether two strings hold the same characters.
pub(crate) fn str_equal(a: &str, b: &str) -> (r: bool)
    ensures
        r == (a@ == b@),
{
    let x = chars_of(a);
    let y = chars_of(b);
    if x.len() != y.len() {
        return false;
    }
    let n = x.len();
    let mut i: usize = 0;
    while i < n
        invariant
            i <= n,
            n == x@.len(),
            n == y@.len(),
            x@ == a@,
            y@ == b@,
            forall|j: int| 0 <= j < i ==> x@[j] == y@[j],
        decreases n - i,
    {
        if x[i] != y[i] {
            assert(a@[i as int] != b@[i as int]);
            return false;
        }
        i = i + 1;
    }
    assert(x@ =~= y@);
    true
}

proof fn lemma_trim_start_skip(s: Seq<char>, i: int)
    requires
        0 <= i <= s.len(),
        forall|j: int| 0 <= j < i ==> is_white_space(#[trigger] s[j]),
    ensures
        trim_start(s) == trim_start(s.skip(i)),
    decreases i,
{
    if i > 0 {
        assert(s.drop_first().skip(i - 1) =~= s.skip(i));
        lemma_trim_start_skip(s.drop_first(), i - 1);
    } else {
        assert(s.skip(0) =~= s);
    }
}

proof fn lemma_trim_end_take(s: Seq<char>, j: int)
    requires
        0 <= j <= s.len(),
        forall|k: int| j <= k < s.len() ==> is_white_space(#[trigger] s[k]),
    ensures
        trim_end(s) == trim_end(s.take(j)),
    decreases s.len() - j,
{
    if j < s.len() {
        assert(s.drop_last().take(j) =~= s.take(j));
        lemma_trim_end_take(s.drop_last(), j);
    } else {
        assert(s.take(j) =~= s);
    }
}

/// `s` without leading and trailing whitespace.
pub fn trim_chars(s: &Vec<char>) -> (out: Vec<char>)
    ensures
        out@ == trim(s@),
{
    let n = s.len();
    let mut i: usize = 0;
    while i < n && white_space(s[i])
        invariant
            i <= n,
            n == s@.len(),
            forall|j: int| 0 <= j < i ==> is_white_space(#[trigger] s@[j]),
        decreases n - i,
    {
        i = i + 1;
    }
    proof {
        lemma_trim_start_skip(s@, i as int);
    }
    let mut j: usize = n;
    while j > i && white_space(s[j - 1])
        invariant
            i <= j <= n,
            n == s@.len(),
            forall|k: int| j <= k < n ==> is_white_space(#[trigger] s@[k]),
        decreases j,
    {
        j = j - 1;
    }
    let ghost rest = s@.skip(i as int);
    proof {
        assert(trim_start(rest) == rest);
        lemma_trim_end_take(rest, j - i);
        assert(rest.take(j - i) =~= s@.subrange(i as int, j as int));
        let t = s@.subrange(i as int, j as int);
        if t.len() > 0 {
            assert(t.last() == s@[j - 1]);
        }
        assert(trim_end(t) == t);
    }
    let mut out: Vec<char> = Vec::new();
    let mut k: usize = i;
    while k < j
        invariant
            i <= k <= j <= n,
            n == s@.len(),
            out@ == s@.subrange(i as int, k as int),
        decreases j - k,
    {
        out.push(s[k]);
        assert(out@ =~= s@.subrange(i as int, k + 1));
        k = k + 1;
    }
    out
}

pub proof fn lemma_words_nonempty(s: Seq<char>)
    ensures
        forall|i: int| 0 <= i < words(s).len() ==> #[trigger] words(s)[i].len() > 0,
        s.len() > 0 && !is_white_space(s.last()) ==> words(s).len() > 0,
    decreases s.len(),
{
    if s.len() > 0 {
        let p = s.drop_last();
        lemma_words_nonempty(p);
        let w = words(p);
        let c = s.last();
        if !is_white_space(c) && s.len() >= 2 && !is_white_space(s[s.len() - 2]) {
            assert(p.last() == s[s.len() - 2]);
            let w2 = w.update(w.len() - 1, w.last().push(c));
            assert forall|i: int| 0 <= i < w2.len() implies #[trigger] w2[i].len() > 0 by {
                if i != w.len() - 1 {
                    assert(w2[i] == w[i]);
                }
            }
        } else if !is_white_space(c) {
            let w2 = w.push(seq![c]);
            assert forall|i: int| 0 <= i < w2.len() implies #[trigger] w2[i].len() > 0 by {
                if i < w.len() {
                    assert(w2[i] == w[i]);
                }
            }
        }
    }
}

pub proof fn lemma_join_extend(w: Seq<Seq<char>>, c: char)
    requires
        w.len() > 0,
    ensures
        join_words(w.update(w.len() - 1, w.last().push(c))) == join_words(w).push(c),
{
    let w2 = w.update(w.len() - 1, w.last().push(c));
    if w.len() > 1 {
        assert(w2.drop_last() =~= w.drop_last());
        assert(join_words(w2) =~= join_words(w).push(c));
    }
}

proof fn lemma_join_nonempty(w: Seq<Seq<char>>)
    requires
        forall|i: int| 0 <= i < w.len() ==> #[trigger] w[i].len() > 0,
    ensures
        join_words(w).len() == 0 <==> w.len() == 0,
{
}

/// `s` with every run of whitespace collapsed to one space and none at
/// either end, as `split_whitespace` followed by `join(" ")` gives it.
pub fn collapse_chars(s: &Vec<char>) -> (out: Vec<char>)
    ensures
        out@ == collapse_white_space(s@),
{
    let n = s.len();
    let mut out: Vec<char> = Vec::new();
    let mut i: usize = 0;
    assert(s@.take(0) =~= Seq::<char>::empty());
    while i < n
        invariant
            i <= n,
            n == s@.len(),
            out@ == join_words(words(s@.take(i as int))),
        decreases n - i,
    {
        let c = s[i];
        let ghost p = s@.take(i as int);
        let ghost p1 = s@.take(i + 1);
        proof {
            assert(p1.drop_last() =~= p);
            assert(p1.last() == c);
            lemma_words_nonempty(p);
            lemma_join_nonempty(words(p));
        }
        if white_space(c) {
        } else if i > 0 && !white_space(s[i - 1]) {
            proof {
                assert(p1[p1.len() - 2] == s@[i - 1]);
                assert(p.last() == s@[i - 1]);
                lemma_join_extend(words(p), c);
            }
            out.push(c);
        } else {
            proof {
                if i > 0 {
                    assert(p1[p1.len() - 2] == s@[i - 1]);
                }
            }
            if out.len() > 0 {
                out.push(' ');
            }
            out.push(c);
            proof {
                let w = words(p);
                let w2 = w.push(seq![c]);
                assert(w2.drop_last() =~= w);
                if w.len() == 0 {
                    assert(out@ =~= seq![c]);
                } else {
                    assert(out@ =~= join_words(w) + seq![' '] + seq![c]);
                }
            }
        }
        i = i + 1;
    }
    assert(s@.take(n as int) =~= s@);
    out
}

/// Whether a sidebar token keeps `c`.
pub fn visible(c: char) -> (b: bool)
    ensures
        b == is_visible(c),
{
    c >= ' ' && !('\u{7f}' <= c && c <= '\u{9f}')
}

/// The sidebar token for `value`: control characters dropped, whitespace
/// runs collapsed to single spaces, at most [`TOKEN_LIMIT`] characters, and
/// `None` where nothing is left.
pub fn token_text(value: Option<&str>) -> (out: Option<String>)
    ensures
        match out {
            None => token_text_spec(str_option_view(value)) is None,
            Some(t) => token_text_spec(str_option_view(value)) == Some(t@),
        },
{
    let v = match value {
        None => {
            return None;
        },
        Some(v) => v,
    };
    let chars = chars_of(v);
    let n = chars.len();
    let mut kept: Vec<char> = Vec::new();
    let mut i: usize = 0;
    assert(chars@.take(0) =~= Seq::<char>::empty());
    while i < n
        invariant
            i <= n,
            n == chars@.len(),
            kept@ == visible_chars(chars@.take(i as int)),
        decreases n - i,
    {
        let c = chars[i];
        proof {
            let p1 = chars@.take(i + 1);
            assert(p1.drop_last() =~= chars@.take(i as int));
            assert(p1.last() == c);
        }
        if visible(c) {
            kept.push(c);
        }
        i = i + 1;
    }
    assert(chars@.take(n as int) =~= chars@);
    let collapsed = collapse_chars(&kept);
    let mut t: Vec<char> = Vec::new();
    let mut k: usize = 0;
    let limit = if collapsed.len() < TOKEN_LIMIT {
        collapsed.len()
    } else {
        TOKEN_LIMIT
    };
    while k < limit
        invariant
            k <= limit <= collapsed@.len(),
            limit == (if collapsed@.len() < TOKEN_LIMIT {
                collapsed@.len()
            } else {
                TOKEN_LIMIT as nat
            }),
            t@ == collapsed@.take(k as int),
        decreases limit - k,
    {
        t.push(collapsed[k]);
        assert(t@ =~= collapsed@.take(k + 1));
        k = k + 1;
    }
    proof {
        assert(t@ =~= take_at_most(collapsed@, TOKEN_LIMIT as nat));
    }
    if t.len() == 0 {
        None
    } else {
        Some(string_from_chars(t))
    }
}

} // verus!
