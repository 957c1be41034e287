//! Character-level text handling: white space, lines, trimming and tokens,
//! with the meaning that `str::lines`, `str::trim` and `str::split_whitespace` give them.
use vstd::prelude::*;

verus! {

/// The Unicode `White_Space` property, which is what `char::is_whitespace` tests.
pub open spec fn is_ws(c: char) -> bool {
    let u = c as u32;
    ||| 0x09 <= u <= 0x0d
    ||| u == 0x20
    ||| u == 0x85
    ||| u == 0xa0
    ||| u == 0x1680
    ||| 0x2000 <= u <= 0x200a
    ||| u == 0x2028
    ||| u == 0x2029
    ||| u == 0x202f
    ||| u == 0x205f
    ||| u == 0x3000
}

/// The predicate "is white space", as a value.
pub open spec fn ws_pred() -> spec_fn(char) -> bool {
    |c: char| is_ws(c)
}

/// The predicate "is a line feed", as a value.
pub open spec fn nl_pred() -> spec_fn(char) -> bool {
    |c: char| c == '\n'
}

/// Index of the first element of `s` that satisfies `p`, or `s.len()` when none does.
pub open spec fn first_index<A>(s: Seq<A>, p: spec_fn(A) -> bool) -> nat
    decreases s.len(),
{
    if s.len() == 0 {
        0
    } else if p(s[0]) {
        0
    } else {
        1 + first_index(s.drop_first(), p)
    }
}

/// `s` without its leading white space.
pub open spec fn trim_start(s: Seq<char>) -> Seq<char>
    decreases s.len(),
{
    if s.len() > 0 && is_ws(s[0]) {
        trim_start(s.drop_first())
    } else {
        s
    }
}

/// `s` without its trailing white space.
pub open spec fn trim_end(s: Seq<char>) -> Seq<char>
    decreases s.len(),
{
    if s.len() > 0 && is_ws(s.last()) {
        trim_end(s.drop_last())
    } else {
        s
    }
}

/// `s` without leading and trailing white space (`str::trim`).
pub open spec fn trim(s: Seq<char>) -> Seq<char> {
    trim_end(trim_start(s))
}

/// A line without the carriage return that ends it, if one does.
pub open spec fn strip_cr(l: Seq<char>) -> Seq<char> {
    if l.len() > 0 && l.last() == '\r' {
        l.drop_last()
    } else {
        l
    }
}

/// The lines of `s` (`str::lines`): the text is cut at each `\n`, a `\r` just before
/// a `\n` is dropped, and a final line ending adds no empty line.
pub open spec fn lines(s: Seq<char>) -> Seq<Seq<char>>
    decreases s.len(),
{
    if s.len() == 0 {
        seq![]
    } else {
        let k = first_index(s, nl_pred());
        if k >= s.len() {
            seq![s]
        } else {
            seq![strip_cr(s.take(k as int))] + lines(s.skip((k + 1) as int))
        }
    }
}

/// The maximal runs of characters other than white space (`str::split_whitespace`).
pub open spec fn tokens(s: Seq<char>) -> Seq<Seq<char>>
    decreases s.len(),
{
    if s.len() == 0 {
        seq![]
    } else if is_ws(s[0]) {
        tokens(s.drop_first())
    } else {
        let k = first_index(s, ws_pred());
        proof {
            lemma_first_index_bound(s, ws_pred());
        }
        seq![s.take(k as int)] + tokens(s.skip(k as int))
    }
}

/// The pieces of `v` that a list of ranges selects.
pub open spec fn pieces(v: Seq<char>, r: Seq<(usize, usize)>) -> Seq<Seq<char>> {
    r.map_values(|p: (usize, usize)| v.subrange(p.0 as int, p.1 as int))
}

/// Ranges that lie inside a sequence of length `n`, each in order.
pub open spec fn ranges_within(r: Seq<(usize, usize)>, n: int) -> bool {
    forall|i: int| 0 <= i < r.len() ==> (#[trigger] r[i]).0 <= r[i].1 <= n
}

pub proof fn lemma_first_index_bound<A>(s: Seq<A>, p: spec_fn(A) -> bool)
    ensures
        first_index(s, p) <= s.len(),
        first_index(s, p) < s.len() ==> p(s[first_index(s, p) as int]),
        forall|i: int| 0 <= i < first_index(s, p) ==> !p(#[trigger] s[i]),
    decreases s.len(),
{
    if s.len() > 0 && !p(s[0]) {
        lemma_first_index_bound(s.drop_first(), p);
        assert forall|i: int| 0 <= i < first_index(s, p) implies !p(#[trigger] s[i]) by {
            if i > 0 {
                assert(s[i] == s.drop_first()[i - 1]);
            }
        }
    }
}

/// The first index found by a scan is the one `first_index` names.
pub proof fn lemma_first_index<A>(s: Seq<A>, p: spec_fn(A) -> bool, k: int)
    requires
        0 <= k <= s.len(),
        forall|i: int| 0 <= i < k ==> !p(#[trigger] s[i]),
        k == s.len() || p(s[k]),
    ensures
        first_index(s, p) == k,
    decreases k,
{
    if k > 0 {
        assert forall|i: int| 0 <= i < k - 1 implies !p(#[trigger] s.drop_first()[i]) by {
            assert(!p(s[i + 1]));
        }
        assert(!p(s[0]));
        lemma_first_index(s.drop_first(), p, k - 1);
    }
}

pub proof fn lemma_trim_start(s: Seq<char>, k: int)
    requires
        0 <= k <= s.len(),
        forall|i: int| 0 <= i < k ==> is_ws(#[trigger] s[i]),
        k == s.len() || !is_ws(s[k]),
    ensures
        trim_start(s) == s.skip(k),
    decreases k,
{
    if k > 0 {
        assert(is_ws(s[0]));
        assert forall|i: int| 0 <= i < k - 1 implies is_ws(#[trigger] s.drop_first()[i]) by {
            assert(is_ws(s[i + 1]));
        }
        lemma_trim_start(s.drop_first(), k - 1);
        assert(s.drop_first().skip(k - 1) =~= s.skip(k));
    } else {
        assert(s.skip(0) =~= s);
    }
}

pub proof fn lemma_trim_end(s: Seq<char>, k: int)
    requires
        0 <= k <= s.len(),
        forall|i: int| k <= i < s.len() ==> is_ws(#[trigger] s[i]),
        k == 0 || !is_ws(s[k - 1]),
    ensures
        trim_end(s) == s.take(k),
    decreases s.len() - k,
{
    if k < s.len() {
        assert(is_ws(s[s.len() - 1]));
        assert forall|i: int| k <= i < s.drop_last().len() implies is_ws(
            #[trigger] s.drop_last()[i],
        ) by {
            assert(is_ws(s[i]));
        }
        lemma_trim_end(s.drop_last(), k);
        assert(s.drop_last().take(k) =~= s.take(k));
    } else {
        assert(s.take(k) =~= s);
    }
}

pub proof fn lemma_trim_start_cut(s: Seq<char>)
    ensures
        exists|k: int|
            0 <= k <= s.len() && trim_start(s) == s.skip(k) && (forall|i: int|
                0 <= i < k ==> is_ws(#[trigger] s[i])) && (k == s.len() || !is_ws(s[k])),
    decreases s.len(),
{
    if s.len() > 0 && is_ws(s[0]) {
        lemma_trim_start_cut(s.drop_first());
        let k = choose|k: int|
            0 <= k <= s.drop_first().len() && trim_start(s.drop_first()) == s.drop_first().skip(k)
                && (forall|i: int| 0 <= i < k ==> is_ws(#[trigger] s.drop_first()[i])) && (k
                == s.drop_first().len() || !is_ws(s.drop_first()[k]));
        assert(s.drop_first().skip(k) =~= s.skip(k + 1));
        assert forall|i: int| 0 <= i < k + 1 implies is_ws(#[trigger] s[i]) by {
            if i > 0 {
                assert(s[i] == s.drop_first()[i - 1]);
            }
        }
        if k + 1 < s.len() {
            assert(s[k + 1] == s.drop_first()[k]);
        }
    } else {
        assert(s.skip(0) =~= s);
    }
}

pub proof fn lemma_trim_end_cut(s: Seq<char>)
    ensures
        exists|k: int|
            0 <= k <= s.len() && trim_end(s) == s.take(k) && (forall|i: int|
                k <= i < s.len() ==> is_ws(#[trigger] s[i])) && (k == 0 || !is_ws(s[k - 1])),
    decreases s.len(),
{
    if s.len() > 0 && is_ws(s.last()) {
        let d = s.drop_last();
        lemma_trim_end_cut(d);
        let k = choose|k: int|
            0 <= k <= d.len() && trim_end(d) == d.take(k) && (forall|i: int|
                k <= i < d.len() ==> is_ws(#[trigger] d[i])) && (k == 0 || !is_ws(d[k - 1]));
        assert(d.take(k) =~= s.take(k));
        assert forall|i: int| k <= i < s.len() implies is_ws(#[trigger] s[i]) by {
            if i < s.len() - 1 {
                assert(s[i] == d[i]);
            }
        }
        if k > 0 {
            assert(s[k - 1] == d[k - 1]);
        }
    } else {
        assert(s.take(s.len() as int) =~= s);
    }
}

/// A trimmed text is empty or has no white space at either end, and trimming it
/// again leaves it as it is.
pub proof fn lemma_trim_clean(s: Seq<char>)
    ensures
        trim(s).len() > 0 ==> !is_ws(trim(s)[0]) && !is_ws(trim(s).last()),
        trim(trim(s)) == trim(s),
{
    lemma_trim_start_cut(s);
    let k1 = choose|k: int|
        0 <= k <= s.len() && trim_start(s) == s.skip(k) && (forall|i: int|
            0 <= i < k ==> is_ws(#[trigger] s[i])) && (k == s.len() || !is_ws(s[k]));
    let t = s.skip(k1);
    lemma_trim_end_cut(t);
    let k2 = choose|k: int|
        0 <= k <= t.len() && trim_end(t) == t.take(k) && (forall|i: int|
            k <= i < t.len() ==> is_ws(#[trigger] t[i])) && (k == 0 || !is_ws(t[k - 1]));
    let r = t.take(k2);
    if r.len() > 0 {
        assert(r[0] == t[0]);
        assert(t[0] == s[k1]);
        assert(r.last() == t[k2 - 1]);
        lemma_trim_start(r, 0);
        lemma_trim_end(r.skip(0), r.len() as int);
        assert(r.skip(0) =~= r);
        assert(r.take(r.len() as int) =~= r);
    } else {
        assert(trim_start(r) == r);
        assert(trim_end(r) == r);
    }
}

/// Tokens are unchanged by white space cut from the front.
pub proof fn lemma_tokens_skip_ws(s: Seq<char>, k: int)
    requires
        0 <= k <= s.len(),
        forall|i: int| 0 <= i < k ==> is_ws(#[trigger] s[i]),
    ensures
        tokens(s.skip(k)) == tokens(s),
    decreases k,
{
    if k == 0 {
        assert(s.skip(0) =~= s);
    } else {
        assert(is_ws(s[0]));
        assert forall|i: int| 0 <= i < k - 1 implies is_ws(#[trigger] s.drop_first()[i]) by {
            assert(is_ws(s[i + 1]));
        }
        lemma_tokens_skip_ws(s.drop_first(), k - 1);
        assert(s.drop_first().skip(k - 1) =~= s.skip(k));
    }
}

/// Tokens are unchanged by white space added at the end.
pub proof fn lemma_tokens_append_ws(s: Seq<char>, w: Seq<char>)
    requires
        forall|i: int| 0 <= i < w.len() ==> is_ws(#[trigger] w[i]),
    ensures
        tokens(s + w) == tokens(s),
    decreases s.len(),
{
    let u = s + w;
    if s.len() == 0 {
        assert(u =~= w);
        lemma_tokens_skip_ws(w, w.len() as int);
        assert(w.skip(w.len() as int) =~= Seq::<char>::empty());
    } else if is_ws(s[0]) {
        assert(u[0] == s[0]);
        assert(u.drop_first() =~= s.drop_first() + w);
        lemma_tokens_append_ws(s.drop_first(), w);
    } else {
        assert(u[0] == s[0]);
        lemma_first_index_bound(s, ws_pred());
        let k = first_index(s, ws_pred()) as int;
        assert forall|i: int| 0 <= i < k implies !ws_pred()(#[trigger] u[i]) by {
            assert(u[i] == s[i]);
            assert(!ws_pred()(s[i]));
        }
        if k < s.len() {
            assert(u[k] == s[k]);
        } else if w.len() > 0 {
            assert(u[k] == w[0]);
        }
        lemma_first_index(u, ws_pred(), k);
        assert(u.take(k) =~= s.take(k));
        assert(u.skip(k) =~= s.skip(k) + w);
        lemma_tokens_append_ws(s.skip(k), w);
    }
}

/// Trimming a text does not change its tokens.
pub proof fn lemma_tokens_trim(s: Seq<char>)
    ensures
        tokens(trim(s)) == tokens(s),
{
    lemma_trim_start_cut(s);
    let k1 = choose|k: int|
        0 <= k <= s.len() && trim_start(s) == s.skip(k) && (forall|i: int|
            0 <= i < k ==> is_ws(#[trigger] s[i])) && (k == s.len() || !is_ws(s[k]));
    lemma_tokens_skip_ws(s, k1);
    let t = s.skip(k1);
    lemma_trim_end_cut(t);
    let k2 = choose|k: int|
        0 <= k <= t.len() && trim_end(t) == t.take(k) && (forall|i: int|
            k <= i < t.len() ==> is_ws(#[trigger] t[i])) && (k == 0 || !is_ws(t[k - 1]));
    let w = t.skip(k2);
    assert forall|i: int| 0 <= i < w.len() implies is_ws(#[trigger] w[i]) by {
        assert(w[i] == t[k2 + i]);
    }
    assert(t.take(k2) + w =~= t);
    lemma_tokens_append_ws(t.take(k2), w);
}

/// The white space characters are exactly the 25 of the Unicode `White_Space` property:
/// tab, line feed, vertical tab, form feed, carriage return, space, next line,
/// no-break space, ogham space mark, the spaces U+2000 to U+200A, line separator,
/// paragraph separator, narrow no-break space, medium mathematical space and
/// ideographic space. In particular no visible ASCII character (`!` to `~`, among them
/// digits, signs, `.`, `e` and `E`) is white space.
pub proof fn lemma_white_space()
    ensures
        forall|c: char| #[trigger] is_ws(c) <==> (c == '\t' || c == '\n' || c == '\u{0B}' || c == '\u{0C}' || c == '\r' || c == ' ' || c == '\u{85}' || c == '\u{A0}' || c == '\u{1680}' || c == '\u{2000}' || c == '\u{2001}' || c == '\u{2002}' || c == '\u{2003}' || c == '\u{2004}' || c == '\u{2005}' || c == '\u{2006}' || c == '\u{2007}' || c == '\u{2008}' || c == '\u{2009}' || c == '\u{200A}' || c == '\u{2028}' || c == '\u{2029}' || c == '\u{202F}' || c == '\u{205F}' || c == '\u{3000}'),
        forall|c: char| 0x21 <= (c as u32) <= 0x7e ==> !#[trigger] is_ws(c),
{
    assert forall|c: char| #[trigger] is_ws(c) <==> (c == '\t' || c == '\n' || c == '\u{0B}' || c == '\u{0C}' || c == '\r' || c == ' ' || c == '\u{85}' || c == '\u{A0}' || c == '\u{1680}' || c == '\u{2000}' || c == '\u{2001}' || c == '\u{2002}' || c == '\u{2003}' || c == '\u{2004}' || c == '\u{2005}' || c == '\u{2006}' || c == '\u{2007}' || c == '\u{2008}' || c == '\u{2009}' || c == '\u{200A}' || c == '\u{2028}' || c == '\u{2029}' || c == '\u{202F}' || c == '\u{205F}' || c == '\u{3000}') by {
        let u = c as u32;
        vstd::utf8::char_u32_cast(c, u);
        vstd::utf8::char_u32_cast('\t', 0x9);
        vstd::utf8::char_u32_cast('\n', 0xa);
        vstd::utf8::char_u32_cast('\u{0B}', 0xb);
        vstd::utf8::char_u32_cast('\u{0C}', 0xc);
        vstd::utf8::char_u32_cast('\r', 0xd);
        vstd::utf8::char_u32_cast(' ', 0x20);
        vstd::utf8::char_u32_cast('\u{85}', 0x85);
        vstd::utf8::char_u32_cast('\u{A0}', 0xa0);
        vstd::utf8::char_u32_cast('\u{1680}', 0x1680);
        vstd::utf8::char_u32_cast('\u{2000}', 0x2000);
        vstd::utf8::char_u32_cast('\u{2001}', 0x2001);
        vstd::utf8::char_u32_cast('\u{2002}', 0x2002);
        vstd::utf8::char_u32_cast('\u{2003}', 0x2003);
        vstd::utf8::char_u32_cast('\u{2004}', 0x2004);
        vstd::utf8::char_u32_cast('\u{2005}', 0x2005);
        vstd::utf8::char_u32_cast('\u{2006}', 0x2006);
        vstd::utf8::char_u32_cast('\u{2007}', 0x2007);
        vstd::utf8::char_u32_cast('\u{2008}', 0x2008);
        vstd::utf8::char_u32_cast('\u{2009}', 0x2009);
        vstd::utf8::char_u32_cast('\u{200A}', 0x200a);
        vstd::utf8::char_u32_cast('\u{2028}', 0x2028);
        vstd::utf8::char_u32_cast('\u{2029}', 0x2029);
        vstd::utf8::char_u32_cast('\u{202F}', 0x202f);
        vstd::utf8::char_u32_cast('\u{205F}', 0x205f);
        vstd::utf8::char_u32_cast('\u{3000}', 0x3000);
    }
}

/// The tokens of a text are not empty, hold no white space, and put together give
/// every character of the text that is not white space, in order: splitting loses
/// and adds nothing but white space.
pub proof fn lemma_tokens_content(s: Seq<char>)
    ensures
        tokens(s).flatten() == s.filter(|c: char| !is_ws(c)),
        forall|i: int|
            0 <= i < tokens(s).len() ==> #[trigger] tokens(s)[i].len() > 0 && forall|j: int|
                0 <= j < tokens(s)[i].len() ==> !is_ws(#[trigger] tokens(s)[i][j]),
    decreases s.len(),
{
    let p = |c: char| !is_ws(c);
    if s.len() == 0 {
        reveal_with_fuel(Seq::filter, 1);
        assert(s.filter(p) =~= Seq::<char>::empty());
    } else if is_ws(s[0]) {
        lemma_tokens_content(s.drop_first());
        assert(s =~= seq![s[0]] + s.drop_first());
        s.drop_first().lemma_filter_prepend(s[0], p);
        assert(s.filter(p) =~= s.drop_first().filter(p));
    } else {
        lemma_first_index_bound(s, ws_pred());
        let k = first_index(s, ws_pred()) as int;
        let a = s.take(k);
        let b = s.skip(k);
        lemma_tokens_content(b);
        assert(s =~= a + b);
        Seq::filter_distributes_over_add(a, b, p);
        assert forall|j: int| 0 <= j < a.len() implies p(#[trigger] a[j]) by {
            assert(!ws_pred()(s[j]));
        }
        lemma_filter_all(a, p);
        let t = tokens(s);
        assert(t == seq![a] + tokens(b));
        assert(t.drop_first() =~= tokens(b));
        assert(t.flatten() == a + tokens(b).flatten());
        assert forall|i: int|
            0 <= i < t.len() implies #[trigger] t[i].len() > 0 && forall|j: int|
                0 <= j < t[i].len() ==> !is_ws(#[trigger] t[i][j]) by {
            if i == 0 {
                assert(t[0] == a);
                assert forall|j: int| 0 <= j < t[i].len() implies !is_ws(#[trigger] t[i][j]) by {
                    assert(p(a[j]));
                }
            } else {
                assert(t[i] == tokens(b)[i - 1]);
            }
        }
    }
}

/// Filtering keeps a sequence whose elements all pass.
pub proof fn lemma_filter_all<A>(s: Seq<A>, p: spec_fn(A) -> bool)
    requires
        forall|j: int| 0 <= j < s.len() ==> p(#[trigger] s[j]),
    ensures
        s.filter(p) == s,
    decreases s.len(),
{
    reveal_with_fuel(Seq::filter, 1);
    if s.len() > 0 {
        assert forall|j: int| 0 <= j < s.drop_last().len() implies p(#[trigger] s.drop_last()[j]) by {
            assert(p(s[j]));
        }
        lemma_filter_all(s.drop_last(), p);
        assert(p(s[s.len() - 1]));
        assert(s.drop_last().push(s.last()) =~= s);
    } else {
        assert(s.filter(p) =~= s);
    }
}

/// Trimming cuts white space, and only white space, from the two ends: the result is
/// a stretch `s[a..b]` of the text, everything before `a` and from `b` on is white space,
/// and a non-empty result starts and ends with a character that is not.
pub proof fn lemma_trim_cut(s: Seq<char>)
    ensures
        exists|a: int, b: int|
            0 <= a <= b <= s.len() && trim(s) == s.subrange(a, b) && (forall|i: int|
                0 <= i < a ==> is_ws(#[trigger] s[i])) && (forall|i: int|
                b <= i < s.len() ==> is_ws(#[trigger] s[i])) && (a < b ==> !is_ws(s[a]) && !is_ws(
                s[b - 1],
            )),
{
    lemma_trim_start_cut(s);
    let k1 = choose|k: int|
        0 <= k <= s.len() && trim_start(s) == s.skip(k) && (forall|i: int|
            0 <= i < k ==> is_ws(#[trigger] s[i])) && (k == s.len() || !is_ws(s[k]));
    let t = s.skip(k1);
    lemma_trim_end_cut(t);
    let k2 = choose|k: int|
        0 <= k <= t.len() && trim_end(t) == t.take(k) && (forall|i: int|
            k <= i < t.len() ==> is_ws(#[trigger] t[i])) && (k == 0 || !is_ws(t[k - 1]));
    let a = k1;
    let b = k1 + k2;
    assert(t.take(k2) =~= s.subrange(a, b));
    assert forall|i: int| b <= i < s.len() implies is_ws(#[trigger] s[i]) by {
        assert(s[i] == t[i - k1]);
    }
    if a < b {
        assert(s[a] == t[0]);
        assert(s[b - 1] == t[k2 - 1]);
    }
}

/// The number of line feeds in a text.
pub open spec fn count_nl(s: Seq<char>) -> nat
    decreases s.len(),
{
    if s.len() == 0 {
        0
    } else {
        count_nl(s.drop_first()) + if s[0] == '\n' {
            1nat
        } else {
            0nat
        }
    }
}

pub proof fn lemma_count_nl_split(s: Seq<char>, k: int)
    requires
        0 <= k <= s.len(),
    ensures
        count_nl(s) == count_nl(s.take(k)) + count_nl(s.skip(k)),
    decreases k,
{
    if k == 0 {
        assert(s.skip(0) =~= s);
        assert(s.take(0) =~= Seq::<char>::empty());
    } else {
        lemma_count_nl_split(s.drop_first(), k - 1);
        assert(s.take(k).drop_first() =~= s.drop_first().take(k - 1));
        assert(s.drop_first().skip(k - 1) =~= s.skip(k));
        assert(s.take(k)[0] == s[0]);
    }
}

pub proof fn lemma_count_nl_none(s: Seq<char>)
    requires
        forall|i: int| 0 <= i < s.len() ==> #[trigger] s[i] != '\n',
    ensures
        count_nl(s) == 0,
    decreases s.len(),
{
    if s.len() > 0 {
        assert forall|i: int| 0 <= i < s.drop_first().len() implies #[trigger] s.drop_first()[i]
            != '\n' by {
            assert(s[i + 1] != '\n');
        }
        lemma_count_nl_none(s.drop_first());
    }
}

/// No line holds a line feed, and there is one line per line feed, plus one for a last
/// line that no line feed ends.
pub proof fn lemma_lines_count(s: Seq<char>)
    ensures
        forall|i: int, j: int|
            0 <= i < lines(s).len() && 0 <= j < lines(s)[i].len() ==> #[trigger] lines(s)[i][j]
                != '\n',
        lines(s).len() == count_nl(s) + (if s.len() > 0 && s.last() != '\n' {
            1nat
        } else {
            0nat
        }),
    decreases s.len(),
{
    if s.len() > 0 {
        let k = first_index(s, nl_pred()) as int;
        lemma_first_index_bound(s, nl_pred());
        if k >= s.len() {
            assert forall|j: int| 0 <= j < s.len() implies #[trigger] s[j] != '\n' by {
                assert(!nl_pred()(s[j]));
            }
            lemma_count_nl_none(s);
            assert(lines(s) == seq![s]);
        } else {
            let rest = s.skip(k + 1);
            lemma_lines_count(rest);
            let l = strip_cr(s.take(k));
            assert(lines(s) == seq![l] + lines(rest));
            assert forall|i: int, j: int|
                0 <= i < lines(s).len() && 0 <= j < lines(s)[i].len() implies #[trigger] lines(
                s,
            )[i][j] != '\n' by {
                if i == 0 {
                    assert(l[j] == s[j]);
                    assert(!nl_pred()(s[j]));
                } else {
                    assert(lines(s)[i] == lines(rest)[i - 1]);
                }
            }
            lemma_count_nl_split(s, k);
            assert forall|j: int| 0 <= j < s.take(k).len() implies #[trigger] s.take(k)[j]
                != '\n' by {
                assert(!nl_pred()(s[j]));
            }
            lemma_count_nl_none(s.take(k));
            let u = s.skip(k);
            assert(u[0] == '\n');
            assert(u.drop_first() =~= rest);
            if rest.len() > 0 {
                assert(rest.last() == s.last());
            }
        }
    }
}

/// Whether `c` is white space in the sense of `char::is_whitespace`.
pub fn is_whitespace(c: char) -> (r: bool)
    ensures
        r == is_ws(c),
{
    let u = c as u32;
    (0x09 <= u && u <= 0x0d) || u == 0x20 || u == 0x85 || u == 0xa0 || u == 0x1680 || (0x2000
        <= u && u <= 0x200a) || u == 0x2028 || u == 0x2029 || u == 0x202f || u == 0x205f || u
        == 0x3000
}

/// `String::push`: appends one character at the end of the string.
#[verifier::external_body]
pub(crate) fn push_char(s: &mut String, c: char)
    ensures
        final(s)@ == old(s)@.push(c),
{
    s.push(c);
}

/// The characters of `s`, in order.
pub fn chars_of(s: &str) -> (v: Vec<char>)
    ensures
        v@ == s@,
{
    let mut v: Vec<char> = Vec::new();
    for c in it: s.chars()
        invariant
            v@ == it.seq().take(it.index() as int),
            it.seq() == s@,
    {
        v.push(c);
    }
    v
}

/// The characters `v[lo..hi]` as a string.
pub fn string_of(v: &Vec<char>, lo: usize, hi: usize) -> (s: String)
    requires
        lo <= hi <= v.len(),
    ensures
        s@ == v@.subrange(lo as int, hi as int),
{
    let mut s = String::new();
    let mut i = lo;
    while i < hi
        invariant
            lo <= i <= hi <= v.len(),
            s@ == v@.subrange(lo as int, i as int),
        decreases hi - i,
    {
        push_char(&mut s, v[i]);
        assert(v@.subrange(lo as int, i + 1) =~= v@.subrange(lo as int, i as int).push(v@[i as int]));
        i = i + 1;
    }
    s
}

/// The range of `v[lo..hi]` that is left once leading and trailing white space is cut.
pub fn trim_range(v: &Vec<char>, lo: usize, hi: usize) -> (r: (usize, usize))
    requires
        lo <= hi <= v.len(),
    ensures
        lo <= r.0 <= r.1 <= hi,
        v@.subrange(r.0 as int, r.1 as int) == trim(v@.subrange(lo as int, hi as int)),
{
    let ghost s = v@.subrange(lo as int, hi as int);
    let mut a = lo;
    while a < hi && is_whitespace(v[a])
        invariant
            lo <= a <= hi <= v.len(),
            forall|i: int| lo <= i < a ==> is_ws(#[trigger] v@[i]),
        decreases hi - a,
    {
        a = a + 1;
    }
    proof {
        assert forall|i: int| 0 <= i < a - lo implies is_ws(#[trigger] s[i]) by {
            assert(s[i] == v@[lo + i]);
        }
        lemma_trim_start(s, a - lo);
    }
    let ghost t = s.skip(a - lo);
    let mut b = hi;
    while b > a && is_whitespace(v[b - 1])
        invariant
            lo <= a <= b <= hi <= v.len(),
            forall|i: int| b <= i < hi ==> is_ws(#[trigger] v@[i]),
        decreases b - a,
    {
        b = b - 1;
    }
    proof {
        assert forall|i: int| b - a <= i < t.len() implies is_ws(#[trigger] t[i]) by {
            assert(t[i] == v@[a + i]);
        }
        if b > a {
            assert(t[b - a - 1] == v@[b - 1]);
        }
        lemma_trim_end(t, b - a);
        assert(t.take(b - a) =~= v@.subrange(a as int, b as int));
    }
    (a, b)
}

/// The ranges of the lines of `v`, in the sense of `lines`.
pub fn line_ranges(v: &Vec<char>) -> (r: Vec<(usize, usize)>)
    ensures
        ranges_within(r@, v@.len() as int),
        pieces(v@, r@) == lines(v@),
{
    let n = v.len();
    let mut r: Vec<(usize, usize)> = Vec::new();
    let mut i: usize = 0;
    assert(v@.skip(0) =~= v@);
    while i < n
        invariant
            n == v.len(),
            i <= n,
            ranges_within(r@, n as int),
            pieces(v@, r@) + lines(v@.skip(i as int)) == lines(v@),
        decreases n - i,
    {
        let ghost t = v@.skip(i as int);
        let mut k = i;
        while k < n && v[k] != '\n'
            invariant
                i <= k <= n == v.len(),
                forall|j: int| i <= j < k ==> v@[j] != '\n',
            decreases n - k,
        {
            k = k + 1;
        }
        proof {
            assert forall|j: int| 0 <= j < k - i implies !nl_pred()(#[trigger] t[j]) by {
                assert(t[j] == v@[i + j]);
            }
            if k < n {
                assert(t[k - i] == v@[k as int]);
            }
            lemma_first_index(t, nl_pred(), k - i);
        }
        let ghost old_r = r@;
        if k == n {
            r.push((i, n));
            proof {
                assert(t =~= v@.subrange(i as int, n as int));
                assert(pieces(v@, r@) =~= pieces(v@, old_r).push(t));
                assert(v@.skip(n as int) =~= Seq::<char>::empty());
                assert(lines(t) =~= seq![t]);
            }
            i = n;
        } else {
            let e = if k > i && v[k - 1] == '\r' {
                k - 1
            } else {
                k
            };
            r.push((i, e));
            proof {
                let line = t.take(k - i);
                assert(line =~= v@.subrange(i as int, k as int));
                assert(strip_cr(line) =~= v@.subrange(i as int, e as int));
                assert(t.skip(k - i + 1) =~= v@.skip(k + 1));
                assert(pieces(v@, r@) =~= pieces(v@, old_r).push(strip_cr(line)));
                assert(lines(t) == seq![strip_cr(line)] + lines(v@.skip(k + 1)));
                assert(pieces(v@, r@) + lines(v@.skip(k + 1)) =~= pieces(v@, old_r) + lines(t));
            }
            i = k + 1;
        }
    }
    assert(v@.skip(n as int) =~= Seq::<char>::empty());
    assert(pieces(v@, r@) + Seq::<Seq<char>>::empty() =~= pieces(v@, r@));
    r
}

/// The ranges of the tokens of `v`, in the sense of `tokens`.
pub fn token_ranges(v: &Vec<char>) -> (r: Vec<(usize, usize)>)
    ensures
        ranges_within(r@, v@.len() as int),
        pieces(v@, r@) == tokens(v@),
{
    let n = v.len();
    let mut r: Vec<(usize, usize)> = Vec::new();
    let mut i: usize = 0;
    assert(v@.skip(0) =~= v@);
    while i < n
        invariant
            n == v.len(),
            i <= n,
            ranges_within(r@, n as int),
            pieces(v@, r@) + tokens(v@.skip(i as int)) == tokens(v@),
        decreases n - i,
    {
        let ghost t = v@.skip(i as int);
        assert(t[0] == v@[i as int]);
        if is_whitespace(v[i]) {
            assert(t.drop_first() =~= v@.skip(i + 1));
            i = i + 1;
        } else {
            let mut k = i + 1;
            while k < n && !is_whitespace(v[k])
                invariant
                    i < k <= n == v.len(),
                    forall|j: int| i <= j < k ==> !is_ws(#[trigger] v@[j]),
                decreases n - k,
            {
                k = k + 1;
            }
            let ghost old_r = r@;
            r.push((i, k));
            proof {
                assert forall|j: int| 0 <= j < k - i implies !ws_pred()(#[trigger] t[j]) by {
                    assert(t[j] == v@[i + j]);
                }
                if k < n {
                    assert(t[k - i] == v@[k as int]);
                }
                lemma_first_index(t, ws_pred(), k - i);
                assert(t.take(k - i) =~= v@.subrange(i as int, k as int));
                assert(t.skip(k - i) =~= v@.skip(k as int));
                assert(pieces(v@, r@) =~= pieces(v@, old_r).push(t.take(k - i)));
                assert(pieces(v@, r@) + tokens(v@.skip(k as int)) =~= pieces(v@, old_r) + tokens(t));
            }
            i = k;
        }
    }
    assert(v@.skip(n as int) =~= Seq::<char>::empty());
    assert(pieces(v@, r@) + Seq::<Seq<char>>::empty() =~= pieces(v@, r@));
    r
}

} // verus!
