//! Text handling: whitespace trimming, escaping of user input for the
//! keyword index (FTS5 phrase queries and LIKE patterns), and the inputs
//! handed to the embedding model.
use vstd::prelude::*;

verus! {

broadcast use vstd::string::group_string_axioms;

// ---------------------------------------------------------------------------
// String building
// ---------------------------------------------------------------------------

/// Appends one character to a string (`String::push`).
#[verifier::external_body]
pub(crate) fn push_char(s: &mut String, c: char)
    ensures
        final(s)@ == old(s)@.push(c),
{
    s.push(c);
}

/// Appends a string slice to a string (`String::push_str`).
#[verifier::external_body]
pub(crate) fn push_str(s: &mut String, t: &str)
    ensures
        final(s)@ == old(s)@ + t@,
{
    s.push_str(t);
}

/// The characters of a string slice, in order.
pub fn chars_of(s: &str) -> (res: Vec<char>)
    ensures
        res@ == s@,
{
    let mut res: Vec<char> = Vec::new();
    for c in it: s.chars()
        invariant
            res@ == it.seq().take(it.index() as int),
    {
        res.push(c);
    }
    res
}

/// A string made of the characters `chars[from..to]`.
pub fn string_of_range(chars: &Vec<char>, from: usize, to: usize) -> (res: String)
    requires
        from <= to <= chars@.len(),
    ensures
        res@ == chars@.subrange(from as int, to as int),
{
    let mut res = String::new();
    let mut i = from;
    while i < to
        invariant
            from <= i <= to <= chars@.len(),
            res@ == chars@.subrange(from as int, i as int),
        decreases to - i,
    {
        push_char(&mut res, chars[i]);
        i = i + 1;
        assert(res@ == chars@.subrange(from as int, i as int));
    }
    res
}

// ---------------------------------------------------------------------------
// Whitespace and trimming
// ---------------------------------------------------------------------------

/// Unicode `White_Space`: the characters that `str::trim` removes.
pub open spec fn is_white_space(c: char) -> bool {
    let u = c as u32;
    ||| 0x09 <= u <= 0x0d
    ||| u == 0x20
    ||| u == 0x85
    ||| u == 0xa0
    ||| u == 0x1680
    ||| 0x2000 <= u <= 0x200a
    ||| u == 0x2028
    ||| u == 0x2029
    ||| u == 0x202f
    ||| u == 0x205f
    ||| u == 0x3000
}

/// `s` without its leading white space.
pub open spec fn trim_start_spec(s: Seq<char>) -> Seq<char>
    decreases s.len(),
{
    if s.len() > 0 && is_white_space(s[0]) {
        trim_start_spec(s.drop_first())
    } else {
        s
    }
}

/// `s` without its trailing white space.
pub open spec fn trim_end_spec(s: Seq<char>) -> Seq<char>
    decreases s.len(),
{
    if s.len() > 0 && is_white_space(s.last()) {
        trim_end_spec(s.drop_last())
    } else {
        s
    }
}

/// `s` without leading and trailing white space (what `str::trim` returns).
pub open spec fn trim_spec(s: Seq<char>) -> Seq<char> {
    trim_end_spec(trim_start_spec(s))
}

/// Executable test for [`is_white_space`].
pub fn is_white_space_char(c: char) -> (res: bool)
    ensures
        res == is_white_space(c),
{
    let u = c as u32;
    (0x09 <= u && u <= 0x0d) || u == 0x20 || u == 0x85 || u == 0xa0 || u == 0x1680 || (0x2000
        <= u && u <= 0x200a) || u == 0x2028 || u == 0x2029 || u == 0x202f || u == 0x205f || u
        == 0x3000
}

proof fn lemma_trim_start_skip(s: Seq<char>, i: int)
    requires
        0 <= i <= s.len(),
        forall|k: int| 0 <= k < i ==> is_white_space(#[trigger] s[k]),
    ensures
        trim_start_spec(s) == trim_start_spec(s.subrange(i, s.len() as int)),
    decreases i,
{
    if i > 0 {
        assert(s.drop_first() =~= s.subrange(1, s.len() as int));
        lemma_trim_start_skip(s.drop_first(), i - 1);
        assert(s.drop_first().subrange(i - 1, s.drop_first().len() as int) =~= s.subrange(
            i,
            s.len() as int,
        ));
    } else {
        assert(s.subrange(0, s.len() as int) =~= s);
    }
}

proof fn lemma_trim_end_skip(s: Seq<char>, j: int)
    requires
        0 <= j <= s.len(),
        forall|k: int| j <= k < s.len() ==> is_white_space(#[trigger] s[k]),
    ensures
        trim_end_spec(s) == trim_end_spec(s.subrange(0, j)),
    decreases s.len() - j,
{
    if j < s.len() {
        assert(s.drop_last() =~= s.subrange(0, s.len() - 1));
        lemma_trim_end_skip(s.drop_last(), j);
        assert(s.drop_last().subrange(0, j) =~= s.subrange(0, j));
    } else {
        assert(s.subrange(0, j) =~= s);
    }
}

proof fn lemma_trim_end_of_all_white(s: Seq<char>)
    requires
        forall|k: int| 0 <= k < s.len() ==> is_white_space(#[trigger] s[k]),
    ensures
        trim_end_spec(s).len() == 0,
    decreases s.len(),
{
    if s.len() > 0 {
        lemma_trim_end_of_all_white(s.drop_last());
    }
}

/// Removes leading and trailing white space (the `str::trim` of the
/// original), on characters.
pub fn trim_chars(chars: &Vec<char>) -> (res: Vec<char>)
    ensures
        res@ == trim_spec(chars@),
{
    let n = chars.len();
    let mut i: usize = 0;
    while i < n && is_white_space_char(chars[i])
        invariant
            i <= n == chars@.len(),
            forall|k: int| 0 <= k < i ==> is_white_space(#[trigger] chars@[k]),
        decreases n - i,
    {
        i = i + 1;
    }
    proof {
        lemma_trim_start_skip(chars@, i as int);
    }
    let ghost rest = chars@.subrange(i as int, n as int);
    assert(trim_start_spec(chars@) == trim_start_spec(rest));
    if i == n {
        assert(rest.len() == 0);
        assert(trim_start_spec(rest) == rest);
        assert(trim_end_spec(rest) == rest);
        return Vec::new();
    }
    assert(!is_white_space(rest[0]));
    assert(trim_start_spec(rest) == rest);
    let mut j: usize = n;
    while j > i && is_white_space_char(chars[j - 1])
        invariant
            i < n == chars@.len(),
            i < j <= n,
            !is_white_space(chars@[i as int]),
            forall|k: int| j <= k < n ==> is_white_space(#[trigger] chars@[k]),
        decreases j,
    {
        j = j - 1;
    }
    proof {
        lemma_trim_end_skip(rest, j - i);
        let seg = chars@.subrange(i as int, j as int);
        assert(rest.subrange(0, j - i) =~= seg);
        assert(seg.last() == chars@[j - 1]);
        assert(trim_end_spec(seg) == seg);
    }
    let mut res: Vec<char> = Vec::new();
    let mut k = i;
    while k < j
        invariant
            i <= k <= j <= n == chars@.len(),
            res@ == chars@.subrange(i as int, k as int),
        decreases j - k,
    {
        res.push(chars[k]);
        k = k + 1;
        assert(res@ == chars@.subrange(i as int, k as int));
    }
    res
}

// ---------------------------------------------------------------------------
// Escaping for the keyword index
// ---------------------------------------------------------------------------

/// Each `"` doubled, as inside a quoted FTS5 phrase (the SQL string rule).
pub open spec fn double_quotes_spec(s: Seq<char>) -> Seq<char>
    decreases s.len(),
{
    if s.len() == 0 {
        Seq::empty()
    } else {
        double_quotes_spec(s.drop_last()) + (if s.last() == '"' {
            seq!['"', '"']
        } else {
            seq![s.last()]
        })
    }
}

/// The FTS5 MATCH expression for a user query: the trimmed query as one
/// quoted phrase, or the empty string when nothing is left after trimming.
pub open spec fn fts_phrase_spec(query: Seq<char>) -> Seq<char> {
    let t = trim_spec(query);
    if t.len() == 0 {
        Seq::empty()
    } else {
        seq!['"'] + double_quotes_spec(t) + seq!['"']
    }
}

/// `\`, `%` and `_` each preceded by `\` (for `LIKE ... ESCAPE '\'`).
pub open spec fn escape_like_spec(s: Seq<char>) -> Seq<char>
    decreases s.len(),
{
    if s.len() == 0 {
        Seq::empty()
    } else {
        escape_like_spec(s.drop_last()) + (if s.last() == '\\' || s.last() == '%' || s.last()
            == '_' {
            seq!['\\', s.last()]
        } else {
            seq![s.last()]
        })
    }
}

/// The LIKE pattern that matches every text containing `s` as a substring.
pub open spec fn like_pattern_spec(s: Seq<char>) -> Seq<char> {
    seq!['%'] + escape_like_spec(s) + seq!['%']
}

/// Escapes a user query so that FTS5 reads it as one phrase and never as
/// query syntax (AND/OR/NOT, column filters, ...): the trimmed query is
/// quoted and each `"` inside it doubled. An empty or all-blank query gives
/// the empty string.
pub fn escape_fts_query(query: &str) -> (res: String)
    ensures
        res@ == fts_phrase_spec(query@),
{
    let chars = chars_of(query);
    let t = trim_chars(&chars);
    if t.len() == 0 {
        return String::new();
    }
    let mut res = String::new();
    push_char(&mut res, '"');
    let mut i: usize = 0;
    while i < t.len()
        invariant
            i <= t@.len(),
            res@ == seq!['"'] + double_quotes_spec(t@.take(i as int)),
        decreases t@.len() - i,
    {
        let c = t[i];
        assert(t@.take(i + 1).drop_last() =~= t@.take(i as int));
        if c == '"' {
            push_char(&mut res, '"');
            push_char(&mut res, '"');
        } else {
            push_char(&mut res, c);
        }
        i = i + 1;
        assert(res@ =~= seq!['"'] + double_quotes_spec(t@.take(i as int)));
    }
    push_char(&mut res, '"');
    assert(t@.take(t@.len() as int) =~= t@);
    res
}

/// Escapes text for use inside a `LIKE` pattern with `ESCAPE '\'`: the
/// wildcards `%` and `_` and the escape character `\` itself are each
/// preceded by `\`.
pub fn escape_like(s: &str) -> (res: String)
    ensures
        res@ == escape_like_spec(s@),
{
    let chars = chars_of(s);
    let mut res = String::new();
    let mut i: usize = 0;
    while i < chars.len()
        invariant
            i <= chars@.len(),
            res@ == escape_like_spec(chars@.take(i as int)),
        decreases chars@.len() - i,
    {
        let c = chars[i];
        assert(chars@.take(i + 1).drop_last() =~= chars@.take(i as int));
        if c == '\\' || c == '%' || c == '_' {
            push_char(&mut res, '\\');
            push_char(&mut res, c);
        } else {
            push_char(&mut res, c);
        }
        i = i + 1;
        assert(res@ =~= escape_like_spec(chars@.take(i as int)));
    }
    assert(chars@.take(chars@.len() as int) =~= chars@);
    res
}

/// The LIKE pattern `%<escaped s>%`: every text holding `s` as a substring
/// matches it.
pub fn like_pattern(s: &str) -> (res: String)
    ensures
        res@ == like_pattern_spec(s@),
{
    let mut res = String::new();
    push_char(&mut res, '%');
    let escaped = escape_like(s);
    push_str(&mut res, escaped.as_str());
    push_char(&mut res, '%');
    res
}

/// Different texts give different LIKE escapes: the escaping loses nothing.
pub proof fn lemma_escape_like_injective(a: Seq<char>, b: Seq<char>)
    requires
        escape_like_spec(a) == escape_like_spec(b),
    ensures
        a == b,
    decreases a.len() + b.len(),
{
    if a.len() == 0 || b.len() == 0 {
        if a.len() != 0 {
            lemma_escape_like_nonempty(a);
        }
        if b.len() != 0 {
            lemma_escape_like_nonempty(b);
        }
        assert(a =~= b);
    } else {
        let ea = escape_like_spec(a);
        assert(ea.last() == a.last());
        assert(escape_like_spec(b).last() == b.last());
        let tail_len: int = if a.last() == '\\' || a.last() == '%' || a.last() == '_' {
            2
        } else {
            1
        };
        assert(ea.subrange(0, ea.len() - tail_len) =~= escape_like_spec(a.drop_last()));
        assert(ea.subrange(0, ea.len() - tail_len) =~= escape_like_spec(b.drop_last()));
        lemma_escape_like_injective(a.drop_last(), b.drop_last());
        assert(a =~= a.drop_last().push(a.last()));
        assert(b =~= b.drop_last().push(b.last()));
    }
}

proof fn lemma_escape_like_nonempty(a: Seq<char>)
    requires
        a.len() > 0,
    ensures
        escape_like_spec(a).len() > 0,
{
}

proof fn lemma_double_quotes_nonempty(a: Seq<char>)
    requires
        a.len() > 0,
    ensures
        double_quotes_spec(a).len() > 0,
{
}

proof fn lemma_double_quotes_injective(a: Seq<char>, b: Seq<char>)
    requires
        double_quotes_spec(a) == double_quotes_spec(b),
    ensures
        a == b,
    decreases a.len() + b.len(),
{
    if a.len() == 0 || b.len() == 0 {
        if a.len() != 0 {
            lemma_double_quotes_nonempty(a);
        }
        if b.len() != 0 {
            lemma_double_quotes_nonempty(b);
        }
        assert(a =~= b);
    } else {
        let ea = double_quotes_spec(a);
        assert(ea.last() == a.last());
        assert(double_quotes_spec(b).last() == b.last());
        let tail_len: int = if a.last() == '"' {
            2
        } else {
            1
        };
        assert(ea.subrange(0, ea.len() - tail_len) =~= double_quotes_spec(a.drop_last()));
        assert(ea.subrange(0, ea.len() - tail_len) =~= double_quotes_spec(b.drop_last()));
        lemma_double_quotes_injective(a.drop_last(), b.drop_last());
        assert(a =~= a.drop_last().push(a.last()));
        assert(b =~= b.drop_last().push(b.last()));
    }
}

/// Two queries that give the same FTS5 phrase are the same query once
/// trimmed: escaping never makes different user input collide.
pub proof fn lemma_fts_phrase_injective(a: Seq<char>, b: Seq<char>)
    requires
        fts_phrase_spec(a) == fts_phrase_spec(b),
    ensures
        trim_spec(a) == trim_spec(b),
{
    let ta = trim_spec(a);
    let tb = trim_spec(b);
    if ta.len() == 0 || tb.len() == 0 {
        if ta.len() != 0 {
            assert(fts_phrase_spec(a).len() > 0);
        }
        if tb.len() != 0 {
            assert(fts_phrase_spec(b).len() > 0);
        }
        assert(ta =~= tb);
    } else {
        let pa = fts_phrase_spec(a);
        assert(pa.subrange(1, pa.len() - 1) =~= double_quotes_spec(ta));
        assert(pa.subrange(1, pa.len() - 1) =~= double_quotes_spec(tb));
        lemma_double_quotes_injective(ta, tb);
    }
}

proof fn lemma_trim_start_first(s: Seq<char>)
    ensures
        trim_start_spec(s).len() > 0 ==> !is_white_space(trim_start_spec(s)[0]),
    decreases s.len(),
{
    if s.len() > 0 && is_white_space(s[0]) {
        lemma_trim_start_first(s.drop_first());
    }
}

proof fn lemma_trim_end_prefix(s: Seq<char>)
    ensures
        trim_end_spec(s) == s.take(trim_end_spec(s).len() as int),
        trim_end_spec(s).len() <= s.len(),
        trim_end_spec(s).len() > 0 ==> !is_white_space(trim_end_spec(s).last()),
    decreases s.len(),
{
    if s.len() > 0 && is_white_space(s.last()) {
        lemma_trim_end_prefix(s.drop_last());
        let t = trim_end_spec(s.drop_last());
        assert(s.drop_last().take(t.len() as int) =~= s.take(t.len() as int));
    } else {
        assert(s.take(s.len() as int) =~= s);
    }
}

/// Trimming twice gives what trimming once gives.
pub proof fn lemma_trim_idempotent(s: Seq<char>)
    ensures
        trim_spec(trim_spec(s)) == trim_spec(s),
{
    let u = trim_start_spec(s);
    let t = trim_end_spec(u);
    lemma_trim_start_first(s);
    lemma_trim_end_prefix(u);
    if t.len() > 0 {
        assert(t[0] == u[0]);
        assert(trim_start_spec(t) == t);
        assert(trim_end_spec(t) == t);
    } else {
        assert(trim_start_spec(t) == t);
        assert(trim_end_spec(t) == t);
    }
}

/// A trimmed text neither starts nor ends with white space.
pub proof fn lemma_trim_ends(s: Seq<char>)
    ensures
        trim_spec(s).len() > 0 ==> !is_white_space(trim_spec(s)[0]) && !is_white_space(
            trim_spec(s).last(),
        ),
{
    let u = trim_start_spec(s);
    lemma_trim_start_first(s);
    lemma_trim_end_prefix(u);
    if trim_spec(s).len() > 0 {
        assert(trim_spec(s)[0] == u[0]);
    }
}

/// Compares two string slices character by character.
pub fn same_text(a: &str, b: &str) -> (res: bool)
    ensures
        res == (a@ == b@),
{
    let ca = chars_of(a);
    let cb = chars_of(b);
    if ca.len() != cb.len() {
        return false;
    }
    let mut i: usize = 0;
    while i < ca.len()
        invariant
            ca@ == a@,
            cb@ == b@,
            ca@.len() == cb@.len(),
            i <= ca@.len(),
            forall|k: int| 0 <= k < i ==> ca@[k] == cb@[k],
        decreases ca@.len() - i,
    {
        if ca[i] != cb[i] {
            return false;
        }
        i = i + 1;
    }
    assert(ca@ =~= cb@);
    true
}

/// The number of `"` characters in `s`.
pub open spec fn count_quotes(s: Seq<char>) -> nat
    decreases s.len(),
{
    if s.len() == 0 {
        0
    } else {
        count_quotes(s.drop_last()) + (if s.last() == '"' {
            1nat
        } else {
            0nat
        })
    }
}

/// Every `"` in `s` stands in an adjacent `""` pair (pairs read from the end).
pub open spec fn quotes_paired(s: Seq<char>) -> bool
    decreases s.len(),
{
    if s.len() == 0 {
        true
    } else if s.last() == '"' {
        s.len() >= 2 && s[s.len() - 2] == '"' && quotes_paired(s.subrange(0, s.len() - 2))
    } else {
        quotes_paired(s.drop_last())
    }
}

/// `s` with each `""` pair turned back into one `"`.
pub open spec fn undouble_quotes(s: Seq<char>) -> Seq<char>
    decreases s.len(),
{
    if s.len() == 0 {
        Seq::empty()
    } else if s.len() >= 2 && s.last() == '"' && s[s.len() - 2] == '"' {
        undouble_quotes(s.subrange(0, s.len() - 2)).push('"')
    } else {
        undouble_quotes(s.drop_last()).push(s.last())
    }
}

proof fn lemma_double_quotes_inverse(t: Seq<char>)
    ensures
        double_quotes_spec(t).len() == t.len() + count_quotes(t),
        quotes_paired(double_quotes_spec(t)),
        undouble_quotes(double_quotes_spec(t)) == t,
    decreases t.len(),
{
    if t.len() > 0 {
        let t1 = t.drop_last();
        lemma_double_quotes_inverse(t1);
        let d1 = double_quotes_spec(t1);
        let d = double_quotes_spec(t);
        if t.last() == '"' {
            assert(d == d1 + seq!['"', '"']);
            assert(d.subrange(0, d.len() - 2) =~= d1);
        } else {
            assert(d == d1 + seq![t.last()]);
            assert(d.drop_last() =~= d1);
        }
        assert(t1.push(t.last()) =~= t);
    }
}

/// The FTS5 phrase of a query is the trimmed query between two quotes, two
/// characters longer plus one per `"` in it; inside the quotes every `"` is
/// doubled, and undoubling gives the trimmed query back. A blank query gives
/// the empty string.
pub proof fn lemma_fts_phrase_shape(query: Seq<char>)
    ensures
        trim_spec(query).len() == 0 ==> fts_phrase_spec(query).len() == 0,
        trim_spec(query).len() > 0 ==> ({
            let t = trim_spec(query);
            let p = fts_phrase_spec(query);
            let inner = p.subrange(1, p.len() - 1);
            &&& p.len() == t.len() + 2 + count_quotes(t)
            &&& p[0] == '"'
            &&& p.last() == '"'
            &&& quotes_paired(inner)
            &&& undouble_quotes(inner) == t
        }),
{
    let t = trim_spec(query);
    if t.len() > 0 {
        lemma_double_quotes_inverse(t);
        let p = fts_phrase_spec(query);
        assert(p.subrange(1, p.len() - 1) =~= double_quotes_spec(t));
    }
}

}
