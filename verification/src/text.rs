use vstd::prelude::*;

verus! {

/// The whitespace characters recognized by the tokenizer and by trimming:
/// the characters with the Unicode White_Space property, as
/// `char::is_whitespace` classifies them.
pub open spec fn is_space(c: char) -> bool {
    c == ' ' || c == '\t' || c == '\n' || c == '\u{b}' || c == '\u{c}' || c == '\r' || c
        == '\u{85}' || c == '\u{a0}' || c == '\u{1680}' || c == '\u{2000}' || c == '\u{2001}' || c
        == '\u{2002}' || c == '\u{2003}' || c == '\u{2004}' || c == '\u{2005}' || c == '\u{2006}'
        || c == '\u{2007}' || c == '\u{2008}' || c == '\u{2009}' || c == '\u{200a}' || c
        == '\u{2028}' || c == '\u{2029}' || c == '\u{202f}' || c == '\u{205f}' || c == '\u{3000}'
}

/// Executable test for `is_space`.
pub fn space_char(c: char) -> (r: bool)
    ensures
        r == is_space(c),
{
    c == ' ' || c == '\t' || c == '\n' || c == '\u{b}' || c == '\u{c}' || c == '\r' || c
        == '\u{85}' || c == '\u{a0}' || c == '\u{1680}' || c == '\u{2000}' || c == '\u{2001}' || c
        == '\u{2002}' || c == '\u{2003}' || c == '\u{2004}' || c == '\u{2005}' || c == '\u{2006}'
        || c == '\u{2007}' || c == '\u{2008}' || c == '\u{2009}' || c == '\u{200a}' || c
        == '\u{2028}' || c == '\u{2029}' || c == '\u{202f}' || c == '\u{205f}' || c == '\u{3000}'
}

/// The input without its leading whitespace.
pub open spec fn spec_trim_start(s: Seq<char>) -> Seq<char>
    decreases s.len(),
{
    if s.len() == 0 {
        s
    } else if is_space(s[0]) {
        spec_trim_start(s.drop_first())
    } else {
        s
    }
}

/// The input without its trailing whitespace.
pub open spec fn spec_trim_end(s: Seq<char>) -> Seq<char>
    decreases s.len(),
{
    if s.len() == 0 {
        s
    } else if is_space(s[s.len() - 1]) {
        spec_trim_end(s.drop_last())
    } else {
        s
    }
}

/// The input without leading and trailing whitespace.
pub open spec fn spec_trim(s: Seq<char>) -> Seq<char> {
    spec_trim_end(spec_trim_start(s))
}

/// Dropping the leading whitespace is the same as skipping past it.
pub proof fn lemma_trim_start_skip(s: Seq<char>, k: int)
    requires
        0 <= k <= s.len(),
        forall|p: int| 0 <= p < k ==> is_space(s[p]),
        k == s.len() || !is_space(s[k]),
    ensures
        spec_trim_start(s) == s.skip(k),
    decreases k,
{
    if k == 0 {
        assert(s.skip(0) =~= s);
    } else {
        let t = s.drop_first();
        assert(forall|p: int| 0 <= p < k - 1 ==> is_space(#[trigger] t[p]));
        lemma_trim_start_skip(t, k - 1);
        assert(t.skip(k - 1) =~= s.skip(k));
    }
}

/// Dropping the trailing whitespace is the same as taking what comes before it.
pub proof fn lemma_trim_end_take(s: Seq<char>, k: int)
    requires
        0 <= k <= s.len(),
        forall|p: int| k <= p < s.len() ==> is_space(s[p]),
        k == 0 || !is_space(s[k - 1]),
    ensures
        spec_trim_end(s) == s.take(k),
    decreases s.len(),
{
    if k == s.len() {
        assert(s.take(k) =~= s);
    } else {
        let t = s.drop_last();
        assert(forall|p: int| k <= p < t.len() ==> is_space(#[trigger] t[p]));
        lemma_trim_end_take(t, k);
        assert(t.take(k) =~= s.take(k));
    }
}

/// Remove leading and trailing whitespace.
pub fn trim(s: &str) -> (r: &str)
    ensures
        r@ == spec_trim(s@),
{
    let n = s.unicode_len();
    let mut a: usize = 0;
    while a < n && space_char(s.get_char(a))
        invariant
            0 <= a <= n,
            n == s@.len(),
            forall|p: int| 0 <= p < a ==> is_space(s@[p]),
        decreases n - a,
    {
        a = a + 1;
    }
    proof {
        lemma_trim_start_skip(s@, a as int);
    }
    let mut b: usize = n;
    while b > a && space_char(s.get_char(b - 1))
        invariant
            a <= b <= n,
            n == s@.len(),
            forall|p: int| b <= p < n ==> is_space(s@[p]),
            a < n ==> !is_space(s@[a as int]),
        decreases b,
    {
        b = b - 1;
    }
    proof {
        let t = s@.skip(a as int);
        assert(forall|p: int| b - a <= p < t.len() ==> is_space(#[trigger] t[p]));
        if b > a {
            assert(t[b - a - 1] == s@[b - 1]);
        }
        lemma_trim_end_take(t, b - a);
        assert(t.take(b - a) =~= s@.subrange(a as int, b as int));
    }
    s.substring_char(a, b)
}

/// What `str::to_lowercase` returns for a given character sequence.
/// The result depends on the characters alone.
pub uninterp spec fn lower_of(s: Seq<char>) -> Seq<char>;

/// Relies on str::to_lowercase: lowercases the text; the result is a
/// function of the input characters alone.
#[verifier::external_body]
pub(crate) fn lowercase(s: &str) -> (r: String)
    ensures
        r@ == lower_of(s@),
{
    s.to_lowercase()
}


/// The pieces joined by single spaces.
pub open spec fn join_spaced(ts: Seq<Seq<char>>) -> Seq<char>
    decreases ts.len(),
{
    if ts.len() == 0 {
        Seq::empty()
    } else if ts.len() == 1 {
        ts[0]
    } else {
        ts[0] + seq![' '] + join_spaced(ts.drop_first())
    }
}

/// Joining one more piece appends a space and the piece.
pub proof fn lemma_join_spaced_snoc(ts: Seq<Seq<char>>, t: Seq<char>)
    requires
        ts.len() > 0,
    ensures
        join_spaced(ts.push(t)) == join_spaced(ts) + seq![' '] + t,
    decreases ts.len(),
{
    let e = ts.push(t);
    if ts.len() == 1 {
        assert(e.drop_first() =~= seq![t]);
        assert(join_spaced(e.drop_first()) == t);
        assert(e[0] == ts[0]);
        assert(join_spaced(e) == ts[0] + seq![' '] + t);
        assert(join_spaced(ts) == ts[0]);
    } else {
        assert(e.drop_first() =~= ts.drop_first().push(t));
        lemma_join_spaced_snoc(ts.drop_first(), t);
        assert(join_spaced(e) == e[0] + seq![' '] + join_spaced(ts.drop_first().push(t)));
        assert(e[0] == ts[0]);
        assert(ts[0] + seq![' '] + (join_spaced(ts.drop_first()) + seq![' '] + t) =~= (ts[0]
            + seq![' '] + join_spaced(ts.drop_first())) + seq![' '] + t);
    }
}


/// Whether the text holds two adjacent dots anywhere, the shape of a
/// parent-directory path step.
pub open spec fn has_dot_dot(s: Seq<char>) -> bool {
    exists|i: int| 0 <= i && i + 2 <= s.len() && (#[trigger] s[i]) == '.' && s[i + 1] == '.'
}

/// Test for a parent-directory step in a path pattern.
pub fn contains_dot_dot(s: &str) -> (r: bool)
    ensures
        r == has_dot_dot(s@),
{
    let n = s.unicode_len();
    let mut i: usize = 0;
    while n - i >= 2
        invariant
            0 <= i <= n,
            n == s@.len(),
            forall|p: int|
                0 <= p < i && p + 2 <= s@.len() ==> !((#[trigger] s@[p]) == '.' && s@[p + 1]
                    == '.'),
        decreases n - i,
    {
        if s.get_char(i) == '.' && s.get_char(i + 1) == '.' {
            return true;
        }
        i = i + 1;
    }
    proof {
        assert forall|p: int| !(0 <= p && p + 2 <= s@.len() && (#[trigger] s@[p]) == '.' && s@[p
            + 1] == '.') by {
            if 0 <= p && p + 2 <= s@.len() {
                assert(p < i);
            }
        }
    }
    false
}

} // verus!
