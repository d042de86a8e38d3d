use vstd::prelude::*;

use crate::text::is_space;
use crate::text::space_char;
use crate::text::spec_trim_start;
use crate::text::lemma_trim_start_skip;

verus! {

/// The trimmed input starts with the three-dash opening delimiter.
pub open spec fn opens_with_dashes(t: Seq<char>) -> bool {
    t.len() >= 3 && t[0] == '-' && t[1] == '-' && t[2] == '-'
}

/// The closing delimiter line starts at position `i` of `s`.
pub open spec fn delim_at(s: Seq<char>, i: int) -> bool {
    &&& 0 <= i
    &&& i + 5 <= s.len()
    &&& s[i] == '\n'
    &&& s[i + 1] == '-'
    &&& s[i + 2] == '-'
    &&& s[i + 3] == '-'
    &&& s[i + 4] == '\n'
}

/// What remains of the input after the leading whitespace and the opening
/// delimiter.
pub open spec fn after_open(s: Seq<char>) -> Seq<char> {
    spec_trim_start(s).skip(3)
}

/// The input carries a front-matter block: an opening delimiter after
/// optional leading whitespace, and a closing delimiter line later on.
pub open spec fn has_front_matter(s: Seq<char>) -> bool {
    opens_with_dashes(spec_trim_start(s)) && exists|i: int| delim_at(after_open(s), i)
}

/// The position of the first closing delimiter of `s` at or after `i`, or
/// the length of `s` when there is none.
pub open spec fn first_delim(s: Seq<char>, i: int) -> int
    decreases s.len() - i,
{
    if i + 5 > s.len() {
        s.len() as int
    } else if delim_at(s, i) {
        i
    } else {
        first_delim(s, i + 1)
    }
}

/// The front-matter text of `s`: what stands between the opening delimiter
/// and the first closing one.
pub open spec fn fm_part(s: Seq<char>) -> Seq<char> {
    after_open(s).take(first_delim(after_open(s), 0))
}

/// The body of `s`: what follows the first closing delimiter.
pub open spec fn body_part(s: Seq<char>) -> Seq<char> {
    after_open(s).skip(first_delim(after_open(s), 0) + 5)
}

/// `first_delim` finds exactly the least delimiter position.
pub proof fn lemma_first_delim(s: Seq<char>, i: int, d: int)
    requires
        0 <= i <= d,
        delim_at(s, d),
        forall|j: int| i <= j < d ==> !delim_at(s, j),
    ensures
        first_delim(s, i) == d,
    decreases d - i,
{
    if i < d {
        lemma_first_delim(s, i + 1, d);
    }
}

/// When `s` has no closing delimiter, `first_delim` runs to its end.
pub proof fn lemma_first_delim_none(s: Seq<char>, i: int)
    requires
        0 <= i,
        forall|j: int| !delim_at(s, j),
    ensures
        first_delim(s, i) == s.len(),
    decreases s.len() - i,
{
    if i + 5 <= s.len() {
        lemma_first_delim_none(s, i + 1);
    }
}

/// `fm` and `md` are the front-matter text and the body of `s`: the parts
/// before and after the first closing delimiter.
pub open spec fn is_front_matter_split(s: Seq<char>, fm: Seq<char>, md: Seq<char>) -> bool {
    &&& opens_with_dashes(spec_trim_start(s))
    &&& exists|i: int|
        {
            &&& #[trigger] delim_at(after_open(s), i)
            &&& forall|j: int| 0 <= j < i ==> !delim_at(after_open(s), j)
            &&& fm == after_open(s).take(i)
            &&& md == after_open(s).skip(i + 5)
        }
}

/// Split the input into its front-matter text and its body.
///
/// After optional leading whitespace the input must open with `---`; the
/// front matter then runs to the first line consisting of `---` alone.
/// Returns the text between the two delimiters and the text after the
/// second one, or nothing when either delimiter is absent.
pub fn split_front_matter(input: &str) -> (r: Option<(&str, &str)>)
    ensures
        r.is_some() <==> has_front_matter(input@),
        match r {
            Some((fm, md)) => is_front_matter_split(input@, fm@, md@) && fm@ == fm_part(input@)
                && md@ == body_part(input@),
            None => true,
        },
{
    let n = input.unicode_len();
    // skip the leading whitespace
    let mut a: usize = 0;
    while a < n && space_char(input.get_char(a))
        invariant
            0 <= a <= n,
            n == input@.len(),
            forall|p: int| 0 <= p < a ==> is_space(input@[p]),
        decreases n - a,
    {
        a = a + 1;
    }
    proof {
        lemma_trim_start_skip(input@, a as int);
    }
    let ghost t = spec_trim_start(input@);
    // the opening delimiter
    if n - a < 3 || input.get_char(a) != '-' || input.get_char(a + 1) != '-' || input.get_char(
        a + 2,
    ) != '-' {
        proof {
            assert(!opens_with_dashes(t));
        }
        return None;
    }
    let rest_start = a + 3;
    let ghost rest = after_open(input@);
    proof {
        assert(rest =~= input@.subrange(rest_start as int, n as int));
    }
    // the first closing delimiter line
    let mut i: usize = rest_start;
    while n - i >= 5 && !(input.get_char(i) == '\n' && input.get_char(i + 1) == '-'
        && input.get_char(i + 2) == '-' && input.get_char(i + 3) == '-' && input.get_char(i + 4)
        == '\n')
        invariant
            rest_start <= i <= n,
            n == input@.len(),
            rest.len() == n - rest_start,
            forall|p: int| 0 <= p < rest.len() ==> rest[p] == input@[rest_start + p],
            forall|j: int| 0 <= j < i - rest_start ==> !delim_at(rest, j),
        decreases n - i,
    {
        proof {
            assert(!delim_at(rest, i - rest_start));
        }
        i = i + 1;
    }
    if n - i < 5 {
        proof {
            assert forall|j: int| !delim_at(rest, j) by {
                if 0 <= j < i - rest_start {
                } else if j + 5 <= rest.len() {
                }
            }
        }
        return None;
    }
    let fm = input.substring_char(rest_start, i);
    let md = input.substring_char(i + 5, n);
    proof {
        let di = i - rest_start;
        assert(delim_at(rest, di));
        assert(fm@ =~= rest.take(di));
        assert(md@ =~= rest.skip(di + 5));
        lemma_first_delim(rest, 0, di);
    }
    Some((fm, md))
}

} // verus!
