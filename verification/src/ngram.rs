use vstd::prelude::*;

use crate::text::is_space;
use crate::text::space_char;

verus! {

/// `text` is a maximal run of non-whitespace characters of `s` starting at `start`.
pub open spec fn token_at(s: Seq<char>, start: int, text: Seq<char>) -> bool {
    &&& 0 <= start
    &&& start + text.len() <= s.len()
    &&& text.len() > 0
    &&& text == s.subrange(start, start + text.len())
    &&& forall|i: int| 0 <= i < text.len() ==> !is_space(text[i])
    &&& (start == 0 || is_space(s[start - 1]))
    &&& (start + text.len() == s.len() || is_space(s[start + text.len()]))
}

/// `toks` lists every whitespace-separated token of `s`, in order,
/// with the position of each token's first character.
pub open spec fn is_tokenization(s: Seq<char>, toks: Seq<(usize, String)>) -> bool {
    &&& forall|k: int|
        0 <= k < toks.len() ==> token_at(s, #[trigger] toks[k].0 as int, toks[k].1@)
    &&& forall|k: int|
        0 <= k < toks.len() - 1 ==> #[trigger] toks[k].0 + toks[k].1@.len() < toks[k + 1].0
    &&& forall|i: int|
        0 <= i < s.len() && !is_space(s[i]) ==> exists|k: int|
            0 <= k < toks.len() && #[trigger] toks[k].0 <= i < toks[k].0 + toks[k].1@.len()
}

/// Tokens of consecutive positions start in increasing order, with at least
/// one whitespace character between any two of them.
pub proof fn lemma_token_order(s: Seq<char>, toks: Seq<(usize, String)>, a: int, b: int)
    requires
        is_tokenization(s, toks),
        0 <= a <= b < toks.len(),
    ensures
        toks[a].0 <= toks[b].0,
        toks[a].0 + toks[a].1@.len() <= toks[b].0 + toks[b].1@.len(),
    decreases b - a,
{
    if a < b {
        lemma_token_order(s, toks, a, b - 1);
    }
}

/// Split the text on whitespace, pairing each token with the position of its
/// first character.
pub fn positioned(input: &str) -> (r: Vec<(usize, String)>)
    ensures
        is_tokenization(input@, r@),
{
    let n = input.unicode_len();
    let mut toks: Vec<(usize, String)> = Vec::new();
    let mut i: usize = 0;
    while i < n
        invariant
            0 <= i <= n,
            n == input@.len(),
            forall|k: int|
                0 <= k < toks@.len() ==> token_at(input@, #[trigger] toks@[k].0 as int, toks@[k].1@),
            forall|k: int|
                0 <= k < toks@.len() - 1 ==> #[trigger] toks@[k].0 + toks@[k].1@.len() < toks@[k
                    + 1].0,
            forall|p: int|
                0 <= p < i && !is_space(input@[p]) ==> exists|k: int|
                    0 <= k < toks@.len() && #[trigger] toks@[k].0 <= p < toks@[k].0
                        + toks@[k].1@.len(),
            toks@.len() > 0 ==> toks@.last().0 + toks@.last().1@.len() <= i,
            i == 0 || (toks@.len() > 0 && toks@.last().0 + toks@.last().1@.len() == i) || is_space(
                input@[i - 1],
            ),
        decreases n - i,
    {
        if space_char(input.get_char(i)) {
            i = i + 1;
        } else {
            proof {
                if toks@.len() > 0 && toks@.last().0 + toks@.last().1@.len() == i {
                    // the previous token ended right here, so the character at `i`
                    // would extend it: the token's maximality says it is whitespace
                    assert(is_space(input@[i as int]));
                    assert(false);
                }
            }
            let start = i;
            let mut j = i + 1;
            while j < n && !space_char(input.get_char(j))
                invariant
                    start < j <= n,
                    n == input@.len(),
                    forall|p: int| start <= p < j ==> !is_space(input@[p]),
                decreases n - j,
            {
                j = j + 1;
            }
            let piece = input.substring_char(start, j);
            let text = piece.to_owned();
            proof {
                assert(token_at(input@, start as int, text@));
                if toks@.len() > 0 {
                    let e = toks@.last().0 + toks@.last().1@.len();
                    assert(e < start + 1);
                }
            }
            let ghost old_toks = toks@;
            toks.push((start, text));
            proof {
                assert(forall|k: int| 0 <= k < old_toks.len() ==> toks@[k] == old_toks[k]);
                assert forall|p: int| #![trigger input@[p]] start <= p < j implies exists|k: int|
                    0 <= k < toks@.len() && #[trigger] toks@[k].0 <= p < toks@[k].0
                        + toks@[k].1@.len() by {
                    let kk = toks@.len() - 1;
                    assert(toks@[kk].0 <= p < toks@[kk].0 + toks@[kk].1@.len());
                }
            }
            i = j;
        }
    }
    toks
}

/// Every window of `n` consecutive elements of `items`, in order.
pub fn ngram<T: Copy>(items: &Vec<T>, n: usize) -> (r: Vec<Vec<T>>)
    requires
        n >= 1,
    ensures
        items@.len() >= n ==> r@.len() == items@.len() - n + 1,
        items@.len() < n ==> r@.len() == 0,
        forall|w: int| 0 <= w < r@.len() ==> #[trigger] r@[w]@ == items@.subrange(w, w + n),
{
    let mut r: Vec<Vec<T>> = Vec::new();
    if items.len() < n {
        return r;
    }
    let m = items.len();
    let count = m - n + 1;
    let mut w: usize = 0;
    while w < count
        invariant
            0 <= w <= count,
            count == items@.len() - n + 1,
            m == items@.len(),
            n >= 1,
            r@.len() == w,
            forall|q: int| 0 <= q < w ==> #[trigger] r@[q]@ == items@.subrange(q, q + n),
        decreases count - w,
    {
        let mut window: Vec<T> = Vec::new();
        let mut t: usize = 0;
        while t < n
            invariant
                0 <= t <= n,
                w + n <= m,
                m == items@.len(),
                window@.len() == t,
                forall|q: int| 0 <= q < t ==> #[trigger] window@[q] == items@[w + q],
            decreases n - t,
        {
            window.push(items[w + t]);
            t = t + 1;
        }
        proof {
            assert(window@ =~= items@.subrange(w as int, w + n));
        }
        r.push(window);
        w = w + 1;
    }
    r
}

} // verus!
