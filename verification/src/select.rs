use vstd::prelude::*;
use vstd::multiset::Multiset;

use crate::keyword::Keywords;
use crate::keyword::contains_string;
use crate::ngram::is_tokenization;
use crate::ngram::lemma_token_order;
use crate::ngram::ngram;
use crate::ngram::positioned;
use crate::rng::next_u64;
use crate::text::join_spaced;
use crate::text::lower_of;
use crate::text::lemma_join_spaced_snoc;
use crate::text::lowercase;

verus! {

/// A potential link: a span of the paragraph text, the normalized phrase it
/// matched, and the slug of the document it would point to.
#[derive(Debug, PartialEq, Eq)]
pub struct Candidate {
    pub start: usize,
    pub length: usize,
    pub keyword: String,
    pub url: String,
}

impl Candidate {
    /// The position one past the last character of the span.
    pub fn end(&self) -> (r: usize)
        requires
            self.start + self.length <= usize::MAX,
        ensures
            r == self.start + self.length,
    {
        self.start + self.length
    }

    /// The span and target of the candidate, for splicing.
    pub fn tuple(self) -> (r: (usize, usize, String))
        ensures
            r.0 == self.start,
            r.1 == self.length,
            r.2 == self.url,
    {
        (self.start, self.length, self.url)
    }
}

/// The candidate spans fit the machine's address range.
pub open spec fn cand_bounded(c: Candidate) -> bool {
    c.length >= 1 && c.start + c.length <= usize::MAX
}

/// Sort order for candidates: ascending start; on a tie the longer span
/// first.
pub open spec fn cand_le(a: Candidate, b: Candidate) -> bool {
    a.start < b.start || (a.start == b.start && a.length >= b.length)
}

/// Whether the sequence is sorted by `cand_le`.
pub open spec fn sorted_cands(s: Seq<Candidate>) -> bool {
    forall|i: int, j: int| 0 <= i < j < s.len() ==> cand_le(#[trigger] s[i], #[trigger] s[j])
}

/// Whether some element of `v` has the characters `x`.
pub open spec fn in_strs(v: Seq<String>, x: Seq<char>) -> bool {
    exists|j: int| 0 <= j < v.len() && (#[trigger] v[j])@ == x
}

/// The candidate's phrase and target are not yet recorded in the document
/// state.
pub open spec fn fresh_candidate(c: Candidate, added_kw: Seq<String>, added_url: Seq<String>) -> bool {
    !in_strs(added_kw, c.keyword@) && !in_strs(added_url, c.url@)
}

/// Executable test for `cand_le`.
fn cand_le_exec(a: &Candidate, b: &Candidate) -> (r: bool)
    ensures
        r == cand_le(*a, *b),
{
    a.start < b.start || (a.start == b.start && a.length >= b.length)
}

/// Any two distinct accepted candidates have disjoint spans, distinct
/// phrases and distinct targets.
pub open spec fn pairwise_compatible(s: Seq<Candidate>) -> bool {
    forall|x: Candidate, y: Candidate|
        #[trigger] s.contains(x) && #[trigger] s.contains(y) && x != y ==> {
            &&& (x.start + x.length <= y.start || y.start + y.length <= x.start)
            &&& x.keyword@ != y.keyword@
            &&& x.url@ != y.url@
        }
}

/// Sort the candidates: ascending start, the longer span first on a tie.
/// The result holds exactly the elements given.
fn sort_candidates(v: &mut Vec<Candidate>)
    ensures
        final(v)@.to_multiset() == old(v)@.to_multiset(),
        sorted_cands(final(v)@),
{
    broadcast use vstd::seq_lib::group_to_multiset_ensures;

    let mut out: Vec<Candidate> = Vec::new();
    let ghost orig = v@;
    while v.len() > 0
        invariant
            out@.to_multiset().add(v@.to_multiset()) == orig.to_multiset(),
            sorted_cands(out@),
            forall|i: int, q: int|
                0 <= i < out@.len() && 0 <= q < v@.len() ==> cand_le(
                    #[trigger] out@[i],
                    #[trigger] v@[q],
                ),
        decreases v@.len(),
    {
        // the position of the smallest remaining candidate; ties keep the
        // earliest, so the pass is stable
        let mut mi: usize = 0;
        let mut k: usize = 1;
        while k < v.len()
            invariant
                0 <= mi < k <= v@.len(),
                forall|q: int| 0 <= q < k ==> cand_le(#[trigger] v@[mi as int], #[trigger] v@[q]),
            decreases v@.len() - k,
        {
            if !cand_le_exec(&v[mi], &v[k]) {
                mi = k;
            }
            k = k + 1;
        }
        let ghost pre_v = v@;
        let ghost pre_out = out@;
        let x = v.remove(mi);
        out.push(x);
        proof {
            broadcast use vstd::multiset::group_multiset_axioms;

            pre_v.to_multiset_ensures();
            pre_out.to_multiset_ensures();
            assert(pre_v[mi as int] == x);
            assert(pre_v.contains(x));
            assert(v@ == pre_v.remove(mi as int));
            assert(v@.to_multiset() == pre_v.to_multiset().remove(x));
            assert(out@.to_multiset() == pre_out.to_multiset().insert(x));
            assert(pre_v.to_multiset().count(x) > 0);
            assert(out@.to_multiset().add(v@.to_multiset()) =~= pre_out.to_multiset().add(
                pre_v.to_multiset(),
            ));
            assert forall|i: int, q: int|
                0 <= i < out@.len() && 0 <= q < v@.len() implies cand_le(
                #[trigger] out@[i],
                #[trigger] v@[q],
            ) by {
                if q < mi {
                    assert(v@[q] == pre_v[q]);
                } else {
                    assert(v@[q] == pre_v[q + 1]);
                }
                if i < pre_out.len() {
                    assert(out@[i] == pre_out[i]);
                }
            }
            assert forall|i: int, j: int| 0 <= i < j < out@.len() implies cand_le(
                #[trigger] out@[i],
                #[trigger] out@[j],
            ) by {
                if j < pre_out.len() {
                } else {
                    assert(out@[j] == x);
                    assert(pre_v[mi as int] == x);
                    assert(out@[i] == pre_out[i]);
                }
            }
        }
    }
    proof {
        assert(v@.to_multiset() =~= Multiset::<Candidate>::empty());
        assert(out@.to_multiset().add(v@.to_multiset()) =~= out@.to_multiset());
    }
    *v = out;
}

/// The candidate's span and phrase are those of a window of 2 to 4
/// consecutive tokens.
pub open spec fn cand_of_window(c: Candidate, toks: Seq<(usize, String)>) -> bool {
    exists|n: int, w: int|
        #![auto]
        {
            &&& 2 <= n <= 4
            &&& 0 <= w && w + n <= toks.len()
            &&& c.start == toks[w].0
            &&& c.start + c.length == toks[w + n - 1].0 + toks[w + n - 1].1@.len()
            &&& c.keyword@ == win_phrase(toks, w, n)
        }
}

/// Whether the greedy sweep accepts a candidate against what it has
/// accepted so far and the document state: its phrase and target are new
/// to both, and its span starts at or after the last accepted span's end.
pub open spec fn sweep_ok(
    c: Candidate,
    acc: Seq<Candidate>,
    ak: Seq<String>,
    au: Seq<String>,
) -> bool {
    &&& !in_strs(ak, c.keyword@)
    &&& !in_strs(au, c.url@)
    &&& forall|i: int|
        0 <= i < acc.len() ==> (#[trigger] acc[i]).keyword@ != c.keyword@ && acc[i].url@
            != c.url@
    &&& (acc.len() > 0 ==> acc.last().start + acc.last().length <= c.start)
}

/// The single greedy sweep: each candidate in order is accepted exactly
/// when `sweep_ok` holds of it, else dropped.
pub open spec fn sweep_spec(
    cs: Seq<Candidate>,
    acc: Seq<Candidate>,
    ak: Seq<String>,
    au: Seq<String>,
) -> Seq<Candidate>
    decreases cs.len(),
{
    if cs.len() == 0 {
        acc
    } else if sweep_ok(cs[0], acc, ak, au) {
        sweep_spec(cs.drop_first(), acc.push(cs[0]), ak, au)
    } else {
        sweep_spec(cs.drop_first(), acc, ak, au)
    }
}

/// The selection is what the greedy sweep over some sorted arrangement of
/// the candidates accepts, capped: every result element comes from the
/// sweep's accepted list, and exactly `min(4, accepted)` elements survive.
pub open spec fn greedy_selection(
    sorted: Seq<Candidate>,
    cands: Seq<Candidate>,
    ak: Seq<String>,
    au: Seq<String>,
    r: Seq<Candidate>,
) -> bool {
    &&& sorted.to_multiset() == cands.to_multiset()
    &&& sorted_cands(sorted)
    &&& forall|i: int|
        0 <= i < r.len() ==> sweep_spec(sorted, Seq::empty(), ak, au).contains(#[trigger] r[i])
    &&& r.len() == (if sweep_spec(sorted, Seq::empty(), ak, au).len() <= 4 {
        sweep_spec(sorted, Seq::empty(), ak, au).len()
    } else {
        4
    })
}

/// Extending the candidate list preserves window coverage.
proof fn lemma_covered_extend(
    keywords: Keywords,
    toks: Seq<(usize, String)>,
    pre: Seq<Candidate>,
    post: Seq<Candidate>,
    slug: Seq<char>,
    n: int,
    wlim: int,
)
    requires
        windows_covered(keywords, toks, pre, slug, n, wlim),
        pre.len() <= post.len(),
        forall|i: int| 0 <= i < pre.len() ==> post[i] == (#[trigger] pre[i]),
    ensures
        windows_covered(keywords, toks, post, slug, n, wlim),
{
    assert forall|w: int|
        #![trigger win_phrase(toks, w, n)]
        0 <= w && w + n <= toks.len() && w < wlim && (exists|s: Seq<char>|
            keywords.owns(win_phrase(toks, w, n), s) && s != slug) implies cand_for(
        post,
        toks,
        w,
        n,
    ) by {
        assert(cand_for(pre, toks, w, n));
        let i = choose|i: int|
            {
                &&& 0 <= i < pre.len()
                &&& (#[trigger] pre[i]).start == toks[w].0
                &&& pre[i].start + pre[i].length == toks[w + n - 1].0 + toks[w + n - 1].1@.len()
                &&& pre[i].keyword@ == win_phrase(toks, w, n)
            };
        assert(post[i] == pre[i]);
        assert(cand_for(post, toks, w, n));
    }
}

/// Generate every link candidate of one paragraph: each window of 4, 3 or 2
/// consecutive tokens whose normalized text is a declared phrase of some
/// other document, with one owning document chosen at random as the target.
///
/// No candidate ever points at the document being processed, every
/// candidate's phrase and target come from the index, and every span lies
/// inside the paragraph.
#[verifier::rlimit(100)]
pub fn generate_candidates(
    keywords: &Keywords,
    paragraph: &str,
    slug: &str,
    rng: &mut rand::rngs::StdRng,
) -> (r: Vec<Candidate>)
    requires
        keywords.wf(),
    ensures
        forall|i: int|
            0 <= i < r@.len() ==> {
                &&& (#[trigger] r@[i]).url@ != slug@
                &&& keywords.owns(r@[i].keyword@, r@[i].url@)
                &&& keywords.has_phrase(r@[i].keyword@)
                &&& cand_bounded(r@[i])
                &&& r@[i].start + r@[i].length <= paragraph@.len()
            },
        exists|toks: Seq<(usize, String)>|
            #![auto]
            is_tokenization(paragraph@, toks) && (forall|n: int|
                2 <= n <= 4 ==> #[trigger] windows_covered(
                    *keywords,
                    toks,
                    r@,
                    slug@,
                    n,
                    toks.len() as int + 1,
                )) && (forall|i: int| 0 <= i < r@.len() ==> cand_of_window(#[trigger] r@[i], toks)),
{
    let toks = positioned(paragraph);
    let mut refs: Vec<(usize, &str)> = Vec::new();
    let mut ti: usize = 0;
    while ti < toks.len()
        invariant
            0 <= ti <= toks@.len(),
            refs@.len() == ti,
            forall|q: int|
                0 <= q < ti ==> (#[trigger] refs@[q]).0 == toks@[q].0 && refs@[q].1@
                    == toks@[q].1@,
        decreases toks@.len() - ti,
    {
        refs.push((toks[ti].0, toks[ti].1.as_str()));
        ti = ti + 1;
    }
    let para_len = paragraph.unicode_len();
    let slug_string: String = slug.to_owned();
    let mut candidates: Vec<Candidate> = Vec::new();
    let mut size: usize = 4;
    while size >= 2
        invariant
            1 <= size <= 4,
            keywords.wf(),
            slug_string@ == slug@,
            para_len == paragraph@.len(),
            is_tokenization(paragraph@, toks@),
            refs@.len() == toks@.len(),
            forall|q: int|
                0 <= q < toks@.len() ==> (#[trigger] refs@[q]).0 == toks@[q].0 && refs@[q].1@
                    == toks@[q].1@,
            forall|i: int|
                0 <= i < candidates@.len() ==> {
                    &&& (#[trigger] candidates@[i]).url@ != slug@
                    &&& keywords.owns(candidates@[i].keyword@, candidates@[i].url@)
                    &&& keywords.has_phrase(candidates@[i].keyword@)
                    &&& cand_bounded(candidates@[i])
                    &&& candidates@[i].start + candidates@[i].length <= paragraph@.len()
                },
            forall|n: int|
                size < n <= 4 ==> #[trigger] windows_covered(
                    *keywords,
                    toks@,
                    candidates@,
                    slug@,
                    n,
                    toks@.len() as int + 1,
                ),
            forall|i: int|
                0 <= i < candidates@.len() ==> cand_of_window(#[trigger] candidates@[i], toks@),
        decreases size,
    {
        let grams = ngram(&refs, size);
        let mut g: usize = 0;
        while g < grams.len()
            invariant
                0 <= g <= grams@.len(),
                2 <= size <= 4,
                keywords.wf(),
                slug_string@ == slug@,
                para_len == paragraph@.len(),
                is_tokenization(paragraph@, toks@),
                refs@.len() == toks@.len(),
                forall|q: int|
                    0 <= q < toks@.len() ==> (#[trigger] refs@[q]).0 == toks@[q].0 && refs@[q].1@
                        == toks@[q].1@,
                refs@.len() >= size ==> grams@.len() == refs@.len() - size + 1,
                refs@.len() < size ==> grams@.len() == 0,
                forall|w: int|
                    0 <= w < grams@.len() ==> #[trigger] grams@[w]@ == refs@.subrange(
                        w,
                        w + size,
                    ),
                forall|i: int|
                    0 <= i < candidates@.len() ==> {
                        &&& (#[trigger] candidates@[i]).url@ != slug@
                        &&& keywords.owns(candidates@[i].keyword@, candidates@[i].url@)
                        &&& keywords.has_phrase(candidates@[i].keyword@)
                        &&& cand_bounded(candidates@[i])
                        &&& candidates@[i].start + candidates@[i].length <= paragraph@.len()
                    },
                forall|n: int|
                    size < n <= 4 ==> #[trigger] windows_covered(
                        *keywords,
                        toks@,
                        candidates@,
                        slug@,
                        n,
                        toks@.len() as int + 1,
                    ),
                windows_covered(*keywords, toks@, candidates@, slug@, size as int, g as int),
                forall|i: int|
                    0 <= i < candidates@.len() ==> cand_of_window(
                        #[trigger] candidates@[i],
                        toks@,
                    ),
            decreases grams@.len() - g,
        {
            let ghost pre_c = candidates@;
            let window = &grams[g];
            let joined = join_window(window);
            let low = lowercase(joined.as_str());
            proof {
                let w = g as int;
                let sz = size as int;
                assert(grams@[w]@ == refs@.subrange(w, w + sz));
                assert(window_texts(window@) =~= Seq::new(
                    sz as nat,
                    |q: int|
                        if 0 <= w + q < toks@.len() {
                            toks@[w + q].1@
                        } else {
                            Seq::empty()
                        },
                )) by {
                    assert forall|q: int| 0 <= q < sz implies window_texts(window@)[q] == toks@[w
                        + q].1@ by {
                        assert(window@[q] == refs@[w + q]);
                    }
                }
                assert(low@ == win_phrase(toks@, w, sz));
            }
            match keywords.get(low.as_str()) {
                None => {
                    proof {
                        assert(!keywords.has_phrase(low@));
                    }
                },
                Some(slugs) => {
                    // drop the document's own slug from the owners
                    let mut others: Vec<String> = Vec::new();
                    let mut q: usize = 0;
                    while q < slugs.len()
                        invariant
                            0 <= q <= slugs@.len(),
                            slug_string@ == slug@,
                            forall|p: int|
                                0 <= p < others@.len() ==> (#[trigger] others@[p])@ != slug@,
                            forall|p: int|
                                0 <= p < others@.len() ==> exists|z: int|
                                    0 <= z < slugs@.len() && (#[trigger] others@[p])@ == (
                                    slugs@[z])@,
                            forall|z: int|
                                0 <= z < q ==> ((#[trigger] slugs@[z])@ == slug@ || others@.len()
                                    > 0),
                        decreases slugs@.len() - q,
                    {
                        if !(slugs[q] == slug_string) {
                            others.push(slugs[q].clone());
                        }
                        q = q + 1;
                    }
                    if others.len() == 0 {
                        proof {
                            assert(forall|z: int|
                                0 <= z < slugs@.len() ==> (#[trigger] slugs@[z])@ == slug@);
                        }
                    }
                    if others.len() > 0 {
                        let pick = (#[verifier::truncate] (next_u64(rng) as usize))
                            % others.len();
                        let url = others[pick].clone();
                        proof {
                            let w = g as int;
                            let sz = size as int;
                            assert(grams@[w]@ == refs@.subrange(w, w + sz));
                            assert(window@[0] == refs@[w]);
                            assert(window@[sz - 1] == refs@[w + sz - 1]);
                            lemma_token_order(paragraph@, toks@, w, w + sz - 1);
                        }
                        let first = &window[0];
                        let last = &window[window.len() - 1];
                        proof {
                            let w = g as int;
                            let sz = size as int;
                            let li = w + sz - 1;
                            assert(first.0 == toks@[w].0);
                            assert(last.0 == toks@[li].0);
                            assert(last.1@ == toks@[li].1@);
                            assert(toks@[li].0 + toks@[li].1@.len() <= paragraph@.len());
                            assert(toks@[w].0 <= toks@[li].0);
                        }
                        let start = first.0;
                        let length = last.0 + last.1.unicode_len() - start;
                        let cand = Candidate { start, length, keyword: low.clone(), url };
                        proof {
                            assert(keywords.owns(cand.keyword@, cand.url@)) by {
                                let p = choose|z: int|
                                    0 <= z < slugs@.len() && (others@[pick as int])@ == (
                                    slugs@[z])@;
                            }
                        }
                        candidates.push(cand);
                        proof {
                            let w = g as int;
                            let sz = size as int;
                            let li = candidates@.len() - 1;
                            assert(candidates@[li].start == toks@[w].0);
                            assert(candidates@[li].start + candidates@[li].length == toks@[w + sz
                                - 1].0 + toks@[w + sz - 1].1@.len());
                            assert(candidates@[li].keyword@ == win_phrase(toks@, w, sz));
                            assert(cand_for(candidates@, toks@, w, sz));
                            assert(cand_of_window(candidates@[li], toks@)) by {
                                assert(2 <= sz <= 4 && 0 <= w && w + sz <= toks@.len()
                                    && candidates@[li].start == toks@[w].0 && candidates@[li].start
                                    + candidates@[li].length == toks@[w + sz - 1].0 + toks@[w + sz
                                    - 1].1@.len() && candidates@[li].keyword@ == win_phrase(
                                    toks@,
                                    w,
                                    sz,
                                ));
                            }
                        }
                    }
                },
            }
            proof {
                let w = g as int;
                let sz = size as int;
                assert(forall|i: int| 0 <= i < pre_c.len() ==> candidates@[i] == pre_c[i]);
                assert forall|w2: int|
                    0 <= w2 && w2 + sz <= toks@.len() && w2 < g + 1 && (exists|s: Seq<char>|
                        keywords.owns(#[trigger] win_phrase(toks@, w2, sz), s) && s
                            != slug@) implies cand_for(candidates@, toks@, w2, sz) by {
                    if w2 < w {
                        assert(cand_for(pre_c, toks@, w2, sz));
                        let i = choose|i: int|
                            {
                                &&& 0 <= i < pre_c.len()
                                &&& (#[trigger] pre_c[i]).start == toks@[w2].0
                                &&& pre_c[i].start + pre_c[i].length == toks@[w2 + sz - 1].0
                                    + toks@[w2 + sz - 1].1@.len()
                                &&& pre_c[i].keyword@ == win_phrase(toks@, w2, sz)
                            };
                        assert(candidates@[i] == pre_c[i]);
                    } else {
                        let s = choose|s: Seq<char>|
                            keywords.owns(win_phrase(toks@, w2, sz), s) && s != slug@;
                        assert(keywords.owns(low@, s));
                        keywords.lemma_owns_has_phrase(low@, s);
                    }
                }
                assert forall|n: int|
                    size < n <= 4 implies #[trigger] windows_covered(
                    *keywords,
                    toks@,
                    candidates@,
                    slug@,
                    n,
                    toks@.len() as int + 1,
                ) by {
                    lemma_covered_extend(
                        *keywords,
                        toks@,
                        pre_c,
                        candidates@,
                        slug@,
                        n,
                        toks@.len() as int + 1,
                    );
                }
            }
            g = g + 1;
        }
        proof {
            let sz = size as int;
            assert forall|w: int|
                0 <= w && w + sz <= toks@.len() && w < toks@.len() + 1 && (exists|s: Seq<char>|
                    keywords.owns(#[trigger] win_phrase(toks@, w, sz), s) && s
                        != slug@) implies cand_for(candidates@, toks@, w, sz) by {
                assert(w < grams@.len());
            }
            assert(windows_covered(*keywords, toks@, candidates@, slug@, sz, toks@.len() as int + 1));
        }
        size = size - 1;
    }
    proof {
        assert(is_tokenization(paragraph@, toks@) && (forall|n: int|
            2 <= n <= 4 ==> #[trigger] windows_covered(
                *keywords,
                toks@,
                candidates@,
                slug@,
                n,
                toks@.len() as int + 1,
            )) && (forall|i: int|
            0 <= i < candidates@.len() ==> cand_of_window(#[trigger] candidates@[i], toks@)));
    }
    candidates
}

/// The texts of a window's positioned tokens.
pub open spec fn window_texts(ws: Seq<(usize, &str)>) -> Seq<Seq<char>> {
    Seq::new(
        ws.len(),
        |i: int|
            if 0 <= i < ws.len() {
                ws[i].1@
            } else {
                Seq::empty()
            },
    )
}

/// The normalized phrase of the window of `n` tokens starting at token `w`.
pub open spec fn win_phrase(toks: Seq<(usize, String)>, w: int, n: int) -> Seq<char> {
    lower_of(
        join_spaced(
            Seq::new(
                n as nat,
                |q: int|
                    if 0 <= w + q < toks.len() {
                        toks[w + q].1@
                    } else {
                        Seq::empty()
                    },
            ),
        ),
    )
}

/// Some candidate carries exactly the span and phrase of the window of `n`
/// tokens starting at token `w`.
pub open spec fn cand_for(
    cands: Seq<Candidate>,
    toks: Seq<(usize, String)>,
    w: int,
    n: int,
) -> bool {
    exists|i: int|
        {
            &&& 0 <= i < cands.len()
            &&& (#[trigger] cands[i]).start == toks[w].0
            &&& cands[i].start + cands[i].length == toks[w + n - 1].0 + toks[w + n - 1].1@.len()
            &&& cands[i].keyword@ == win_phrase(toks, w, n)
        }
}

/// Every window of `n` tokens before `wlim` whose phrase some other
/// document owns has a candidate.
pub open spec fn windows_covered(
    keywords: Keywords,
    toks: Seq<(usize, String)>,
    cands: Seq<Candidate>,
    slug: Seq<char>,
    n: int,
    wlim: int,
) -> bool {
    forall|w: int|
        #![trigger win_phrase(toks, w, n)]
        0 <= w && w + n <= toks.len() && w < wlim && (exists|s: Seq<char>|
            keywords.owns(win_phrase(toks, w, n), s) && s != slug) ==> cand_for(
            cands,
            toks,
            w,
            n,
        )
}

/// The texts of a token window, joined with single spaces.
fn join_window(window: &Vec<(usize, &str)>) -> (r: String)
    ensures
        r@ == join_spaced(window_texts(window@)),
{
    let mut out = String::new();
    let mut i: usize = 0;
    while i < window.len()
        invariant
            0 <= i <= window@.len(),
            out@ == join_spaced(window_texts(window@).take(i as int)),
        decreases window@.len() - i,
    {
        let ghost pre = window_texts(window@).take(i as int);
        if i > 0 {
            out.append(" ");
            proof {
                reveal_strlit(" ");
            }
        }
        out.append(window[i].1);
        proof {
            let cur = window_texts(window@).take(i + 1);
            assert(cur =~= pre.push(window@[i as int].1@));
            if i == 0 {
                assert(cur =~= seq![window@[0].1@]);
                assert(join_spaced(cur) == window@[0].1@);
            } else {
                lemma_join_spaced_snoc(pre, window@[i as int].1@);
                assert(seq![' '] =~= " "@);
                assert(out@ == join_spaced(pre) + " "@ + window@[i as int].1@);
            }
        }
        i = i + 1;
    }
    proof {
        assert(window_texts(window@).take(window@.len() as int) =~= window_texts(window@));
    }
    out
}


/// Relies on rand::seq::SliceRandom::shuffle: permutes the elements in
/// place, so the result holds exactly the elements given, in some order.
#[verifier::external_body]
fn shuffle_candidates(v: &mut Vec<Candidate>, rng: &mut rand::rngs::StdRng)
    ensures
        final(v)@.to_multiset() == old(v)@.to_multiset(),
{
    rand::seq::SliceRandom::shuffle(v.as_mut_slice(), rng)
}

/// Two sequences with the same multiset of elements contain the same
/// elements and have the same length.
proof fn lemma_same_elements(a: Seq<Candidate>, b: Seq<Candidate>)
    requires
        a.to_multiset() == b.to_multiset(),
    ensures
        forall|x: Candidate| a.contains(x) <==> b.contains(x),
        b.len() == a.len(),
{
    a.to_multiset_ensures();
    b.to_multiset_ensures();
    assert forall|x: Candidate| a.contains(x) <==> b.contains(x) by {
        assert(a.to_multiset().count(x) == b.to_multiset().count(x));
        if a.contains(x) {
            assert(a.to_multiset().count(x) > 0);
            assert(b.contains(x));
        }
        if b.contains(x) {
            assert(b.to_multiset().count(x) > 0);
            assert(a.contains(x));
        }
    }
}

/// A sequence with the same multiset of elements as a duplicate-free one is
/// itself duplicate-free.
proof fn lemma_no_dup_transfer(a: Seq<Candidate>, b: Seq<Candidate>)
    requires
        a.to_multiset() == b.to_multiset(),
        a.no_duplicates(),
    ensures
        b.no_duplicates(),
{
    a.lemma_multiset_has_no_duplicates();
    assert forall|x: Candidate| b.to_multiset().contains(x) implies b.to_multiset().count(x)
        == 1 by {
        assert(a.to_multiset().count(x) == b.to_multiset().count(x));
    }
    b.lemma_multiset_has_no_duplicates_conv();
}

/// Resolve, sort and cap one paragraph's candidates.
///
/// The candidates are sorted by ascending start with the longer span first
/// on a tie, swept once so that a candidate is dropped when its phrase or
/// target was already taken in this paragraph or anywhere in the document,
/// or when it overlaps the last accepted span; the accepted list is then
/// shuffled, capped at four entries, and re-sorted by start. The phrases
/// and targets of the returned selection are recorded in the document
/// state.
#[verifier::rlimit(100)]
#[verifier::spinoff_prover]
pub fn select_candidates(
    cands: Vec<Candidate>,
    added_keywords: &mut Vec<String>,
    added_urls: &mut Vec<String>,
    rng: &mut rand::rngs::StdRng,
) -> (r: Vec<Candidate>)
    requires
        forall|i: int| 0 <= i < cands@.len() ==> cand_bounded(#[trigger] cands@[i]),
    ensures
        r@.len() <= 4,
        forall|i: int| 0 <= i < r@.len() ==> cands@.contains(#[trigger] r@[i]),
        forall|i: int| 0 <= i < r@.len() ==> cand_bounded(#[trigger] r@[i]),
        forall|i: int|
            0 <= i < r@.len() - 1 ==> (#[trigger] r@[i]).start + r@[i].length <= r@[i + 1].start,
        forall|i: int, j: int|
            0 <= i < j < r@.len() ==> (#[trigger] r@[i]).keyword@ != (#[trigger] r@[j]).keyword@
                && r@[i].url@ != r@[j].url@,
        forall|i: int|
            0 <= i < r@.len() ==> !in_strs(old(added_keywords)@, (#[trigger] r@[i]).keyword@)
                && !in_strs(old(added_urls)@, r@[i].url@),
        forall|x: Seq<char>|
            in_strs(final(added_keywords)@, x) <==> in_strs(old(added_keywords)@, x) || (exists|
                i: int,
            |
                0 <= i < r@.len() && (#[trigger] r@[i]).keyword@ == x),
        forall|x: Seq<char>|
            in_strs(final(added_urls)@, x) <==> in_strs(old(added_urls)@, x) || (exists|i: int|
                0 <= i < r@.len() && (#[trigger] r@[i]).url@ == x),
        (exists|i: int|
            0 <= i < cands@.len() && fresh_candidate(
                #[trigger] cands@[i],
                old(added_keywords)@,
                old(added_urls)@,
            )) ==> r@.len() >= 1,
        exists|sorted: Seq<Candidate>|
            #![auto]
            greedy_selection(sorted, cands@, old(added_keywords)@, old(added_urls)@, r@),
{
    let mut sorted = cands;
    sort_candidates(&mut sorted);
    proof {
        lemma_same_elements(sorted@, cands@);
        assert forall|q: int| 0 <= q < sorted@.len() implies cand_bounded(
            #[trigger] sorted@[q],
        ) by {
            assert(cands@.contains(sorted@[q]));
            let i = choose|i: int| 0 <= i < cands@.len() && cands@[i] == sorted@[q];
        }
    }
    proof {
        if exists|i: int|
            0 <= i < cands@.len() && fresh_candidate(
                #[trigger] cands@[i],
                old(added_keywords)@,
                old(added_urls)@,
            ) {
            let i = choose|i: int|
                0 <= i < cands@.len() && fresh_candidate(
                    #[trigger] cands@[i],
                    old(added_keywords)@,
                    old(added_urls)@,
                );
            assert(cands@.contains(cands@[i]));
            assert(sorted@.contains(cands@[i]));
        }
    }
    let ghost had_fresh = exists|x: Candidate|
        sorted@.contains(x) && fresh_candidate(x, old(added_keywords)@, old(added_urls)@);
    let ghost sorted0 = sorted@;
    let mut acc: Vec<Candidate> = Vec::new();
    let mut seen_k: Vec<String> = Vec::new();
    let mut seen_u: Vec<String> = Vec::new();
    proof {
        assert(acc@ =~= Seq::<Candidate>::empty());
    }
    while sorted.len() > 0
        invariant
            added_keywords@ == old(added_keywords)@,
            added_urls@ == old(added_urls)@,
            forall|q: int| 0 <= q < sorted@.len() ==> cands@.contains(#[trigger] sorted@[q]),
            forall|q: int| 0 <= q < sorted@.len() ==> cand_bounded(#[trigger] sorted@[q]),
            forall|i: int| 0 <= i < acc@.len() ==> cands@.contains(#[trigger] acc@[i]),
            forall|i: int| 0 <= i < acc@.len() ==> cand_bounded(#[trigger] acc@[i]),
            forall|i: int, j: int|
                0 <= i < j < acc@.len() ==> (#[trigger] acc@[i]).start + acc@[i].length <= (
                #[trigger] acc@[j]).start,
            forall|i: int|
                0 <= i < acc@.len() ==> in_strs(seen_k@, (#[trigger] acc@[i]).keyword@) && in_strs(
                    seen_u@,
                    acc@[i].url@,
                ),
            forall|i: int, j: int|
                0 <= i < j < acc@.len() ==> (#[trigger] acc@[i]).keyword@ != (
                #[trigger] acc@[j]).keyword@ && acc@[i].url@ != acc@[j].url@,
            forall|i: int|
                0 <= i < acc@.len() ==> !in_strs(
                    old(added_keywords)@,
                    (#[trigger] acc@[i]).keyword@,
                ) && !in_strs(old(added_urls)@, acc@[i].url@),
            seen_k@.len() == acc@.len(),
            seen_u@.len() == acc@.len(),
            forall|i: int|
                0 <= i < acc@.len() ==> (#[trigger] seen_k@[i])@ == acc@[i].keyword@
                    && seen_u@[i]@ == acc@[i].url@,
            sweep_spec(sorted@, acc@, old(added_keywords)@, old(added_urls)@) == sweep_spec(
                sorted0,
                Seq::empty(),
                old(added_keywords)@,
                old(added_urls)@,
            ),
            had_fresh ==> acc@.len() >= 1 || (exists|x: Candidate|
                sorted@.contains(x) && fresh_candidate(x, old(added_keywords)@, old(added_urls)@)),
        decreases sorted@.len(),
    {
        let ghost pre_sorted = sorted@;
        let c = sorted.remove(0);
        let ghost entry_acc = acc@;
        let ghost entry_seen_k = seen_k@;
        let ghost entry_seen_u = seen_u@;
        proof {
            assert(c == pre_sorted[0]);
            assert(forall|q: int| 0 <= q < sorted@.len() ==> sorted@[q] == pre_sorted[q + 1]);
        }
        let dup = contains_string(&seen_k, &c.keyword) || contains_string(&seen_u, &c.url)
            || contains_string(added_keywords, &c.keyword) || contains_string(
            added_urls,
            &c.url,
        );
        if !dup {
            let overlap = if acc.len() > 0 {
                acc[acc.len() - 1].end() > c.start
            } else {
                false
            };
            if !overlap {
                let ghost pre_acc = acc@;
                let ghost pre_seen_k = seen_k@;
                let ghost pre_seen_u = seen_u@;
                seen_k.push(c.keyword.clone());
                seen_u.push(c.url.clone());
                acc.push(c);
                proof {
                    assert(forall|i: int| 0 <= i < pre_acc.len() ==> acc@[i] == pre_acc[i]);
                    assert(forall|j: int| 0 <= j < pre_seen_k.len() ==> seen_k@[j] == pre_seen_k[j]);
                    assert(forall|j: int| 0 <= j < pre_seen_u.len() ==> seen_u@[j] == pre_seen_u[j]);
                    assert(seen_k@[pre_seen_k.len() as int]@ == acc@[pre_acc.len() as int].keyword@);
                    assert(seen_u@[pre_seen_u.len() as int]@ == acc@[pre_acc.len() as int].url@);
                    assert(forall|i: int|
                        0 <= i < acc@.len() ==> (#[trigger] seen_k@[i])@ == acc@[i].keyword@
                            && seen_u@[i]@ == acc@[i].url@);
                    assert forall|i: int| 0 <= i < acc@.len() implies in_strs(
                        seen_k@,
                        (#[trigger] acc@[i]).keyword@,
                    ) && in_strs(seen_u@, acc@[i].url@) by {
                        if i < pre_acc.len() {
                            let j = choose|j: int|
                                0 <= j < pre_seen_k.len() && (#[trigger] pre_seen_k[j])@
                                    == acc@[i].keyword@;
                            assert(seen_k@[j]@ == acc@[i].keyword@);
                            let j2 = choose|j2: int|
                                0 <= j2 < pre_seen_u.len() && (#[trigger] pre_seen_u[j2])@
                                    == acc@[i].url@;
                            assert(seen_u@[j2]@ == acc@[i].url@);
                        } else {
                            assert(seen_k@[pre_seen_k.len() as int]@ == acc@[i].keyword@);
                            assert(seen_u@[pre_seen_u.len() as int]@ == acc@[i].url@);
                        }
                    }
                }
            }
        }
        proof {
            let ak0 = old(added_keywords)@;
            let au0 = old(added_urls)@;
            assert(sorted@ =~= pre_sorted.drop_first());
            // the seen lists mirror the accepted candidates
            assert(in_strs(entry_seen_k, c.keyword@) <==> (exists|i: int|
                0 <= i < entry_acc.len() && (#[trigger] entry_acc[i]).keyword@
                    == c.keyword@)) by {
                if in_strs(entry_seen_k, c.keyword@) {
                    let j = choose|j: int|
                        0 <= j < entry_seen_k.len() && (#[trigger] entry_seen_k[j])@ == c.keyword@;
                    assert(entry_acc[j].keyword@ == c.keyword@);
                }
                if exists|i: int|
                    0 <= i < entry_acc.len() && (#[trigger] entry_acc[i]).keyword@ == c.keyword@ {
                    let i = choose|i: int|
                        0 <= i < entry_acc.len() && (#[trigger] entry_acc[i]).keyword@
                            == c.keyword@;
                    assert(entry_seen_k[i]@ == c.keyword@);
                }
            }
            assert(in_strs(entry_seen_u, c.url@) <==> (exists|i: int|
                0 <= i < entry_acc.len() && (#[trigger] entry_acc[i]).url@ == c.url@)) by {
                if in_strs(entry_seen_u, c.url@) {
                    let j = choose|j: int|
                        0 <= j < entry_seen_u.len() && (#[trigger] entry_seen_u[j])@ == c.url@;
                    assert(entry_acc[j].url@ == c.url@);
                }
                if exists|i: int|
                    0 <= i < entry_acc.len() && (#[trigger] entry_acc[i]).url@ == c.url@ {
                    let i = choose|i: int|
                        0 <= i < entry_acc.len() && (#[trigger] entry_acc[i]).url@ == c.url@;
                    assert(entry_seen_u[i]@ == c.url@);
                }
            }
            // the acceptance test holds exactly when the branch pushed
            assert(sweep_ok(c, entry_acc, ak0, au0) <==> acc@ == entry_acc.push(c)) by {
                if sweep_ok(c, entry_acc, ak0, au0) {
                    assert(!in_strs(entry_seen_k, c.keyword@));
                    assert(!in_strs(entry_seen_u, c.url@));
                    assert(acc@ == entry_acc.push(c));
                }
                if acc@ == entry_acc.push(c) {
                    assert forall|i: int| 0 <= i < entry_acc.len() implies (
                    #[trigger] entry_acc[i]).keyword@ != c.keyword@ && entry_acc[i].url@
                        != c.url@ by {
                        if entry_acc[i].keyword@ == c.keyword@ {
                            assert(entry_seen_k[i]@ == c.keyword@);
                            assert(in_strs(entry_seen_k, c.keyword@));
                        }
                        if entry_acc[i].url@ == c.url@ {
                            assert(entry_seen_u[i]@ == c.url@);
                            assert(in_strs(entry_seen_u, c.url@));
                        }
                    }
                    assert(sweep_ok(c, entry_acc, ak0, au0));
                }
            }
            assert(sweep_spec(pre_sorted, entry_acc, ak0, au0) == sweep_spec(
                sorted@,
                acc@,
                ak0,
                au0,
            )) by {
                if sweep_ok(c, entry_acc, ak0, au0) {
                    assert(acc@ == entry_acc.push(c));
                } else {
                    assert(acc@ == entry_acc);
                }
            }
            if had_fresh && acc@.len() == 0 {
                // the fresh witness was not accepted, so it was not the
                // candidate just taken from the front: it is still ahead
                let x = choose|x: Candidate|
                    pre_sorted.contains(x) && fresh_candidate(
                        x,
                        old(added_keywords)@,
                        old(added_urls)@,
                    );
                assert(x != c) by {
                    if x == c {
                        // a fresh candidate at the front of an empty
                        // selection is always accepted
                        assert(!in_strs(old(added_keywords)@, c.keyword@));
                        assert(false);
                    }
                }
                let w = choose|w: int| 0 <= w < pre_sorted.len() && pre_sorted[w] == x;
                assert(w != 0);
                assert(sorted@[w - 1] == x);
                assert(sorted@.contains(x));
            }
        }
    }
    proof {
        assert(sorted@ =~= Seq::<Candidate>::empty());
        assert(sweep_spec(sorted@, acc@, old(added_keywords)@, old(added_urls)@) == acc@);
        assert(sweep_spec(sorted0, Seq::empty(), old(added_keywords)@, old(added_urls)@) == acc@);
        assert(acc@.no_duplicates()) by {
            assert forall|i: int, j: int| 0 <= i < j < acc@.len() implies acc@[i] != acc@[j] by {
                assert(acc@[i].start + acc@[i].length <= acc@[j].start);
            }
        }
        assert(pairwise_compatible(acc@)) by {
            assert forall|x: Candidate, y: Candidate|
                #[trigger] acc@.contains(x) && #[trigger] acc@.contains(y) && x != y implies {
                &&& (x.start + x.length <= y.start || y.start + y.length <= x.start)
                &&& x.keyword@ != y.keyword@
                &&& x.url@ != y.url@
            } by {
                let i = choose|i: int| 0 <= i < acc@.len() && acc@[i] == x;
                let j = choose|j: int| 0 <= j < acc@.len() && acc@[j] == y;
                if i < j {
                    assert(acc@[i].start + acc@[i].length <= acc@[j].start);
                } else {
                    assert(acc@[j].start + acc@[j].length <= acc@[i].start);
                }
            }
        }
    }
    let ghost acc0 = acc@;
    shuffle_candidates(&mut acc, rng);
    proof {
        lemma_same_elements(acc0, acc@);
        lemma_no_dup_transfer(acc0, acc@);
    }
    let ghost acc1 = acc@;
    if acc.len() > 4 {
        acc.truncate(4);
        proof {
            assert(forall|i: int| 0 <= i < acc@.len() ==> acc@[i] == acc1[i]);
            assert(forall|i: int| 0 <= i < acc@.len() ==> acc1.contains(#[trigger] acc@[i]));
        }
    }
    let ghost acc2 = acc@;
    proof {
        assert(acc2.no_duplicates());
        assert(forall|x: Candidate| acc2.contains(x) ==> acc1.contains(x));
        assert(acc1.len() == acc0.len());
        assert(acc2.len() == (if acc0.len() <= 4 {
            acc0.len()
        } else {
            4
        }));
    }
    sort_candidates(&mut acc);
    proof {
        lemma_same_elements(acc2, acc@);
        lemma_no_dup_transfer(acc2, acc@);
        assert forall|i: int|
            0 <= i < acc@.len() - 1 implies (#[trigger] acc@[i]).start + acc@[i].length <= acc@[i
            + 1].start by {
            let x = acc@[i];
            let y = acc@[i + 1];
            assert(acc@.contains(x));
            assert(acc@.contains(y));
            assert(acc0.contains(x));
            assert(acc0.contains(y));
            assert(x != y);
            assert(cand_le(x, y));
            if y.start + y.length <= x.start {
                assert(false);
            }
        }
        assert forall|i: int, j: int| 0 <= i < j < acc@.len() implies (
        #[trigger] acc@[i]).keyword@ != (#[trigger] acc@[j]).keyword@ && acc@[i].url@
            != acc@[j].url@ by {
            let x = acc@[i];
            let y = acc@[j];
            assert(acc@.contains(x));
            assert(acc@.contains(y));
            assert(acc0.contains(x));
            assert(acc0.contains(y));
            assert(x != y);
        }
        assert forall|i: int|
            0 <= i < acc@.len() implies acc0.contains(#[trigger] acc@[i]) && cands@.contains(
            acc@[i],
        ) && cand_bounded(acc@[i]) by {
            assert(acc@.contains(acc@[i]));
            assert(acc0.contains(acc@[i]));
            let w = choose|w: int| 0 <= w < acc0.len() && acc0[w] == acc@[i];
        }
    }
    let ghost res = acc@;
    let ghost added_k_mid = added_keywords@;
    let ghost added_u_mid = added_urls@;
    let mut t: usize = 0;
    while t < acc.len()
        invariant
            0 <= t <= acc@.len(),
            acc@ == res,
            forall|x: Seq<char>|
                in_strs(added_keywords@, x) <==> in_strs(added_k_mid, x) || (exists|i: int|
                    0 <= i < t && (#[trigger] res[i]).keyword@ == x),
            forall|x: Seq<char>|
                in_strs(added_urls@, x) <==> in_strs(added_u_mid, x) || (exists|i: int|
                    0 <= i < t && (#[trigger] res[i]).url@ == x),
        decreases acc@.len() - t,
    {
        let ghost pk = added_keywords@;
        let ghost pu = added_urls@;
        added_keywords.push(acc[t].keyword.clone());
        added_urls.push(acc[t].url.clone());
        proof {
            assert(forall|i: int| 0 <= i < pk.len() ==> added_keywords@[i] == pk[i]);
            assert(forall|i: int| 0 <= i < pu.len() ==> added_urls@[i] == pu[i]);
            assert(added_keywords@[pk.len() as int]@ == res[t as int].keyword@);
            assert(added_urls@[pu.len() as int]@ == res[t as int].url@);
            assert forall|x: Seq<char>|
                in_strs(added_keywords@, x) <==> in_strs(pk, x) || res[t as int].keyword@
                    == x by {
                if in_strs(added_keywords@, x) {
                    let j = choose|j: int|
                        0 <= j < added_keywords@.len() && (#[trigger] added_keywords@[j])@ == x;
                    if j < pk.len() {
                        assert(in_strs(pk, x));
                    }
                }
                if in_strs(pk, x) {
                    let j = choose|j: int| 0 <= j < pk.len() && (#[trigger] pk[j])@ == x;
                    assert(added_keywords@[j]@ == x);
                }
            }
            assert forall|x: Seq<char>|
                in_strs(added_urls@, x) <==> in_strs(pu, x) || res[t as int].url@ == x by {
                if in_strs(added_urls@, x) {
                    let j = choose|j: int|
                        0 <= j < added_urls@.len() && (#[trigger] added_urls@[j])@ == x;
                    if j < pu.len() {
                        assert(in_strs(pu, x));
                    }
                }
                if in_strs(pu, x) {
                    let j = choose|j: int| 0 <= j < pu.len() && (#[trigger] pu[j])@ == x;
                    assert(added_urls@[j]@ == x);
                }
            }
            let tt = t as int;
            assert forall|x: Seq<char>|
                in_strs(added_keywords@, x) <==> in_strs(added_k_mid, x) || (exists|i: int|
                    0 <= i < tt + 1 && (#[trigger] res[i]).keyword@ == x) by {
                if in_strs(added_keywords@, x) {
                    if in_strs(pk, x) {
                        if !in_strs(added_k_mid, x) {
                            let i = choose|i: int|
                                0 <= i < tt && (#[trigger] res[i]).keyword@ == x;
                            assert(0 <= i < tt + 1 && res[i].keyword@ == x);
                        }
                    } else {
                        assert(res[tt].keyword@ == x);
                    }
                }
                if in_strs(added_k_mid, x) {
                    assert(in_strs(pk, x));
                }
                if exists|i: int| 0 <= i < tt + 1 && (#[trigger] res[i]).keyword@ == x {
                    let i = choose|i: int| 0 <= i < tt + 1 && (#[trigger] res[i]).keyword@ == x;
                    if i < tt {
                        assert(in_strs(pk, x));
                    }
                    assert(in_strs(added_keywords@, x));
                }
            }
            assert forall|x: Seq<char>|
                in_strs(added_urls@, x) <==> in_strs(added_u_mid, x) || (exists|i: int|
                    0 <= i < tt + 1 && (#[trigger] res[i]).url@ == x) by {
                if in_strs(added_urls@, x) {
                    if in_strs(pu, x) {
                        if !in_strs(added_u_mid, x) {
                            let i = choose|i: int|
                                0 <= i < tt && (#[trigger] res[i]).url@ == x;
                            assert(0 <= i < tt + 1 && res[i].url@ == x);
                        }
                    } else {
                        assert(res[tt].url@ == x);
                    }
                }
                if in_strs(added_u_mid, x) {
                    assert(in_strs(pu, x));
                }
                if exists|i: int| 0 <= i < tt + 1 && (#[trigger] res[i]).url@ == x {
                    let i = choose|i: int| 0 <= i < tt + 1 && (#[trigger] res[i]).url@ == x;
                    if i < tt {
                        assert(in_strs(pu, x));
                    }
                    assert(in_strs(added_urls@, x));
                }
            }
        }
        t = t + 1;
    }
    proof {
        let swp = sweep_spec(sorted0, Seq::empty(), old(added_keywords)@, old(added_urls)@);
        assert(swp == acc0);
        assert forall|i: int| 0 <= i < acc@.len() implies swp.contains(#[trigger] acc@[i]) by {
            assert(acc0.contains(acc@[i]));
        }
        assert(acc@.len() == (if swp.len() <= 4 {
            swp.len()
        } else {
            4
        }));
        assert(greedy_selection(sorted0, cands@, old(added_keywords)@, old(added_urls)@, acc@));
    }
    acc
}

/// Per-document uniqueness: a selection drawn against a document state
/// never repeats a value that an earlier selection put into that state, so
/// the values of the two selections are disjoint.
pub proof fn lemma_document_uniqueness(
    vals1: Seq<Seq<char>>,
    vals2: Seq<Seq<char>>,
    st0: Seq<String>,
    st1: Seq<String>,
)
    requires
        forall|x: Seq<char>| in_strs(st1, x) <==> in_strs(st0, x) || vals1.contains(x),
        forall|i: int| 0 <= i < vals2.len() ==> !in_strs(st1, #[trigger] vals2[i]),
    ensures
        forall|i: int, j: int|
            0 <= i < vals1.len() && 0 <= j < vals2.len() ==> (#[trigger] vals1[i]) != (
            #[trigger] vals2[j]),
{
    assert forall|i: int, j: int|
        0 <= i < vals1.len() && 0 <= j < vals2.len() implies (#[trigger] vals1[i]) != (
    #[trigger] vals2[j]) by {
        assert(vals1.contains(vals1[i]));
        assert(in_strs(st1, vals1[i]));
    }
}

} // verus!
