use vstd::prelude::*;

use crate::text::lower_of;
use crate::text::lowercase;
use crate::text::spec_trim;
use crate::text::trim;

verus! {

/// Phrases are pairwise distinct and every slug list is duplicate-free.
spec fn entries_wf(es: Seq<(String, Vec<String>)>) -> bool {
    &&& forall|i: int, j: int|
        0 <= i < j < es.len() ==> (#[trigger] es[i]).0@ != (#[trigger] es[j]).0@
    &&& forall|i: int, a: int, b: int|
        0 <= i < es.len() && 0 <= a < b < es[i].1@.len() ==> (#[trigger] es[i].1@[a])@ != (
        #[trigger] es[i].1@[b])@
}

/// The phrase `kw` has an entry.
spec fn entries_has(es: Seq<(String, Vec<String>)>, kw: Seq<char>) -> bool {
    exists|i: int| 0 <= i < es.len() && (#[trigger] es[i]).0@ == kw
}

/// The document `slug` is listed for the phrase `kw`.
spec fn entries_own(es: Seq<(String, Vec<String>)>, kw: Seq<char>, slug: Seq<char>) -> bool {
    exists|i: int, j: int|
        #![trigger es[i].1@[j]]
        {
            &&& 0 <= i < es.len()
            &&& 0 <= j < es[i].1@.len()
            &&& es[i].0@ == kw
            &&& es[i].1@[j]@ == slug
        }
}

/// An append-only index from normalized keyword phrases to the set of
/// document slugs that declare them.
pub struct Keywords {
    entries: Vec<(String, Vec<String>)>,
}

impl Keywords {
    /// The internal entry list is well formed.
    pub closed spec fn wf(self) -> bool {
        entries_wf(self.entries@)
    }

    /// The phrase has been declared by some document.
    pub closed spec fn has_phrase(self, kw: Seq<char>) -> bool {
        entries_has(self.entries@, kw)
    }

    /// The document `slug` declares the phrase `kw`.
    pub closed spec fn owns(self, kw: Seq<char>, slug: Seq<char>) -> bool {
        entries_own(self.entries@, kw, slug)
    }

    /// A declared ownership implies that the phrase is present.
    pub proof fn lemma_owns_has_phrase(self, kw: Seq<char>, slug: Seq<char>)
        requires
            self.owns(kw, slug),
        ensures
            self.has_phrase(kw),
    {
        let (i, j) = choose|i: int, j: int|
            #![trigger self.entries@[i].1@[j]]
            {
                &&& 0 <= i < self.entries@.len()
                &&& 0 <= j < self.entries@[i].1@.len()
                &&& self.entries@[i].0@ == kw
                &&& self.entries@[i].1@[j]@ == slug
            };
        assert((self.entries@[i]).0@ == kw);
    }

    /// An empty index.
    pub fn new() -> (r: Keywords)
        ensures
            r.wf(),
            forall|kw: Seq<char>| !r.has_phrase(kw),
            forall|kw: Seq<char>, s: Seq<char>| !r.owns(kw, s),
            r.count() == 0,
    {
        Keywords { entries: Vec::new() }
    }

    /// How many distinct phrases the index holds.
    pub closed spec fn count(self) -> nat {
        self.entries@.len()
    }

    /// How many distinct phrases the index holds.
    pub fn len(&self) -> (r: usize)
        ensures
            r == self.count(),
    {
        self.entries.len()
    }

    /// The position of the entry for `key`, if the phrase is present.
    fn find_idx(&self, key: &String) -> (r: Option<usize>)
        ensures
            match r {
                Some(i) => 0 <= i < self.entries@.len() && self.entries@[i as int].0@ == key@,
                None => forall|i: int|
                    0 <= i < self.entries@.len() ==> (#[trigger] self.entries@[i]).0@ != key@,
            },
    {
        let mut idx: usize = 0;
        while idx < self.entries.len()
            invariant
                0 <= idx <= self.entries@.len(),
                forall|i: int| 0 <= i < idx ==> (#[trigger] self.entries@[i]).0@ != key@,
            decreases self.entries@.len() - idx,
        {
            if self.entries[idx].0 == *key {
                return Some(idx);
            }
            idx = idx + 1;
        }
        None
    }

    /// Record that the document `slug` declares the phrase `low`.
    fn insert_one(&mut self, low: String, slug: &String)
        requires
            old(self).wf(),
        ensures
            final(self).wf(),
            forall|k: Seq<char>, s: Seq<char>|
                final(self).owns(k, s) <==> old(self).owns(k, s) || (k == low@ && s == slug@),
            forall|k: Seq<char>|
                final(self).has_phrase(k) <==> old(self).has_phrase(k) || k == low@,
            old(self).count() <= final(self).count() <= old(self).count() + 1,
    {
        let ghost pre = self.entries@;
        match self.find_idx(&low) {
            Some(i) => {
                let mut e = self.entries.remove(i);
                let ghost oldlist = e.1@;
                let present = contains_string(&e.1, slug);
                if !present {
                    e.1.push(slug.clone());
                }
                self.entries.insert(i, e);
                let ghost post = self.entries@;
                proof {
                    if present {
                        assert(post =~= pre);
                        assert(entries_own(pre, low@, slug@)) by {
                            let p = choose|p: int| 0 <= p < oldlist.len() && oldlist[p]@ == slug@;
                            assert(pre[i as int].1@[p]@ == slug@);
                        }
                        assert(forall|k: Seq<char>, s: Seq<char>|
                            entries_own(post, k, s) <==> entries_own(pre, k, s) || (k == low@ && s
                                == slug@));
                    } else {
                        let ii = i as int;
                        assert(post =~= pre.update(ii, (pre[ii].0, e.1)));
                        lemma_append_to_entry(pre, post, ii, slug@);
                    }
                }
            },
            None => {
                let mut slugs: Vec<String> = Vec::new();
                slugs.push(slug.clone());
                self.entries.push((low, slugs));
                let ghost post = self.entries@;
                proof {
                    let m = pre.len() as int;
                    assert(post[m].1@[0]@ == slug@);
                    assert(forall|i: int| 0 <= i < m ==> post[i] == pre[i]);
                    assert(entries_wf(post)) by {
                        assert forall|a: int, x: int, y: int|
                            0 <= a < post.len() && 0 <= x < y < post[a].1@.len() implies (
                        #[trigger] post[a].1@[x])@ != (#[trigger] post[a].1@[y])@ by {
                            if a < m {
                                assert(pre[a].1@[x] == post[a].1@[x]);
                                assert(pre[a].1@[y] == post[a].1@[y]);
                            }
                        }
                    }
                    assert forall|k: Seq<char>, s: Seq<char>|
                        entries_own(post, k, s) <==> entries_own(pre, k, s) || (k == low@ && s
                            == slug@) by {
                        if entries_own(post, k, s) {
                            let (a, b) = choose|a: int, b: int|
                                #![trigger post[a].1@[b]]
                                {
                                    &&& 0 <= a < post.len()
                                    &&& 0 <= b < post[a].1@.len()
                                    &&& post[a].0@ == k
                                    &&& post[a].1@[b]@ == s
                                };
                            if a < m {
                                assert(pre[a].1@[b]@ == s);
                            } else {
                                assert(b == 0);
                            }
                        }
                        if entries_own(pre, k, s) {
                            let (a, b) = choose|a: int, b: int|
                                #![trigger pre[a].1@[b]]
                                {
                                    &&& 0 <= a < pre.len()
                                    &&& 0 <= b < pre[a].1@.len()
                                    &&& pre[a].0@ == k
                                    &&& pre[a].1@[b]@ == s
                                };
                            assert(post[a].1@[b]@ == s);
                        }
                        if k == low@ && s == slug@ {
                            assert(post[m].1@[0]@ == s);
                        }
                    }
                    assert forall|k: Seq<char>|
                        entries_has(post, k) <==> entries_has(pre, k) || k == low@ by {
                        if entries_has(post, k) {
                            let a = choose|a: int|
                                0 <= a < post.len() && (#[trigger] post[a]).0@ == k;
                            if a < m {
                                assert(pre[a].0@ == k);
                            }
                        }
                        if entries_has(pre, k) {
                            let a = choose|a: int| 0 <= a < pre.len() && (#[trigger] pre[a]).0@ == k;
                            assert(post[a].0@ == k);
                        }
                        assert(post[m].0@ == low@);
                    }
                }
            },
        }
    }

    /// Declare every phrase of `keywords`, lowercased, as owned by the
    /// trimmed `slug`.
    pub fn insert(&mut self, slug: &str, keywords: &Vec<String>)
        requires
            old(self).wf(),
        ensures
            final(self).wf(),
            forall|k: Seq<char>, s: Seq<char>|
                final(self).owns(k, s) <==> old(self).owns(k, s) || (exists|j: int|
                    0 <= j < keywords@.len() && k == lower_of(#[trigger] keywords@[j]@) && s
                        == spec_trim(slug@)),
            forall|k: Seq<char>|
                final(self).has_phrase(k) <==> old(self).has_phrase(k) || (exists|j: int|
                    0 <= j < keywords@.len() && k == lower_of(#[trigger] keywords@[j]@)),
            old(self).count() <= final(self).count() <= old(self).count() + keywords@.len(),
    {
        let trimmed: String = trim(slug).to_owned();
        let mut j: usize = 0;
        while j < keywords.len()
            invariant
                self.wf(),
                trimmed@ == spec_trim(slug@),
                0 <= j <= keywords@.len(),
                old(self).count() <= self.count() <= old(self).count() + j,
                forall|k: Seq<char>, s: Seq<char>|
                    self.owns(k, s) <==> old(self).owns(k, s) || (exists|q: int|
                        0 <= q < j && k == lower_of(#[trigger] keywords@[q]@) && s == spec_trim(
                            slug@,
                        )),
                forall|k: Seq<char>|
                    self.has_phrase(k) <==> old(self).has_phrase(k) || (exists|q: int|
                        0 <= q < j && k == lower_of(#[trigger] keywords@[q]@)),
            decreases keywords@.len() - j,
        {
            let low = lowercase(keywords[j].as_str());
            self.insert_one(low, &trimmed);
            j = j + 1;
        }
    }

    /// `v` lists, without repetition, exactly the slugs that declare `kw`.
    pub open spec fn lists_owners(self, kw: Seq<char>, v: Seq<String>) -> bool {
        &&& forall|s: Seq<char>|
            self.owns(kw, s) <==> (exists|j: int| 0 <= j < v.len() && (#[trigger] v[j])@ == s)
        &&& forall|a: int, b: int| 0 <= a < b < v.len() ==> (#[trigger] v[a])@ != (#[trigger] v[b])@
    }

    /// The slugs that declare an already-normalized phrase, or nothing when
    /// no document declares it.
    pub fn get(&self, keyword: &str) -> (r: Option<&Vec<String>>)
        requires
            self.wf(),
        ensures
            r.is_some() <==> self.has_phrase(keyword@),
            r is Some ==> self.lists_owners(keyword@, (r->0)@),
    {
        let key: String = keyword.to_owned();
        match self.find_idx(&key) {
            Some(i) => {
                let v = &self.entries[i].1;
                proof {
                    let es = self.entries@;
                    let ii = i as int;
                    assert forall|s: Seq<char>|
                        self.owns(keyword@, s) <==> (exists|j: int|
                            0 <= j < v@.len() && (#[trigger] v@[j])@ == s) by {
                        if self.owns(keyword@, s) {
                            let (a, b) = choose|a: int, b: int|
                                #![trigger es[a].1@[b]]
                                {
                                    &&& 0 <= a < es.len()
                                    &&& 0 <= b < es[a].1@.len()
                                    &&& es[a].0@ == keyword@
                                    &&& es[a].1@[b]@ == s
                                };
                            assert(a == ii);
                            assert(v@[b]@ == s);
                        }
                        if exists|j: int| 0 <= j < v@.len() && (#[trigger] v@[j])@ == s {
                            let j = choose|j: int| 0 <= j < v@.len() && (#[trigger] v@[j])@ == s;
                            assert(es[ii].1@[j]@ == s);
                        }
                    }
                    assert forall|a: int, b: int| 0 <= a < b < v@.len() implies (
                    #[trigger] v@[a])@ != (#[trigger] v@[b])@ by {
                        assert(es[ii].1@[a]@ != es[ii].1@[b]@);
                    }
                    assert(self.lists_owners(keyword@, v@));
                }
                Some(v)
            },
            None => {
                proof {
                    if self.has_phrase(keyword@) {
                        let i = choose|i: int|
                            0 <= i < self.entries@.len() && (#[trigger] self.entries@[i]).0@
                                == keyword@;
                    }
                }
                None
            },
        }
    }
}

/// Whether some element of `v` has the same characters as `x`.
pub fn contains_string(v: &Vec<String>, x: &String) -> (r: bool)
    ensures
        r <==> exists|j: int| 0 <= j < v@.len() && (#[trigger] v@[j])@ == x@,
{
    let mut j: usize = 0;
    while j < v.len()
        invariant
            0 <= j <= v@.len(),
            forall|q: int| 0 <= q < j ==> (#[trigger] v@[q])@ != x@,
        decreases v@.len() - j,
    {
        if v[j] == *x {
            return true;
        }
        j = j + 1;
    }
    false
}

/// Appending a slug that an entry's list did not hold changes ownership by
/// exactly that one pair and leaves the recorded phrases as they were.
proof fn lemma_append_to_entry(
    pre: Seq<(String, Vec<String>)>,
    post: Seq<(String, Vec<String>)>,
    i: int,
    slug: Seq<char>,
)
    requires
        entries_wf(pre),
        0 <= i < pre.len(),
        post.len() == pre.len(),
        forall|q: int| 0 <= q < pre.len() && q != i ==> post[q] == (#[trigger] pre[q]),
        post[i].0@ == pre[i].0@,
        post[i].1@.len() == pre[i].1@.len() + 1,
        forall|p: int| 0 <= p < pre[i].1@.len() ==> post[i].1@[p] == (#[trigger] pre[i].1@[p]),
        post[i].1@.last()@ == slug,
        forall|p: int| 0 <= p < pre[i].1@.len() ==> (#[trigger] pre[i].1@[p])@ != slug,
    ensures
        entries_wf(post),
        forall|k: Seq<char>, s: Seq<char>|
            entries_own(post, k, s) <==> entries_own(pre, k, s) || (k == pre[i].0@ && s == slug),
        forall|k: Seq<char>| entries_has(post, k) <==> entries_has(pre, k),
{
    let oldlen = pre[i].1@.len() as int;
    assert(forall|q: int| 0 <= q < post.len() ==> (#[trigger] post[q]).0@ == pre[q].0@);
    assert(entries_wf(post)) by {
        assert forall|a: int, x: int, y: int|
            0 <= a < post.len() && 0 <= x < y < post[a].1@.len() implies (
        #[trigger] post[a].1@[x])@ != (#[trigger] post[a].1@[y])@ by {
            if a == i {
                if y < oldlen {
                    assert(pre[a].1@[x] == post[a].1@[x]);
                    assert(pre[a].1@[y] == post[a].1@[y]);
                } else {
                    assert(post[a].1@[y]@ == slug);
                    assert(pre[a].1@[x] == post[a].1@[x]);
                }
            } else {
                assert(pre[a].1@[x] == post[a].1@[x]);
                assert(pre[a].1@[y] == post[a].1@[y]);
            }
        }
    }
    assert forall|k: Seq<char>, s: Seq<char>|
        entries_own(post, k, s) <==> entries_own(pre, k, s) || (k == pre[i].0@ && s == slug) by {
        if entries_own(post, k, s) {
            let (a, b) = choose|a: int, b: int|
                #![trigger post[a].1@[b]]
                {
                    &&& 0 <= a < post.len()
                    &&& 0 <= b < post[a].1@.len()
                    &&& post[a].0@ == k
                    &&& post[a].1@[b]@ == s
                };
            if a == i && b == oldlen {
                assert(s == slug && k == pre[i].0@);
            } else if a == i {
                assert(pre[a].1@[b] == post[a].1@[b]);
                assert(entries_own(pre, k, s));
            } else {
                assert(pre[a].1@[b] == post[a].1@[b]);
                assert(entries_own(pre, k, s));
            }
        }
        if entries_own(pre, k, s) {
            let (a, b) = choose|a: int, b: int|
                #![trigger pre[a].1@[b]]
                {
                    &&& 0 <= a < pre.len()
                    &&& 0 <= b < pre[a].1@.len()
                    &&& pre[a].0@ == k
                    &&& pre[a].1@[b]@ == s
                };
            assert(post[a].1@[b] == pre[a].1@[b]);
            assert(entries_own(post, k, s));
        }
        if k == pre[i].0@ && s == slug {
            assert(post[i].1@[oldlen]@ == s);
            assert(entries_own(post, k, s));
        }
    }
    assert forall|k: Seq<char>| entries_has(post, k) <==> entries_has(pre, k) by {
        if entries_has(post, k) {
            let a = choose|a: int| 0 <= a < post.len() && (#[trigger] post[a]).0@ == k;
            assert(pre[a].0@ == k);
        }
        if entries_has(pre, k) {
            let a = choose|a: int| 0 <= a < pre.len() && (#[trigger] pre[a]).0@ == k;
            assert(post[a].0@ == k);
        }
    }
}

} // verus!
