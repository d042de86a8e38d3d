use vstd::prelude::*;

use crate::document::Document;
use crate::document::Error;
use crate::document::fm_decodes;
use crate::document::fm_keywords_of;
use crate::document::fm_slug_of;
use crate::front_matter::fm_part;
use crate::front_matter::has_front_matter;
use crate::keyword::Keywords;
use crate::text::lower_of;
use crate::text::spec_trim;

verus! {

/// `post` extends `pre` by exactly the pairs that declare each lowercased
/// phrase of `kws` as owned by the trimmed `slug`, and by nothing else.
pub open spec fn keywords_added(
    pre: Keywords,
    post: Keywords,
    slug: Seq<char>,
    kws: Seq<Seq<char>>,
) -> bool {
    &&& forall|k: Seq<char>, s: Seq<char>|
        post.owns(k, s) <==> pre.owns(k, s) || (exists|j: int|
            0 <= j < kws.len() && k == lower_of(#[trigger] kws[j]) && s == spec_trim(slug))
    &&& forall|k: Seq<char>|
        post.has_phrase(k) <==> pre.has_phrase(k) || (exists|j: int|
            0 <= j < kws.len() && k == lower_of(#[trigger] kws[j]))
}

/// Read one document's metadata and record its declared keywords in the
/// index: on success the index grows by exactly the document's lowercased
/// keywords, owned by its trimmed slug. A document that cannot be read
/// leaves the index as it was and returns the parse error.
pub fn index_content(keywords: &mut Keywords, content: &str) -> (r: Result<(), Error>)
    requires
        old(keywords).wf(),
    ensures
        final(keywords).wf(),
        r is Ok <==> (has_front_matter(content@) && fm_decodes(fm_part(content@))),
        r is Err ==> *final(keywords) == *old(keywords),
        (r == Err::<(), Error>(Error::MissingFrontMatter)) <==> !has_front_matter(content@),
        (r == Err::<(), Error>(Error::FrontMatterMismatch)) <==> (has_front_matter(content@)
            && !fm_decodes(fm_part(content@))),
        r is Ok ==> keywords_added(
            *old(keywords),
            *final(keywords),
            fm_slug_of(fm_part(content@)),
            fm_keywords_of(fm_part(content@)),
        ),
{
    let doc = match Document::parse(content) {
        Ok(d) => d,
        Err(e) => {
            return Err(e);
        },
    };
    keywords.insert(doc.front_matter.slug.as_str(), &doc.front_matter.keywords);
    proof {
        let slug = fm_slug_of(fm_part(content@));
        let kd = fm_keywords_of(fm_part(content@));
        let kv = doc.front_matter.keywords@;
        assert(doc.front_matter.keywords.deep_view() == kd);
        assert(kd.len() == kv.len());
        assert(forall|j: int| 0 <= j < kv.len() ==> #[trigger] kd[j] == kv[j]@);
        assert(doc.front_matter.slug@ == slug);
        assert forall|k: Seq<char>, s: Seq<char>|
            keywords.owns(k, s) <==> old(keywords).owns(k, s) || (exists|j: int|
                0 <= j < kd.len() && k == lower_of(#[trigger] kd[j]) && s == spec_trim(
                    slug,
                )) by {
            if exists|j: int|
                0 <= j < kv.len() && k == lower_of((#[trigger] kv[j])@) && s == spec_trim(slug) {
                let j = choose|j: int|
                    0 <= j < kv.len() && k == lower_of((#[trigger] kv[j])@) && s == spec_trim(
                        slug,
                    );
                assert(k == lower_of(kd[j]));
            }
            if exists|j: int|
                0 <= j < kd.len() && k == lower_of(#[trigger] kd[j]) && s == spec_trim(slug) {
                let j = choose|j: int|
                    0 <= j < kd.len() && k == lower_of(#[trigger] kd[j]) && s == spec_trim(slug);
                assert(k == lower_of(kv[j]@));
            }
        }
        assert forall|k: Seq<char>|
            keywords.has_phrase(k) <==> old(keywords).has_phrase(k) || (exists|j: int|
                0 <= j < kd.len() && k == lower_of(#[trigger] kd[j])) by {
            if exists|j: int| 0 <= j < kv.len() && k == lower_of((#[trigger] kv[j])@) {
                let j = choose|j: int| 0 <= j < kv.len() && k == lower_of((#[trigger] kv[j])@);
                assert(k == lower_of(kd[j]));
            }
            if exists|j: int| 0 <= j < kd.len() && k == lower_of(#[trigger] kd[j]) {
                let j = choose|j: int| 0 <= j < kd.len() && k == lower_of(#[trigger] kd[j]);
                assert(k == lower_of(kv[j]@));
            }
        }
    }
    Ok(())
}

} // verus!
