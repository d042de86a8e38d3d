use vstd::prelude::*;

use crate::front_matter::body_part;
use crate::front_matter::fm_part;
use crate::front_matter::has_front_matter;
use crate::front_matter::is_front_matter_split;
use crate::front_matter::split_front_matter;
use crate::text::spec_trim;
use crate::text::trim;

verus! {

/// Why a document could not be read.
#[derive(Debug, Clone, Copy, PartialEq, Eq, Structural)]
pub enum Error {
    /// The input has no front-matter delimiter block.
    MissingFrontMatter,
    /// The block is present but does not decode to a slug and a keyword list.
    FrontMatterMismatch,
}

impl Error {
    /// A short description of the error.
    pub fn message(&self) -> (r: &'static str)
        ensures
            *self == Error::MissingFrontMatter ==> r@ == "missing front matter"@,
            *self == Error::FrontMatterMismatch ==> r@
                == "front matter does not have slug or keywords list"@,
    {
        proof {
            reveal_strlit("missing front matter");
            reveal_strlit("front matter does not have slug or keywords list");
        }
        match self {
            Error::MissingFrontMatter => "missing front matter",
            Error::FrontMatterMismatch => "front matter does not have slug or keywords list",
        }
    }
}

/// The decoded metadata of a document: its slug and its declared keywords.
#[derive(Debug)]
pub struct FrontMatter {
    pub slug: String,
    pub keywords: Vec<String>,
}

/// A parsed document: decoded metadata, the raw front-matter text, and the
/// body.
#[derive(Debug)]
pub struct Document {
    pub front_matter: FrontMatter,
    pub front_matter_all: String,
    pub document: String,
}

/// Whether the front-matter decoder accepts the block: the text is valid
/// YAML whose mapping holds a string under `slug` and a list of strings
/// under `keywords`. The outcome depends on the block's characters alone.
pub uninterp spec fn fm_decodes(s: Seq<char>) -> bool;

/// The slug the front-matter decoder reads from the block.
pub uninterp spec fn fm_slug_of(s: Seq<char>) -> Seq<char>;

/// The keyword list the front-matter decoder reads from the block.
pub uninterp spec fn fm_keywords_of(s: Seq<char>) -> Seq<Seq<char>>;

/// Relies on serde_yaml::from_str and serde_yaml::Value's accessors `get`,
/// `as_str` and `as_sequence`: decodes a YAML mapping and moves out its
/// `slug` string and its `keywords` strings. The result is a function of
/// the block's characters alone; its parts are named `fm_decodes`,
/// `fm_slug_of` and `fm_keywords_of`.
#[verifier::external_body]
fn decode_front_matter(s: &str) -> (r: Option<(String, Vec<String>)>)
    ensures
        r is Some <==> fm_decodes(s@),
        r is Some ==> (r->0).0@ == fm_slug_of(s@),
        r is Some ==> (r->0).1.deep_view() == fm_keywords_of(s@),
{
    let v: serde_yaml::Value = serde_yaml::from_str(s).ok()?;
    let slug = v.get("slug")?.as_str()?.to_owned();
    let mut keywords = Vec::new();
    for item in v.get("keywords")?.as_sequence()? {
        keywords.push(item.as_str()?.to_owned());
    }
    Some((slug, keywords))
}

impl FrontMatter {
    /// Decode a front-matter block: a YAML mapping with a string under
    /// `slug` and a list of strings under `keywords`.
    fn parse(content: &str) -> (r: Result<FrontMatter, Error>)
        ensures
            r is Ok <==> fm_decodes(content@),
            r is Err ==> r == Err::<FrontMatter, Error>(Error::FrontMatterMismatch),
            r is Ok ==> (r->Ok_0).slug@ == fm_slug_of(content@),
            r is Ok ==> (r->Ok_0).keywords.deep_view() == fm_keywords_of(content@),
    {
        match decode_front_matter(content) {
            Some((slug, keywords)) => Ok(FrontMatter { slug, keywords }),
            None => Err(Error::FrontMatterMismatch),
        }
    }
}

impl Document {
    /// Split the input at its front-matter delimiters and decode the block.
    ///
    /// Success holds exactly when the delimiter pair is present and the
    /// block between the delimiters decodes; the raw front-matter text and
    /// the body are then the exact parts around the first closing
    /// delimiter, and the decoded slug and keywords are the block's named
    /// decode results.
    pub fn parse(content: &str) -> (r: Result<Document, Error>)
        ensures
            (r == Err::<Document, Error>(Error::MissingFrontMatter)) <==> !has_front_matter(
                content@,
            ),
            (r == Err::<Document, Error>(Error::FrontMatterMismatch)) <==> (has_front_matter(
                content@,
            ) && !fm_decodes(fm_part(content@))),
            r is Ok <==> (has_front_matter(content@) && fm_decodes(fm_part(content@))),
            r is Ok ==> is_front_matter_split(
                content@,
                (r->Ok_0).front_matter_all@,
                (r->Ok_0).document@,
            ),
            r is Ok ==> (r->Ok_0).front_matter_all@ == fm_part(content@),
            r is Ok ==> (r->Ok_0).document@ == body_part(content@),
            r is Ok ==> (r->Ok_0).front_matter.slug@ == fm_slug_of(fm_part(content@)),
            r is Ok ==> (r->Ok_0).front_matter.keywords.deep_view() == fm_keywords_of(
                fm_part(content@),
            ),
    {
        let (fm, md) = match split_front_matter(content) {
            Some(parts) => parts,
            None => {
                return Err(Error::MissingFrontMatter);
            },
        };
        let front_matter = match FrontMatter::parse(fm) {
            Ok(f) => f,
            Err(e) => {
                return Err(e);
            },
        };
        Ok(Document { front_matter, front_matter_all: fm.to_owned(), document: md.to_owned() })
    }
}

/// Reassemble an updated document: the trimmed front-matter text between
/// two delimiter lines, followed by the rendered body.
pub fn assemble_output(front_matter_all: &str, body: &str) -> (r: String)
    ensures
        r@ == "---\n"@ + spec_trim(front_matter_all@) + "\n---\n"@ + body@,
{
    let mut out = String::from_str("---\n");
    out.append(trim(front_matter_all));
    out.append("\n---\n");
    out.append(body);
    out
}

} // verus!
