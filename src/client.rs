//! What the dictionary client computes around its network call: the request
//! URL for a term, and the cleaning of the records that come back.
use vstd::prelude::*;
use crate::rank::{Meaning, MeaningView, meaning_views};
use crate::sanitize::{sanitize, sanitized};

verus! {

broadcast use vstd::std_specs::vec::axiom_spec_into_iter;

/// The lookup endpoint; the percent-encoded term follows it.
pub const LOOKUP_ENDPOINT: &'static str = "https://api.urbandictionary.com/v0/define?term=";

/// What `urlencoding::encode` makes of a text.
pub uninterp spec fn percent_encoded(s: Seq<char>) -> Seq<char>;

/// The characters that percent-encoding leaves as they are.
pub open spec fn is_unreserved(c: char) -> bool {
    ('0' <= c && c <= '9') || ('A' <= c && c <= 'Z') || ('a' <= c && c <= 'z') || c == '-'
        || c == '.' || c == '_' || c == '~'
}

/// Relies on `urlencoding::encode`: every byte of the UTF-8 text but the
/// unreserved ones becomes `%` and two hex digits, so the result holds only
/// unreserved characters and `%`, and a text of unreserved characters comes
/// back as it was.
#[verifier::external_body]
fn encode_term(s: &str) -> (r: String)
    ensures
        r@ == percent_encoded(s@),
        forall|i: int| 0 <= i < r@.len() ==> is_unreserved(#[trigger] r@[i]) || r@[i] == '%',
        (forall|i: int| 0 <= i < s@.len() ==> is_unreserved(#[trigger] s@[i])) ==> r@ == s@,
{
    urlencoding::encode(s).into_owned()
}

/// The lookup URL for a term that is already percent-encoded.
pub fn lookup_url_for(encoded: &str) -> (r: String)
    ensures
        r@ == LOOKUP_ENDPOINT@ + encoded@,
{
    let mut url = String::from_str(LOOKUP_ENDPOINT);
    url.append(encoded);
    url
}

/// The lookup URL for a term: the endpoint, then the term percent-encoded as
/// its one `term` parameter.
pub fn lookup_url(term: &str) -> (r: String)
    ensures
        r@ == LOOKUP_ENDPOINT@ + percent_encoded(term@),
        forall|i: int|
            LOOKUP_ENDPOINT@.len() <= i < r@.len() ==> is_unreserved(#[trigger] r@[i]) || r@[i]
                == '%',
{
    let encoded = encode_term(term);
    let r = lookup_url_for(encoded.as_str());
    proof {
        assert forall|i: int| LOOKUP_ENDPOINT@.len() <= i < r@.len() implies is_unreserved(
            #[trigger] r@[i],
        ) || r@[i] == '%' by {
            assert(r@[i] == encoded@[i - LOOKUP_ENDPOINT@.len()]);
        }
    }
    r
}

/// A lookup that could not be completed: the request failed, the service
/// answered with an error, or its answer did not have the expected shape.
pub struct FetchError {
    pub cause: String,
}

/// The part of the service's answer that the plugin uses.
pub struct DictionaryApiResponse {
    pub list: Vec<Meaning>,
}

/// A record with its definition and example sanitized.
pub open spec fn cleaned(m: MeaningView) -> MeaningView {
    MeaningView {
        definition: sanitized(m.definition),
        example: sanitized(m.example),
        thumbs_up: m.thumbs_up,
        thumbs_down: m.thumbs_down,
    }
}

impl DictionaryApiResponse {
    /// The response with the definition and example of every record sanitized,
    /// records and their order otherwise unchanged.
    pub fn sanitized(self) -> (r: DictionaryApiResponse)
        ensures
            meaning_views(r.list@) == meaning_views(self.list@).map_values(
                |m: MeaningView| cleaned(m),
            ),
    {
        let ghost src = self.list@;
        let mut out: Vec<Meaning> = Vec::new();
        for m in it: self.list.into_iter()
            invariant
                it.seq() == src,
                meaning_views(out@) == meaning_views(src.take(it.index() as int)).map_values(
                    |v: MeaningView| cleaned(v),
                ),
        {
            let ghost i = it.index() as int;
            let ghost prev = out@;
            proof {
                assert(src[i] == m);
            }
            let c = Meaning {
                definition: sanitize(m.definition.as_str()),
                example: sanitize(m.example.as_str()),
                thumbs_up: m.thumbs_up,
                thumbs_down: m.thumbs_down,
            };
            out.push(c);
            proof {
                assert(meaning_views(out@) =~= meaning_views(prev).push(c@));
                assert(meaning_views(src.take(i + 1)) =~= meaning_views(src.take(i)).push(
                    src[i]@,
                ));
                assert(meaning_views(src.take(i + 1)).map_values(|v: MeaningView| cleaned(v))
                    =~= meaning_views(src.take(i)).map_values(|v: MeaningView| cleaned(v)).push(
                    cleaned(src[i]@),
                ));
            }
        }
        proof {
            assert(src.take(src.len() as int) =~= src);
        }
        DictionaryApiResponse { list: out }
    }
}

} // verus!
