//! Embedder selection. The engine sees an embedder only through its
//! declared dimension and through vectors handed in by the caller; the
//! HTTP provider that actually computes embeddings does network I/O and
//! lives outside the library. Here stand the null provider, which never
//! embeds anything, and the selection of a provider description from
//! configuration.

use vstd::prelude::*;

verus! {

use vstd::string::StringExecFns;
use vstd::string::StrSliceExecFns;

/// The null provider: no name to speak of, dimension zero, and an empty
/// answer to every batch.
pub struct NoopEmbedding;

impl NoopEmbedding {
    /// The provider's name.
    pub fn name(&self) -> (r: &'static str)
        ensures
            r@ == "none"@,
    {
        "none"
    }

    /// The declared dimension: zero, signalling "no embeddings".
    pub fn dimensions(&self) -> (r: usize)
        ensures
            r == 0,
    {
        0
    }

    /// Embed a batch of texts: always the empty answer.
    pub fn embed(&self, _texts: &Vec<String>) -> (r: Vec<Vec<i32>>)
        ensures
            r@.len() == 0,
    {
        Vec::new()
    }
}

/// A provider description chosen from configuration. The engine stores
/// only the dimension; the caller runs the wire protocol.
pub enum EmbedderKind {
    /// No embedder: recall degrades to keyword-only ranking.
    Null,
    /// An OpenAI-compatible HTTP endpoint.
    OpenAi { base_url: String, api_key: String, model: String, dims: usize },
}

/// What the provider tag selects: `"openai"` the hosted endpoint,
/// `"custom:<url>"` a compatible endpoint at that base, anything else
/// the null provider.
pub open spec fn selects(
    provider: Seq<char>,
    api_key: Option<Seq<char>>,
    model: Seq<char>,
    dims: usize,
    r: EmbedderKind,
) -> bool {
    let key = match api_key {
        Some(k) => k,
        None => Seq::<char>::empty(),
    };
    if provider == "openai"@ {
        r matches EmbedderKind::OpenAi { base_url, api_key: k, model: m, dims: d } && base_url@
            == "https://api.openai.com/v1"@ && k@ == key && m@ == model && d == dims
    } else if provider.len() >= 7 && provider.take(7) == "custom:"@ {
        r matches EmbedderKind::OpenAi { base_url, api_key: k, model: m, dims: d } && base_url@
            == provider.skip(7) && k@ == key && m@ == model && d == dims
    } else {
        r is Null
    }
}

/// Create an embedder description from configuration.
pub fn create_provider(provider: &str, api_key: Option<&str>, model: &str, dims: usize) -> (r:
    EmbedderKind)
    ensures
        selects(
            provider@,
            match api_key {
                Some(k) => Some(k@),
                None => None,
            },
            model@,
            dims,
            r,
        ),
{
    let key: String = match api_key {
        Some(k) => String::from_str(k),
        None => String::new(),
    };
    if crate::text::str_eq(provider, "openai") {
        EmbedderKind::OpenAi {
            base_url: String::from_str("https://api.openai.com/v1"),
            api_key: key,
            model: String::from_str(model),
            dims,
        }
    } else {
        let n: usize = provider.unicode_len();
        if n >= 7 {
            let prefix: &str = provider.substring_char(0, 7);
            if crate::text::str_eq(prefix, "custom:") {
                let base: &str = provider.substring_char(7, n);
                proof {
                    assert(base@ =~~= provider@.skip(7));
                }
                return EmbedderKind::OpenAi {
                    base_url: base.to_owned(),
                    api_key: key,
                    model: String::from_str(model),
                    dims,
                };
            }
            proof {
                assert(provider@.take(7) =~~= prefix@);
            }
            return EmbedderKind::Null;
        }
        EmbedderKind::Null
    }
}

} // verus!
