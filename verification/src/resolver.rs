//! Resolver descriptors: the external compute endpoints a step may use.

use vstd::prelude::*;

verus! {

/// One external compute endpoint: address, credential and model identifier.
/// Pure data, immutable once loaded.
#[derive(Debug, PartialEq, Eq)]
pub struct LLMResolver {
    pub api_url: String,
    pub api_key: String,
    pub model_name: String,
}

/// Mathematical model of an [`LLMResolver`].
pub ghost struct ResolverModel {
    pub api_url: Seq<char>,
    pub api_key: Seq<char>,
    pub model_name: Seq<char>,
}

impl View for LLMResolver {
    type V = ResolverModel;

    open spec fn view(&self) -> ResolverModel {
        ResolverModel {
            api_url: self.api_url@,
            api_key: self.api_key@,
            model_name: self.model_name@,
        }
    }
}

impl DeepView for LLMResolver {
    type V = ResolverModel;

    open spec fn deep_view(&self) -> ResolverModel {
        self.view()
    }
}

impl LLMResolver {
    pub fn new(api_url: String, api_key: String, model_name: String) -> (r: Self)
        ensures
            r@ == (ResolverModel {
                api_url: api_url@,
                api_key: api_key@,
                model_name: model_name@,
            }),
    {
        LLMResolver { api_url, api_key, model_name }
    }
}

/// Why a resolver pool could not be assembled from configuration.
#[derive(Debug, PartialEq, Eq, Structural)]
pub enum ResolverConfigError {
    /// The endpoint, model and credential lists do not have the same length.
    LengthMismatch,
    /// The configuration names no resolver at all.
    EmptyPool,
}

/// Assembles a resolver pool from the parallel lists of a configuration.
/// Fails exactly when the three lists disagree in length or are empty: a
/// pool is an ordered, non-empty sequence of resolvers.
pub fn resolver_pool_from_parts(
    api_urls: Vec<String>,
    api_keys: Vec<String>,
    model_names: Vec<String>,
) -> (r: Result<Vec<LLMResolver>, ResolverConfigError>)
    ensures
        match r {
            Ok(pool) => {
                &&& api_urls@.len() == api_keys@.len()
                &&& api_keys@.len() == model_names@.len()
                &&& pool@.len() == api_urls@.len()
                &&& pool@.len() > 0
                &&& forall|i: int|
                    0 <= i < pool@.len() ==> #[trigger] pool.deep_view()[i] == (ResolverModel {
                        api_url: api_urls.deep_view()[i],
                        api_key: api_keys.deep_view()[i],
                        model_name: model_names.deep_view()[i],
                    })
            },
            Err(ResolverConfigError::LengthMismatch) => !(api_urls@.len() == api_keys@.len()
                && api_keys@.len() == model_names@.len()),
            Err(ResolverConfigError::EmptyPool) => api_urls@.len() == 0 && api_keys@.len() == 0
                && model_names@.len() == 0,
        },
{
    if api_urls.len() != api_keys.len() || api_keys.len() != model_names.len() {
        return Err(ResolverConfigError::LengthMismatch);
    }
    if api_urls.len() == 0 {
        return Err(ResolverConfigError::EmptyPool);
    }
    let n = api_urls.len();
    let mut pool: Vec<LLMResolver> = Vec::new();
    let mut i: usize = 0;
    while i < n
        invariant
            i <= n,
            api_urls@.len() == n,
            api_keys@.len() == n,
            model_names@.len() == n,
            pool@.len() == i,
            forall|j: int|
                0 <= j < i ==> #[trigger] pool.deep_view()[j] == (ResolverModel {
                    api_url: api_urls.deep_view()[j],
                    api_key: api_keys.deep_view()[j],
                    model_name: model_names.deep_view()[j],
                }),
        decreases n - i,
    {
        let resolver = LLMResolver {
            api_url: api_urls[i].clone(),
            api_key: api_keys[i].clone(),
            model_name: model_names[i].clone(),
        };
        let ghost prev = pool.deep_view();
        let ghost resolver_view = resolver@;
        pool.push(resolver);
        proof {
            assert(pool.deep_view() =~= prev.push(resolver_view));
        }
        i += 1;
    }
    Ok(pool)
}

} // verus!
