//! What a registered engine declares of itself.

use crate::api::ClientSecret;
use crate::api::EngineId;
use crate::api::LichessVariant;
use crate::api::rule_set;
use crate::api::ProviderSecret;
use crate::api::UserId;
use crate::rules::Variant;
use vstd::prelude::*;

verus! {

/// The registration of an engine: who owns it, the secrets that open it,
/// and the limits of what it may be asked to do.
#[derive(Debug, Clone)]
pub struct ExternalEngine {
    pub id: EngineId,
    pub name: String,
    pub client_secret: ClientSecret,
    pub user_id: UserId,
    pub max_threads: u32,
    pub max_hash: u32,
    pub variants: Vec<LichessVariant>,
    pub provider_secret: ProviderSecret,
    pub provider_data: Option<String>,
}

/// A registration as a mathematical value.
pub struct EngineView {
    pub id: Seq<char>,
    pub name: Seq<char>,
    pub client_secret: Seq<char>,
    pub user_id: Seq<char>,
    pub max_threads: u32,
    pub max_hash: u32,
    pub variants: Seq<LichessVariant>,
    pub provider_secret: Seq<char>,
    pub provider_data: Option<Seq<char>>,
}

impl EngineView {
    /// Whether one of the declared variants is played under `variant`.
    pub open spec fn supports(self, variant: Variant) -> bool {
        exists|i: int|
            0 <= i < self.variants.len() && rule_set(#[trigger] self.variants[i]) == variant
    }
}

impl View for ExternalEngine {
    type V = EngineView;

    open spec fn view(&self) -> EngineView {
        EngineView {
            id: self.id@,
            name: self.name@,
            client_secret: self.client_secret@,
            user_id: self.user_id@,
            max_threads: self.max_threads,
            max_hash: self.max_hash,
            variants: self.variants@,
            provider_secret: self.provider_secret@,
            provider_data: match self.provider_data {
                Some(data) => Some(data@),
                None => None,
            },
        }
    }
}

impl ExternalEngine {
    /// Whether the engine declares a variant that is played under
    /// `variant`.
    pub fn supports(&self, variant: Variant) -> (b: bool)
        ensures
            b == self@.supports(variant),
    {
        let mut i: usize = 0;
        while i < self.variants.len()
            invariant
                i <= self.variants.len(),
                forall|j: int|
                    0 <= j < i ==> rule_set(#[trigger] self.variants@[j]) != variant,
            decreases self.variants.len() - i,
        {
            if Variant::from(self.variants[i]) == variant {
                return true;
            }
            i += 1;
        }
        false
    }
}

} // verus!
