//! The rule a unit's system prompt is compiled from: a small closed
//! abstraction with a prompt-template variant and a no-op variant.

use vstd::prelude::*;

use crate::unit::clone_string_vec;

verus! {

/// A rule that can compile the system prompt handed to a resolver.
pub trait CognitiveRule {
    /// The prompt this rule stands for.
    spec fn spec_prompt(&self) -> Seq<char>;

    /// Compiles the prompt text.
    fn compile_prompt(&self) -> (r: String)
        ensures
            r@ == self.spec_prompt(),
    ;
}

/// The no-op rule: an empty prompt.
impl CognitiveRule for () {
    open spec fn spec_prompt(&self) -> Seq<char> {
        Seq::empty()
    }

    fn compile_prompt(&self) -> (r: String) {
        String::new()
    }
}

/// A rule given directly as a prompt template, with the feature names the
/// payload is built from.
pub struct MessageModelRule {
    prompt: String,
    features: Vec<String>,
}

/// Mathematical model of a [`MessageModelRule`].
pub ghost struct RuleModel {
    pub prompt: Seq<char>,
    pub features: Seq<Seq<char>>,
}

impl View for MessageModelRule {
    type V = RuleModel;

    closed spec fn view(&self) -> RuleModel {
        RuleModel { prompt: self.prompt@, features: self.features.deep_view() }
    }
}

impl MessageModelRule {
    pub fn new(prompt: String, features: Vec<String>) -> (r: Self)
        ensures
            r@.prompt == prompt@,
            r@.features == features.deep_view(),
    {
        MessageModelRule { prompt, features }
    }

    /// Adds one feature name and returns a copy of the full feature list.
    pub fn with_feature(&mut self, feature: String) -> (r: Vec<String>)
        ensures
            final(self)@.prompt == old(self)@.prompt,
            final(self)@.features == old(self)@.features.push(feature@),
            r.deep_view() == final(self)@.features,
    {
        let ghost prev = self.features.deep_view();
        let ghost feature_view = feature@;
        self.features.push(feature);
        proof {
            assert(self.features.deep_view() =~= prev.push(feature_view));
        }
        clone_string_vec(&self.features)
    }
}

impl CognitiveRule for MessageModelRule {
    open spec fn spec_prompt(&self) -> Seq<char> {
        self@.prompt
    }

    fn compile_prompt(&self) -> (r: String) {
        self.prompt.clone()
    }
}

impl Default for MessageModelRule {
    /// The stock prompt of a freshly configured rule, with the three
    /// standard feature names.
    fn default() -> (r: Self)
        ensures
            r@.prompt
                == "You're a LLM Cognitive Unit and your unique task is to respond with your next state based on the state of your neighbors in json format based on:"@,
            r@.features == seq!["rule"@, "state"@, "neighbors"@],
    {
        let prompt =
            "You're a LLM Cognitive Unit and your unique task is to respond with your next state based on the state of your neighbors in json format based on:";
        let mut features: Vec<String> = Vec::new();
        features.push("rule".to_owned());
        features.push("state".to_owned());
        features.push("neighbors".to_owned());
        proof {
            assert(features.deep_view() =~= seq!["rule"@, "state"@, "neighbors"@]);
        }
        MessageModelRule { prompt: prompt.to_owned(), features }
    }
}

} // verus!
