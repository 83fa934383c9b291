//! A prompt-bearing unit whose state is the prompt itself, bounded to a
//! maximum length in characters.

use vstd::prelude::*;
use vstd::string::StrSliceExecFns;

verus! {

/// A unit holding a prompt of at most `max_size` characters; the prompt is
/// truncated to that bound whenever it is read or replaced.
pub struct CognitiveSubstrateUnit {
    prompt: String,
    pub max_size: u64,
}

/// Mathematical model of a [`CognitiveSubstrateUnit`].
pub ghost struct SubstrateModel {
    pub prompt: Seq<char>,
    pub max_size: u64,
}

impl View for CognitiveSubstrateUnit {
    type V = SubstrateModel;

    closed spec fn view(&self) -> SubstrateModel {
        SubstrateModel { prompt: self.prompt@, max_size: self.max_size }
    }
}

/// The first `max_size` characters of a prompt, the whole prompt when it
/// is already within the bound.
pub open spec fn truncated(prompt: Seq<char>, max_size: u64) -> Seq<char> {
    if prompt.len() <= (max_size as usize) {
        prompt
    } else {
        prompt.take((max_size as usize) as int)
    }
}

impl CognitiveSubstrateUnit {
    pub fn new(prompt: String, max_size: u64) -> (r: Self)
        ensures
            r@.prompt == prompt@,
            r@.max_size == max_size,
    {
        CognitiveSubstrateUnit { prompt, max_size }
    }

    /// The prompt, truncated to the size bound.
    pub fn get_prompt(&self) -> (r: String)
        ensures
            r@ == truncated(self@.prompt, self@.max_size),
    {
        let len = self.prompt.as_str().unicode_len();
        let cap = self.max_size as usize;
        let upto = if len <= cap {
            len
        } else {
            cap
        };
        let r = self.prompt.as_str().substring_char(0, upto).to_owned();
        proof {
            assert(r@ =~= truncated(self@.prompt, self@.max_size));
        }
        r
    }

    /// Replaces the prompt, truncating the new text to the size bound.
    pub fn update_prompt(&mut self, new_prompt: String)
        ensures
            final(self)@.prompt == truncated(new_prompt@, old(self)@.max_size),
            final(self)@.max_size == old(self)@.max_size,
    {
        let len = new_prompt.as_str().unicode_len();
        let cap = self.max_size as usize;
        let upto = if len <= cap {
            len
        } else {
            cap
        };
        let truncated_prompt = new_prompt.as_str().substring_char(0, upto).to_owned();
        proof {
            assert(truncated_prompt@ =~= truncated(new_prompt@, self@.max_size));
        }
        self.prompt = truncated_prompt;
    }
}

} // verus!
