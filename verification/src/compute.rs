//! Computing a unit's next record from one resolver exchange: markup
//! trimming, response parsing, and the degrade-to-previous-state fallback.

use vstd::prelude::*;
use vstd::string::{StrSliceExecFns, StringExecFns};

use crate::outside::{json_pair_of, parse_unit_pair};
use crate::unit::{
    clone_string_vec, CognitiveUnitComplex, CognitiveUnitPair, CognitiveUnitWithMemory, PairModel,
    RecordModel,
};

verus! {

/// The characters stripped from both ends of a resolver response before
/// parsing: code-fence and bracket markup, newlines, and the letters of a
/// stray `json` tag.
pub open spec fn is_markup_char(c: char) -> bool {
    c == '`' || c == '[' || c == ']' || c == '\n' || c == 'j' || c == 's' || c == 'o' || c == 'n'
}

/// A response with markup characters stripped from both ends.
pub open spec fn trim_markup(s: Seq<char>) -> Seq<char>
    decreases s.len(),
{
    if s.len() == 0 {
        s
    } else if is_markup_char(s.first()) {
        trim_markup(s.drop_first())
    } else if is_markup_char(s.last()) {
        trim_markup(s.drop_last())
    } else {
        s
    }
}

/// `trim_markup` keeps exactly the middle part between the leading and
/// trailing runs of markup characters.
proof fn lemma_trim_markup_range(s: Seq<char>, lo: int, hi: int)
    requires
        0 <= lo <= hi <= s.len(),
        forall|i: int| 0 <= i < lo ==> is_markup_char(#[trigger] s[i]),
        forall|i: int| hi <= i < s.len() ==> is_markup_char(#[trigger] s[i]),
        lo < hi ==> !is_markup_char(s[lo]) && !is_markup_char(s[hi - 1]),
    ensures
        trim_markup(s) == s.subrange(lo, hi),
    decreases s.len(),
{
    if s.len() == 0 {
        assert(trim_markup(s) =~= s.subrange(lo, hi));
    } else if lo > 0 {
        assert(is_markup_char(s.first()));
        lemma_trim_markup_range(s.drop_first(), lo - 1, hi - 1);
        assert(s.drop_first().subrange(lo - 1, hi - 1) =~= s.subrange(lo, hi));
    } else if lo == hi {
        assert(is_markup_char(s.first()));
        lemma_trim_markup_range(s.drop_first(), 0, 0);
        assert(s.drop_first().subrange(0, 0) =~= s.subrange(lo, hi));
    } else if hi < s.len() {
        assert(!is_markup_char(s.first()));
        assert(is_markup_char(s.last()));
        lemma_trim_markup_range(s.drop_last(), lo, hi);
        assert(s.drop_last().subrange(lo, hi) =~= s.subrange(lo, hi));
    } else {
        assert(!is_markup_char(s.first()));
        assert(!is_markup_char(s.last()));
        assert(trim_markup(s) == s);
        assert(s.subrange(lo, hi) =~= s);
    }
}

fn markup_char(c: char) -> (b: bool)
    ensures
        b == is_markup_char(c),
{
    c == '`' || c == '[' || c == ']' || c == '\n' || c == 'j' || c == 's' || c == 'o' || c == 'n'
}

/// Strips markup characters from both ends of a response.
pub fn trim_markup_str(s: &str) -> (r: String)
    ensures
        r@ == trim_markup(s@),
{
    let len = s.unicode_len();
    let mut lo: usize = 0;
    let mut hi: usize = len;
    while lo < len && markup_char(s.get_char(lo))
        invariant
            lo <= len,
            len == s@.len(),
            forall|i: int| 0 <= i < lo ==> is_markup_char(#[trigger] s@[i]),
        decreases len - lo,
    {
        lo += 1;
    }
    while hi > lo && markup_char(s.get_char(hi - 1))
        invariant
            lo <= hi <= len,
            len == s@.len(),
            forall|i: int| hi <= i < len ==> is_markup_char(#[trigger] s@[i]),
        decreases hi,
    {
        hi -= 1;
    }
    proof {
        lemma_trim_markup_range(s@, lo as int, hi as int);
    }
    let mid = s.substring_char(lo, hi);
    mid.to_owned()
}

/// The feedback annotation written when a response could not be parsed.
pub open spec fn fallback_feedback(trimmed: Seq<char>) -> Seq<char> {
    "unparsed resolver response: `"@ + trimmed + "`"@
}

fn make_fallback_feedback(trimmed: &str) -> (r: String)
    ensures
        r@ == fallback_feedback(trimmed@),
        r@.len() > 0,
{
    let mut r = String::new();
    r.append("unparsed resolver response: `");
    r.append(trimmed);
    r.append("`");
    proof {
        reveal_strlit("unparsed resolver response: `");
        reveal_strlit("`");
        assert(r@ =~= fallback_feedback(trimmed@));
    }
    r
}

/// The default record substituted when the remote call itself failed.
pub open spec fn default_record() -> RecordModel {
    RecordModel {
        timestamp: 0,
        rule: Seq::empty(),
        state: Seq::empty(),
        neighbors: Seq::empty(),
        feedback: Seq::empty(),
    }
}

/// The record a unit writes after one resolver exchange.
///
/// - No response at all (the remote call failed): a default, empty record.
/// - A response whose trimmed text parses as a `(rule, state)` pair: a
///   record carrying that pair, the snapshotted neighbor states, and empty
///   feedback.
/// - A response that does not parse: the unit repeats the rule, state and
///   neighbor snapshots of its previous record and annotates the raw
///   trimmed response in `feedback` — computation failure degrades to a
///   no-op transition, never to an aborted step.
pub open spec fn response_record(
    prev: RecordModel,
    response: Option<Seq<char>>,
    neighbors: Seq<PairModel>,
    timestamp: u64,
) -> RecordModel {
    match response {
        Option::None => default_record(),
        Option::Some(raw) => {
            let t = trim_markup(raw);
            match json_pair_of(t) {
                Option::Some(p) => RecordModel {
                    timestamp,
                    rule: p.0,
                    state: p.1,
                    neighbors: neighbors.map_values(|q: PairModel| q.state),
                    feedback: Seq::empty(),
                },
                Option::None => RecordModel {
                    timestamp,
                    rule: prev.rule,
                    state: prev.state,
                    neighbors: prev.neighbors,
                    feedback: fallback_feedback(t),
                },
            }
        },
    }
}

/// The view of an optional borrowed response.
pub open spec fn response_view(response: Option<&String>) -> Option<Seq<char>> {
    match response {
        Option::Some(s) => Option::Some(s@),
        Option::None => Option::None,
    }
}

fn states_of_pairs(pairs: &Vec<CognitiveUnitPair>) -> (r: Vec<String>)
    ensures
        r.deep_view() == pairs.deep_view().map_values(|q: PairModel| q.state),
{
    let mut r: Vec<String> = Vec::new();
    let mut i: usize = 0;
    while i < pairs.len()
        invariant
            i <= pairs.len(),
            r.deep_view() =~= pairs.deep_view().map_values(|q: PairModel| q.state).take(i as int),
        decreases pairs.len() - i,
    {
        let ghost prev = r.deep_view();
        let x = pairs[i].state.clone();
        r.push(x);
        proof {
            assert(r.deep_view() =~= prev.push(x@));
            assert(r.deep_view() =~= pairs.deep_view().map_values(|q: PairModel| q.state).take(
                i + 1,
            ));
        }
        i += 1;
    }
    proof {
        assert(r.deep_view() =~= pairs.deep_view().map_values(|q: PairModel| q.state));
    }
    r
}

impl CognitiveUnitWithMemory {
    /// Computes the unit's next record from one resolver exchange: the raw
    /// response text (or `None` when the remote call itself failed) and the
    /// neighbor projections snapshotted for this step. Pure except for the
    /// caller-supplied timestamp; the memory is appended by the caller, so
    /// the operation is idempotent and safely retryable.
    pub fn calculate_next_complex(
        &self,
        response: Option<&String>,
        neighbors: &Vec<CognitiveUnitPair>,
        timestamp: u64,
    ) -> (r: CognitiveUnitComplex)
        requires
            self@.wf(),
        ensures
            r@ == response_record(
                self@.latest(),
                response_view(response),
                neighbors.deep_view(),
                timestamp,
            ),
    {
        match response {
            None => {
                let r = CognitiveUnitComplex::new(
                    0,
                    String::new(),
                    String::new(),
                    Vec::new(),
                    String::new(),
                );
                proof {
                    assert(r@.neighbors =~= default_record().neighbors);
                    assert(r@ == default_record());
                }
                r
            },
            Some(raw) => {
                let trimmed = trim_markup_str(raw.as_str());
                match parse_unit_pair(trimmed.as_str()) {
                    Some(pair) => CognitiveUnitComplex::new(
                        timestamp,
                        pair.rule,
                        pair.state,
                        states_of_pairs(neighbors),
                        String::new(),
                    ),
                    None => {
                        let latest = self.latest();
                        let feedback = make_fallback_feedback(trimmed.as_str());
                        CognitiveUnitComplex::new(
                            timestamp,
                            latest.rule.clone(),
                            latest.state.clone(),
                            clone_string_vec(&latest.neighbors),
                            feedback,
                        )
                    },
                }
            },
        }
    }
}

/// Fallback law: whenever the trimmed response does not parse as a
/// `(rule, state)` pair, the computed record repeats the previous rule and
/// state unchanged and carries a non-empty feedback annotation.
pub proof fn lemma_fallback_correctness(
    prev: RecordModel,
    raw: Seq<char>,
    neighbors: Seq<PairModel>,
    timestamp: u64,
)
    requires
        json_pair_of(trim_markup(raw)) is None,
    ensures
        response_record(prev, Option::Some(raw), neighbors, timestamp).rule == prev.rule,
        response_record(prev, Option::Some(raw), neighbors, timestamp).state == prev.state,
        response_record(prev, Option::Some(raw), neighbors, timestamp).neighbors == prev.neighbors,
        response_record(prev, Option::Some(raw), neighbors, timestamp).feedback.len() > 0,
{
    reveal_strlit("unparsed resolver response: `");
    reveal_strlit("`");
    assert(fallback_feedback(trim_markup(raw)).len() > 0);
}

} // verus!
