//! The dispatch policy: decide whether a document needs segmenting and
//! with what chunk count, and assemble the per-chunk replies into an
//! ordered output record, one chunk's failure never touching its
//! neighbours.

use crate::segmenter::{effective_count, seg_chunks, split_at_positions};
use crate::split::append_chars;
use vstd::prelude::*;

verus! {

/// A document at most this many characters long travels as one chunk.
pub const LENGTH_THRESHOLD: usize = 1980;

/// Over the threshold, one chunk is requested per this many characters.
pub const CHUNK_DIVISOR: usize = 1000;

/// The chunk count requested for a document of `len` characters:
/// `len / 1000`, but at least one.
pub open spec fn chunk_count_spec(len: nat) -> nat {
    if len / 1000 == 0 {
        1nat
    } else {
        len / 1000
    }
}

/// What the policy decides for one document: send it whole, or segment
/// it into the given number of chunks.
#[derive(Debug, PartialEq, Eq, Structural)]
pub enum DispatchDecision {
    Single,
    Split { count: usize },
}

/// Decide from the measured character count whether to segment, and
/// with what chunk count.
pub fn decide_dispatch(length: usize) -> (r: DispatchDecision)
    ensures
        length <= LENGTH_THRESHOLD ==> r == DispatchDecision::Single,
        length > LENGTH_THRESHOLD ==> r == (DispatchDecision::Split {
            count: chunk_count_spec(length as nat) as usize,
        }),
{
    if length <= LENGTH_THRESHOLD {
        DispatchDecision::Single
    } else {
        let q = length / CHUNK_DIVISOR;
        let count = if q == 0 {
            1
        } else {
            q
        };
        DispatchDecision::Split { count }
    }
}

/// The ordered chunk list to dispatch for one document: the document
/// itself when it is short enough, else the segmenter's chunks for the
/// decided count.
pub fn plan_chunks(text: &Vec<char>) -> (r: Vec<Vec<char>>)
    ensures
        text@.len() <= LENGTH_THRESHOLD ==> r.deep_view() == seq![text@],
        text@.len() > LENGTH_THRESHOLD ==> r.deep_view() == seg_chunks(
            text@,
            chunk_count_spec(text@.len()),
        ),
{
    if text.len() <= LENGTH_THRESHOLD {
        let mut whole: Vec<char> = Vec::new();
        append_chars(&mut whole, text);
        let mut r: Vec<Vec<char>> = Vec::new();
        r.push(whole);
        proof {
            assert(r.deep_view() =~~= seq![text@]);
        }
        r
    } else {
        let q = text.len() / CHUNK_DIVISOR;
        let count = if q == 0 {
            1
        } else {
            q
        };
        proof {
            assert(count >= 1);
            assert(effective_count(count) == chunk_count_spec(text@.len()));
        }
        split_at_positions(text, count)
    }
}

/// What serde_json's parser finds at the `message` key of a reply body:
/// the field's text when the body is a JSON document whose `message`
/// member is a string, and nothing otherwise.  The result depends on the
/// body text alone.
pub uninterp spec fn json_message_of(body: Seq<char>) -> Option<Seq<char>>;

/// Relies on serde_json::from_str, serde_json::Value::get and
/// serde_json::Value::as_str: whether the body parses and what text its
/// `message` member holds depend on the body text alone.
#[verifier::external_body]
fn parse_message_field(body: &str) -> (r: Option<String>)
    ensures
        r is Some <==> json_message_of(body@) is Some,
        r is Some ==> r->0@ == json_message_of(body@)->0,
{
    match serde_json::from_str::<serde_json::Value>(body) {
        Ok(v) => match v.get("message") {
            Some(m) => match m.as_str() {
                Some(s) => Some(s.to_string()),
                None => None,
            },
            None => None,
        },
        Err(_) => None,
    }
}

/// The text a reply body contributes to the output record: its
/// `message` field, or nothing when the field is missing or is no
/// string — a malformed success degrades to an empty result.
pub open spec fn message_text(body: Seq<char>) -> Seq<char> {
    match json_message_of(body) {
        Some(m) => m,
        None => Seq::<char>::empty(),
    }
}

/// An extracted field made total: the field's text when it was there,
/// the empty string when it was not.
pub fn message_or_empty(m: Option<String>) -> (r: String)
    ensures
        m is Some ==> r == m->0,
        m is None ==> r@ == Seq::<char>::empty(),
{
    match m {
        Some(s) => s,
        None => String::new(),
    }
}

/// The text of one reply body's `message` field, the empty string when
/// the body is malformed or the field is missing.
pub fn extract_message(body: &str) -> (r: String)
    ensures
        r@ == message_text(body@),
{
    message_or_empty(parse_message_field(body))
}

/// What the transport collaborator handed back for one chunk: a success
/// reply body, or a failure with its status indicator.
#[derive(Debug)]
pub enum ChunkOutcome {
    Success { body: String },
    Failure { status: u16 },
}

/// The ordered output record owed for a list of per-chunk outcomes: each
/// success contributes its extracted `message` text, in chunk order;
/// each failure contributes nothing and stops nothing.
pub open spec fn record_spec(outs: Seq<ChunkOutcome>) -> Seq<Seq<char>>
    decreases outs.len(),
{
    if outs.len() == 0 {
        Seq::<Seq<char>>::empty()
    } else {
        record_spec(outs.drop_last()) + (match outs.last() {
            ChunkOutcome::Success { body } => seq![message_text(body@)],
            ChunkOutcome::Failure { .. } => Seq::<Seq<char>>::empty(),
        })
    }
}

/// Assemble the output record from the per-chunk outcomes, in chunk
/// order: extracted text for each success, nothing for each failure.
pub fn collect_results(outs: &Vec<ChunkOutcome>) -> (r: Vec<String>)
    ensures
        r.deep_view() == record_spec(outs@),
{
    let mut r: Vec<String> = Vec::new();
    let mut i: usize = 0;
    while i < outs.len()
        invariant
            0 <= i <= outs@.len(),
            r.deep_view() == record_spec(outs@.take(i as int)),
        decreases outs@.len() - i,
    {
        let ghost r0 = r.deep_view();
        proof {
            assert(outs@.take(i + 1).drop_last() =~= outs@.take(i as int));
            assert(outs@.take(i + 1).last() == outs@[i as int]);
        }
        match &outs[i] {
            ChunkOutcome::Success { body } => {
                let text = extract_message(body.as_str());
                r.push(text);
                proof {
                    assert(r.deep_view() =~~= r0 + seq![message_text(
                        outs@[i as int]->Success_body@,
                    )]);
                }
            },
            ChunkOutcome::Failure { .. } => {
                proof {
                    assert(r.deep_view() =~= r0 + Seq::<Seq<char>>::empty());
                }
            },
        }
        i = i + 1;
    }
    proof {
        assert(outs@.take(outs@.len() as int) =~= outs@);
    }
    r
}

} // verus!
