//! Usage recording: classification of tool-call outcomes.
use vstd::prelude::*;

use crate::text::string_of;

verus! {

/// Records tool usage for the project held by `agent`.
pub struct UsageRecorder<A> {
    pub agent: A,
}

impl<A> UsageRecorder<A> {
    /// A recorder for the given agent.
    pub fn new(agent: A) -> (res: Self)
        ensures
            res.agent == agent,
    {
        Self { agent }
    }
}

/// What the recorder reads of a JSON tool result: the `error` field when it
/// is a string, and whether an `overflow` field is present.
pub struct JsonProbe {
    pub error: Option<String>,
    pub has_overflow: bool,
}

/// Mathematical view of a probe.
pub open spec fn probe_view(p: Option<JsonProbe>) -> Option<(Option<Seq<char>>, bool)> {
    match p {
        Some(x) => Some(
            (
                match x.error {
                    Some(e) => Some(e@),
                    None => None,
                },
                x.has_overflow,
            ),
        ),
        None => None,
    }
}

/// What `serde_json::from_str::<Value>` makes of `text`, read as a probe:
/// `None` when the text is not JSON. A function of the text alone.
pub uninterp spec fn json_probe(text: Seq<char>) -> Option<(Option<Seq<char>>, bool)>;

/// Parses `text` with `serde_json::from_str::<Value>` and reads `error` (as a
/// string, `Value::as_str`) and the presence of `overflow` (`Value::get`).
/// The contract claims only that the result is `json_probe` of the text.
#[verifier::external_body]
fn probe_json(text: &str) -> (res: Option<JsonProbe>)
    ensures
        probe_view(res) == json_probe(text@),
{
    let v: serde_json::Value = serde_json::from_str(text).ok()?;
    Some(JsonProbe {
        error: v.get("error").and_then(serde_json::Value::as_str).map(|s| s.to_string()),
        has_overflow: v.get("overflow").is_some(),
    })
}

/// The outcome of a call: kind, whether output overflowed, and the message.
pub open spec fn outcome_of_probe(probe: Option<(Option<Seq<char>>, bool)>) -> (Seq<char>, bool, Option<Seq<char>>) {
    match probe {
        Some((Some(msg), _)) => ("recoverable_error"@, false, Some(msg)),
        Some((None, true)) => ("success"@, true, None),
        _ => ("success"@, false, None),
    }
}

/// The view of an outcome.
pub open spec fn outcome_view(o: (&str, bool, Option<String>)) -> (Seq<char>, bool, Option<Seq<char>>) {
    (
        o.0@,
        o.1,
        match o.2 {
            Some(s) => Some(s@),
            None => None,
        },
    )
}

/// Outcome of a successful call from what its first text block parsed to:
/// an `error` string makes it a recoverable error carrying that message; an
/// `overflow` field makes it an overflowed success; anything else (including
/// text that is not JSON) is a clean success.
pub fn classify_probe(probe: Option<JsonProbe>) -> (res: (&'static str, bool, Option<String>))
    ensures
        outcome_view(res) == outcome_of_probe(probe_view(probe)),
{
    match probe {
        Some(p) => match p.error {
            Some(msg) => ("recoverable_error", false, Some(msg)),
            None => if p.has_overflow {
                ("success", true, None)
            } else {
                ("success", false, None)
            },
        },
        None => ("success", false, None),
    }
}

/// Outcome of a tool call. `Err(message)` is an error; `Ok(text)` carries
/// the text of the first content block (empty when there is none), which is
/// probed as JSON (see `classify_probe`).
pub fn classify_content_result(result: &Result<String, String>) -> (res: (&'static str, bool, Option<String>))
    ensures
        outcome_view(res) == match result {
            Err(e) => ("error"@, false, Some(e@)),
            Ok(text) => outcome_of_probe(json_probe(text@)),
        },
{
    match result {
        Err(e) => ("error", false, Some(e.clone())),
        Ok(text) => classify_probe(probe_json(text.as_str())),
    }
}

} // verus!
