//! Responses of a model, and which of them are worth keeping.

use vstd::prelude::*;

verus! {

/// A JSON value of `serde_json`, which the cache hands on as it is.
#[verifier::external_type_specification]
#[verifier::external_body]
pub struct ExJsonValue(serde_json::Value);

/// How many tokens a response took.
#[derive(Clone, Copy, Debug, PartialEq, Eq, Structural)]
pub struct AiUsage {
    pub prompt_tokens: usize,
    pub completion_tokens: usize,
    pub total_tokens: usize,
    pub cached_tokens: Option<usize>,
}

/// A call of a tool that a response asks for.
#[derive(Debug)]
pub struct ToolCall {
    pub id: String,
    pub function_name: String,
    pub arguments: serde_json::Value,
    pub thought_signature: Option<String>,
}

/// The response of a model to a request.
#[derive(Debug)]
pub struct AiResponse {
    pub content: Option<String>,
    pub thought: Option<String>,
    pub thought_signature: Option<String>,
    pub tool_calls: Option<Vec<ToolCall>>,
    pub usage: Option<AiUsage>,
    pub truncated: bool,
    /// The key of the cache entry that holds this response.
    pub cache_key: Option<String>,
}

/// Whether a text holds nothing but white space.
pub open spec fn is_blank(text: Seq<char>) -> bool {
    forall|i: int| 0 <= i < text.len() ==> crate::noise::is_space(#[trigger] text[i])
}

/// Whether a response says something or asks for something.
pub open spec fn has_payload(response: AiResponse) -> bool {
    ||| response.content matches Some(text) && !is_blank(text@)
    ||| response.tool_calls matches Some(calls) && calls@.len() > 0
}

fn is_white_space(c: char) -> (r: bool)
    ensures
        r == crate::noise::is_space(c),
{
    let u: u32 = c as u32;
    (0x9 <= u && u <= 0xD) || u == 0x20 || u == 0x85 || u == 0xA0 || u == 0x1680 || (0x2000 <= u && u
        <= 0x200A) || u == 0x2028 || u == 0x2029 || u == 0x202F || u == 0x205F || u == 0x3000
}

fn holds_only_white_space(text: &str) -> (r: bool)
    ensures
        r == is_blank(text@),
{
    for c in it: text.chars()
        invariant
            it.seq() == text@,
            forall|i: int| 0 <= i < it.index() ==> crate::noise::is_space(#[trigger] text@[i]),
    {
        if !is_white_space(c) {
            return false;
        }
    }
    true
}

impl AiResponse {
    /// Whether this response may be kept and served again. An empty one may not:
    /// every retry would get it back, and a passing failure would last.
    pub fn worth_caching(&self) -> (r: bool)
        ensures
            r == has_payload(*self),
            r <==> {
                ||| self.content matches Some(text) && exists|i: int|
                    0 <= i < text@.len() && !crate::noise::is_space(#[trigger] text@[i])
                ||| self.tool_calls matches Some(calls) && calls@.len() > 0
            },
    {
        let has_content = match &self.content {
            Some(text) => !holds_only_white_space(text.as_str()),
            None => false,
        };
        let has_tool_calls = match &self.tool_calls {
            Some(calls) => calls.len() > 0,
            None => false,
        };
        has_content || has_tool_calls
    }
}

} // verus!
