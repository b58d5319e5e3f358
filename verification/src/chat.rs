//! Chat history as the frontend sends it, and its conversion into the
//! OpenAI wire format that `llama-server` accepts.

use vstd::prelude::*;
use crate::json::JsonValue;
use crate::text::{
    decimal, push_decimal, push_str, starts_with, starts_with_str, str_eq,
};
use std::collections::VecDeque;

verus! {

/// The function a tool call invokes, and its arguments.
pub struct ToolCallFunction {
    pub name: String,
    pub arguments: JsonValue,
}

/// One tool call of an assistant turn.
pub struct ToolCallChunk {
    pub id: Option<String>,
    pub function: ToolCallFunction,
}

/// One message of the chat history.
pub struct ChatMessage {
    pub role: String,
    pub content: String,
    pub images: Option<Vec<String>>,
    pub tool_calls: Option<Vec<ToolCallChunk>>,
}

// ---------------------------------------------------------------------------
// OpenAI request shapes
// ---------------------------------------------------------------------------
/// `{"url": ...}` of an image content part.
pub struct OpenAiImageUrl {
    pub url: String,
}

/// One part of a multi-part message content.
pub enum OpenAiContentPart {
    Text { text: String },
    ImageUrl { image_url: OpenAiImageUrl },
}

/// Message content: plain text or a list of parts.
pub enum OpenAiContent {
    Text(String),
    Parts(Vec<OpenAiContentPart>),
}

/// The `arguments` string of an OpenAI tool call. OpenAI transports the
/// arguments as a JSON *string*: a string value is sent as it is, any other
/// value as its JSON encoding.
pub enum OpenAiArguments {
    Verbatim(String),
    Encoded(JsonValue),
}

/// The function part of an OpenAI tool call.
pub struct OpenAiToolCallFunction {
    pub name: String,
    pub arguments: OpenAiArguments,
}

/// An OpenAI tool call; `kind` is serialised as `type`.
pub struct OpenAiToolCall {
    pub id: String,
    pub kind: &'static str,
    pub function: OpenAiToolCallFunction,
}

/// One message of an OpenAI chat request.
pub struct OpenAiMessage {
    pub role: String,
    pub content: Option<OpenAiContent>,
    pub tool_calls: Option<Vec<OpenAiToolCall>>,
    pub tool_call_id: Option<String>,
}

// ---------------------------------------------------------------------------
// Images
// ---------------------------------------------------------------------------
/// The MIME type sniffed from the start of a base64 image.
pub open spec fn image_mime(image: Seq<char>) -> Seq<char> {
    if starts_with(image, "iVBOR"@) {
        "image/png"@
    } else if starts_with(image, "R0lGOD"@) {
        "image/gif"@
    } else if starts_with(image, "UklGR"@) {
        "image/webp"@
    } else {
        "image/jpeg"@
    }
}

/// The data URL of a raw base64 image; a data URL is left as it is.
pub open spec fn data_url(image: Seq<char>) -> Seq<char> {
    if starts_with(image, "data:"@) {
        image
    } else {
        "data:"@ + image_mime(image) + ";base64,"@ + image
    }
}

/// Wrapping is idempotent: a data URL is left as it is.
pub proof fn lemma_data_url_idempotent(image: Seq<char>)
    ensures
        data_url(data_url(image)) == data_url(image),
{
    reveal_strlit("data:");
    if !starts_with(image, "data:"@) {
        let u = data_url(image);
        assert(u.take(5) =~= "data:"@);
    }
}

/// Wrap a raw base64 image in the data URL that the OpenAI content part wants.
/// Sniffs the container from the base64 prefix so PNG screenshots aren't
/// mislabelled as JPEG.
pub fn to_data_url(image: &str) -> (url: String)
    ensures
        url@ == data_url(image@),
{
    if starts_with_str(image, "data:") {
        return image.to_owned();
    }
    let mime = if starts_with_str(image, "iVBOR") {
        "image/png"
    } else if starts_with_str(image, "R0lGOD") {
        "image/gif"
    } else if starts_with_str(image, "UklGR") {
        "image/webp"
    } else {
        "image/jpeg"
    };
    let mut url = String::new();
    push_str(&mut url, "data:");
    push_str(&mut url, mime);
    push_str(&mut url, ";base64,");
    push_str(&mut url, image);
    url
}

// ---------------------------------------------------------------------------
// History in the OpenAI wire format
// ---------------------------------------------------------------------------
/// A tool-result message.
pub open spec fn is_tool_message(m: ChatMessage) -> bool {
    m.role@ == "tool"@
}

/// A message that carries at least one tool call.
pub open spec fn has_tool_calls(m: ChatMessage) -> bool {
    m.tool_calls matches Some(t) && t@.len() > 0
}

/// The id minted for call `j` of message `i` when the call carries none.
pub open spec fn minted_id(i: int, j: int) -> Seq<char> {
    "call_"@ + decimal(i as nat) + "_"@ + decimal(j as nat)
}

/// The id under which call `j` of message `m` (at index `i`) is sent.
pub open spec fn call_id(m: ChatMessage, i: int, j: int) -> Seq<char> {
    match m.tool_calls {
        Some(t) => match t@[j].id {
            Some(id) => id@,
            None => minted_id(i, j),
        },
        None => minted_id(i, j),
    }
}

/// The id under which call `tc`, call `j` of message `i`, is sent.
pub open spec fn chunk_id(tc: ToolCallChunk, i: int, j: int) -> Seq<char> {
    match tc.id {
        Some(id) => id@,
        None => minted_id(i, j),
    }
}

/// Present and non-empty.
pub open spec fn has_calls(t: Option<Vec<ToolCallChunk>>) -> bool {
    t matches Some(v) && v@.len() > 0
}

/// The ids of all calls of message `m` (at index `i`), in order.
pub open spec fn call_ids(m: ChatMessage, i: int) -> Seq<Seq<char>> {
    Seq::new(m.tool_calls.unwrap()@.len(), |j: int| call_id(m, i, j))
}

/// The call ids not yet claimed by a tool result after the first `k` messages.
pub open spec fn pending_ids(msgs: Seq<ChatMessage>, k: int) -> Seq<Seq<char>>
    decreases k,
{
    if k <= 0 {
        Seq::empty()
    } else {
        let p = pending_ids(msgs, k - 1);
        let m = msgs[k - 1];
        if is_tool_message(m) {
            if p.len() > 0 {
                p.drop_first()
            } else {
                p
            }
        } else if has_tool_calls(m) {
            call_ids(m, k - 1)
        } else {
            p
        }
    }
}

/// The OpenAI arguments of a call's JSON arguments.
pub open spec fn arguments_sent(a: JsonValue, o: OpenAiArguments) -> bool {
    match a {
        JsonValue::Str(s) => o == OpenAiArguments::Verbatim(s),
        _ => o == OpenAiArguments::Encoded(a),
    }
}

/// `o` is the OpenAI form of tool call `tc`, sent under `id`.
pub open spec fn call_sent(tc: ToolCallChunk, id: Seq<char>, o: OpenAiToolCall) -> bool {
    &&& o.id@ == id
    &&& o.kind@ == "function"@
    &&& o.function.name == tc.function.name
    &&& arguments_sent(tc.function.arguments, o.function.arguments)
}

/// `parts` are the text (when non-empty) followed by one image part per image.
pub open spec fn parts_sent(text: Seq<char>, images: Seq<String>, parts: Seq<OpenAiContentPart>) -> bool {
    let off: int = if text.len() > 0 { 1 } else { 0 };
    &&& parts.len() == images.len() + off
    &&& text.len() > 0 ==> (parts[0] matches OpenAiContentPart::Text { text: t } && t@ == text)
    &&& text.len() > 0 ==> forall|k: int|
        0 <= k < images.len() ==> (#[trigger] parts[k + 1] matches OpenAiContentPart::ImageUrl {
            image_url,
        } && image_url.url@ == data_url(images[k]@))
    &&& text.len() == 0 ==> forall|k: int|
        0 <= k < images.len() ==> (#[trigger] parts[k] matches OpenAiContentPart::ImageUrl {
            image_url,
        } && image_url.url@ == data_url(images[k]@))
}

/// `c` is the content sent for the non-tool message `m`.
pub open spec fn content_sent(m: ChatMessage, c: Option<OpenAiContent>) -> bool {
    if m.images matches Some(imgs) && imgs@.len() > 0 {
        c matches Some(OpenAiContent::Parts(parts)) && parts_sent(m.content@, m.images.unwrap()@, parts@)
    } else if m.content@.len() == 0 && has_tool_calls(m) {
        // An assistant turn that only calls tools legitimately has no text.
        c is None
    } else {
        c matches Some(OpenAiContent::Text(t)) && t@ == m.content@
    }
}

/// `o` is the OpenAI form of message `m` at index `i`, with `pending` the
/// call ids still unclaimed before it.
pub open spec fn message_sent(m: ChatMessage, i: int, pending: Seq<Seq<char>>, o: OpenAiMessage) -> bool {
    if is_tool_message(m) {
        &&& o.role@ == "tool"@
        &&& o.content matches Some(OpenAiContent::Text(t)) && t@ == m.content@
        &&& o.tool_calls is None
        &&& if pending.len() > 0 {
            o.tool_call_id matches Some(id) && id@ == pending[0]
        } else {
            o.tool_call_id is None
        }
    } else {
        &&& o.role@ == m.role@
        &&& o.tool_call_id is None
        &&& content_sent(m, o.content)
        &&& if has_tool_calls(m) {
            &&& o.tool_calls matches Some(calls)
            &&& calls@.len() == m.tool_calls.unwrap()@.len()
            &&& forall|j: int|
                0 <= j < calls@.len() ==> call_sent(
                    m.tool_calls.unwrap()@[j],
                    call_id(m, i, j),
                    #[trigger] calls@[j],
                )
        } else {
            o.tool_calls is None
        }
    }
}

/// The view of a queue of ids.
pub open spec fn id_views(q: Seq<String>) -> Seq<Seq<char>> {
    Seq::new(q.len(), |k: int| q[k]@)
}

/// `out` is the OpenAI form of the history `msgs`, message by message.
pub open spec fn openai_form_of(msgs: Seq<ChatMessage>, out: Seq<OpenAiMessage>) -> bool {
    &&& out.len() == msgs.len()
    &&& forall|k: int|
        0 <= k < msgs.len() ==> message_sent(msgs[k], k, pending_ids(msgs, k), #[trigger] out[k])
}

/// Convert HELIX chat history into the OpenAI wire format.
///
/// The frontend emits `role: "tool"` messages with no `tool_call_id` (Ollama
/// doesn't need one), so pair each tool result with the ids minted for the
/// preceding assistant turn — llama-server rejects orphaned tool messages.
pub fn to_openai_messages(messages: Vec<ChatMessage>) -> (out: Vec<OpenAiMessage>)
    ensures
        openai_form_of(messages@, out@),
{
    let ghost msgs = messages@;
    let mut out: Vec<OpenAiMessage> = Vec::with_capacity(messages.len());
    let mut unclaimed: VecDeque<String> = VecDeque::new();
    let mut i: usize = 0;

    let mut rest = messages;
    while rest.len() > 0
        invariant
            rest@ == msgs.skip(i as int),
            i <= msgs.len() <= usize::MAX,
            out@.len() == i,
            id_views(unclaimed@) == pending_ids(msgs, i as int),
            forall|k: int|
                0 <= k < i ==> message_sent(msgs[k], k, pending_ids(msgs, k), #[trigger] out@[k]),
        decreases rest.len(),
    {
        let ghost pending = pending_ids(msgs, i as int);
        assert(i < msgs.len());
        let m = rest.remove(0);
        assert(m == msgs[i as int]);
        let ChatMessage { role, content, images, tool_calls } = m;

        if str_eq(role.as_str(), "tool") {
            let claimed = unclaimed.pop_front();
            assert(id_views(unclaimed@) =~= pending_ids(msgs, i + 1));
            out.push(OpenAiMessage {
                role: "tool".to_owned(),
                content: Some(OpenAiContent::Text(content)),
                tool_calls: None,
                tool_call_id: claimed,
            });
        } else {
            let calls = convert_calls(tool_calls, i, &mut unclaimed);
            proof {
                if has_tool_calls(m) {
                    assert(id_views(unclaimed@) =~= pending_ids(msgs, i + 1));
                } else {
                    assert(pending_ids(msgs, i + 1) == pending);
                }
            }
            let has_calls = calls.is_some();
            let text_empty = content.as_str().is_empty();
            let content = match images {
                Some(imgs) => {
                    if imgs.len() > 0 {
                        Some(OpenAiContent::Parts(image_parts(content, imgs)))
                    } else if text_empty && has_calls {
                        None
                    } else {
                        Some(OpenAiContent::Text(content))
                    }
                },
                None => {
                    if text_empty && has_calls {
                        None
                    } else {
                        Some(OpenAiContent::Text(content))
                    }
                },
            };
            out.push(OpenAiMessage { role, content, tool_calls: calls, tool_call_id: None });
        }
        assert(message_sent(msgs[i as int], i as int, pending, out@[i as int]));
        assert(rest@ =~= msgs.skip(i + 1));
        i += 1;
    }
    out
}

/// The OpenAI tool calls of one non-tool message, recording their ids as the
/// ones the following tool results claim.
fn convert_calls(
    tool_calls: Option<Vec<ToolCallChunk>>,
    i: usize,
    unclaimed: &mut VecDeque<String>,
) -> (calls: Option<Vec<OpenAiToolCall>>)
    ensures
        has_calls(tool_calls) ==> {
            let t = tool_calls.unwrap()@;
            &&& calls matches Some(c)
            &&& c@.len() == t.len()
            &&& id_views(final(unclaimed)@) == Seq::new(t.len(), |j: int| chunk_id(t[j], i as int, j))
            &&& forall|j: int|
                0 <= j < c@.len() ==> call_sent(t[j], chunk_id(t[j], i as int, j), #[trigger] c@[j])
        },
        !has_calls(tool_calls) ==> calls is None && final(unclaimed)@ == old(unclaimed)@,
{
    let tcs = match tool_calls {
        Some(tcs) => tcs,
        None => return None,
    };
    if tcs.len() == 0 {
        return None;
    }
    let ghost t = tcs@;
    let ghost ids = Seq::new(t.len(), |j: int| chunk_id(t[j], i as int, j));
    unclaimed.clear();
    let mut calls: Vec<OpenAiToolCall> = Vec::new();
    let mut j: usize = 0;
    let mut rest = tcs;
    while rest.len() > 0
        invariant
            rest@ == t.skip(j as int),
            j <= t.len() <= usize::MAX,
            ids == Seq::new(t.len(), |q: int| chunk_id(t[q], i as int, q)),
            calls@.len() == j,
            id_views(unclaimed@) == ids.take(j as int),
            forall|q: int| 0 <= q < j ==> call_sent(t[q], ids[q], #[trigger] calls@[q]),
        decreases rest.len(),
    {
        assert(j < t.len());
        let tc = rest.remove(0);
        assert(tc == t[j as int]);
        let ToolCallChunk { id, function } = tc;
        let id = match id {
            Some(s) => s,
            None => {
                let mut s = String::new();
                push_str(&mut s, "call_");
                push_decimal(&mut s, i);
                push_str(&mut s, "_");
                push_decimal(&mut s, j);
                s
            },
        };
        assert(id@ == ids[j as int]);
        let ghost before = unclaimed@;
        assert(ids.len() == t.len());
        assert(ids.take(j as int).len() == j);
        assert(id_views(before).len() == before.len());
        assert(before.len() == j);
        unclaimed.push_back(id.clone());
        assert(unclaimed@ == before.push(id));
        assert forall|k: int| 0 <= k < j + 1 implies #[trigger] id_views(unclaimed@)[k] == ids.take(j + 1)[k] by {
            if k < j {
                assert(id_views(before)[k] == ids.take(j as int)[k]);
            }
        }
        assert(id_views(unclaimed@) =~= ids.take(j + 1));
        let ToolCallFunction { name, arguments } = function;
        let arguments = match arguments {
            JsonValue::Str(s) => OpenAiArguments::Verbatim(s),
            other => OpenAiArguments::Encoded(other),
        };
        calls.push(OpenAiToolCall {
            id,
            kind: "function",
            function: OpenAiToolCallFunction { name, arguments },
        });
        assert(rest@ =~= t.skip(j + 1));
        j += 1;
    }
    assert(ids.take(t.len() as int) =~= ids);
    Some(calls)
}

/// The ids still pending `r` tool results after an assistant turn `a` that
/// called tools are that turn's ids from the `r`-th on.
proof fn lemma_pending_after_tool_results(msgs: Seq<ChatMessage>, a: int, r: int)
    requires
        0 <= a,
        0 <= r,
        a + 1 + r <= msgs.len(),
        !is_tool_message(msgs[a]),
        has_tool_calls(msgs[a]),
        forall|q: int| a < q < a + 1 + r ==> is_tool_message(#[trigger] msgs[q]),
        r <= msgs[a].tool_calls.unwrap()@.len(),
    ensures
        pending_ids(msgs, a + 1 + r) == call_ids(msgs[a], a).skip(r),
    decreases r,
{
    if r == 0 {
        assert(call_ids(msgs[a], a).skip(0) =~= call_ids(msgs[a], a));
    } else {
        lemma_pending_after_tool_results(msgs, a, r - 1);
        assert(is_tool_message(msgs[a + r]));
        assert(call_ids(msgs[a], a).skip(r - 1).drop_first() =~= call_ids(msgs[a], a).skip(r));
    }
}

/// Tool results are paired with the calls of the assistant turn before them,
/// in order: the `r`-th tool result that follows a turn which called tools
/// (with only tool results between) is sent with the id of that turn's `r`-th
/// call, and a tool result after all of its calls are claimed is sent with
/// none.
pub proof fn lemma_tool_results_claim_ids_in_order(
    msgs: Seq<ChatMessage>,
    out: Seq<OpenAiMessage>,
    a: int,
    r: int,
)
    requires
        openai_form_of(msgs, out),
        0 <= a,
        0 <= r,
        a + 1 + r < msgs.len(),
        !is_tool_message(msgs[a]),
        has_tool_calls(msgs[a]),
        forall|q: int| a < q <= a + 1 + r ==> is_tool_message(#[trigger] msgs[q]),
    ensures
        r < msgs[a].tool_calls.unwrap()@.len() ==> (out[a + 1 + r].tool_call_id matches Some(id)
            && id@ == call_id(msgs[a], a, r)),
        r >= msgs[a].tool_calls.unwrap()@.len() ==> out[a + 1 + r].tool_call_id is None,
{
    let n = msgs[a].tool_calls.unwrap()@.len() as int;
    let k = a + 1 + r;
    assert(is_tool_message(msgs[k]));
    assert(message_sent(msgs[k], k, pending_ids(msgs, k), out[k]));
    if r <= n {
        lemma_pending_after_tool_results(msgs, a, r);
    } else {
        lemma_pending_after_tool_results(msgs, a, n);
        lemma_no_pending_after_claims(msgs, a + 1 + n, r - n);
    }
}

/// Once no id is pending, tool results leave it so.
proof fn lemma_no_pending_after_claims(msgs: Seq<ChatMessage>, b: int, s: int)
    requires
        0 < b,
        0 <= s,
        b + s <= msgs.len(),
        pending_ids(msgs, b).len() == 0,
        forall|q: int| b <= q < b + s ==> is_tool_message(#[trigger] msgs[q]),
    ensures
        pending_ids(msgs, b + s).len() == 0,
    decreases s,
{
    if s > 0 {
        lemma_no_pending_after_claims(msgs, b, s - 1);
        assert(is_tool_message(msgs[b + s - 1]));
    }
}

/// The content parts of a message with images: its text, when there is
/// any, then one image part per image.
fn image_parts(text: String, images: Vec<String>) -> (parts: Vec<OpenAiContentPart>)
    ensures
        parts_sent(text@, images@, parts@),
{
    let ghost imgs = images@;
    let ghost tv = text@;
    let mut parts: Vec<OpenAiContentPart> = Vec::new();
    let off: usize = if text.as_str().is_empty() { 0 } else { 1 };
    if off == 1 {
        parts.push(OpenAiContentPart::Text { text });
    }
    let mut k: usize = 0;
    while k < images.len()
        invariant
            images@ == imgs,
            off == (if tv.len() > 0 { 1usize } else { 0usize }),
            k <= images.len(),
            parts@.len() == k + off,
            tv.len() > 0 ==> (parts@[0] matches OpenAiContentPart::Text { text: t } && t@ == tv),
            forall|q: int|
                0 <= q < k ==> (#[trigger] parts@[q + off] matches OpenAiContentPart::ImageUrl {
                    image_url,
                } && image_url.url@ == data_url(imgs[q]@)),
        decreases images.len() - k,
    {
        let url = to_data_url(images[k].as_str());
        parts.push(OpenAiContentPart::ImageUrl { image_url: OpenAiImageUrl { url } });
        k += 1;
    }
    proof {
        if tv.len() > 0 {
            assert forall|q: int| 0 <= q < imgs.len() implies (#[trigger] parts@[q + 1] matches OpenAiContentPart::ImageUrl {
                image_url,
            } && image_url.url@ == data_url(imgs[q]@)) by {
                assert(parts@[q + off] == parts@[q + 1]);
            }
        } else {
            assert forall|q: int| 0 <= q < imgs.len() implies (#[trigger] parts@[q] matches OpenAiContentPart::ImageUrl {
                image_url,
            } && image_url.url@ == data_url(imgs[q]@)) by {
                assert(parts@[q + off] == parts@[q]);
            }
        }
    }
    parts
}

} // verus!
