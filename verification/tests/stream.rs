use helix_desktop::json::{JsonMember, JsonValue};
use helix_desktop::stream::{
    classify_sse_line, final_tool_calls, stream_item, PartialToolCall, SseLine, SseLineBuffer, StreamChoice,
    StreamChunk, StreamDelta, StreamItem, StreamProgress, StreamSession, StreamToolCall, StreamToolCallFunction,
};

fn text_chunk(text: &str) -> StreamChunk {
    StreamChunk {
        choices: vec![StreamChoice { delta: StreamDelta { content: Some(text.to_string()), tool_calls: None } }],
    }
}

fn call_chunk(index: Option<usize>, id: Option<&str>, name: Option<&str>, args: Option<&str>) -> StreamChunk {
    StreamChunk {
        choices: vec![StreamChoice {
            delta: StreamDelta {
                content: None,
                tool_calls: Some(vec![StreamToolCall {
                    index,
                    id: id.map(|s| s.to_string()),
                    function: Some(StreamToolCallFunction {
                        name: name.map(|s| s.to_string()),
                        arguments: args.map(|s| s.to_string()),
                    }),
                }]),
            },
        }],
    }
}

#[test]
fn lines_are_released_only_when_complete() {
    let mut buf = SseLineBuffer::new();
    assert!(buf.push_text("data: {\"a\"").is_empty());
    let lines = buf.push_text(":1}\n\ndata: [DO");
    assert_eq!(lines, vec!["data: {\"a\":1}".to_string(), String::new()]);
    let lines = buf.push_text("NE]\n");
    assert_eq!(lines, vec!["data: [DONE]".to_string()]);
}

#[test]
fn chunking_does_not_change_the_lines() {
    let whole = "data: one\ndata: two\n: keep-alive\ndata: three\n";
    let mut a = SseLineBuffer::new();
    let all_at_once = a.push_text(whole);
    let mut b = SseLineBuffer::new();
    let mut piecewise = Vec::new();
    for piece in ["da", "ta: o", "ne\ndata: two", "\n: keep", "-alive\ndata: three", "\n"] {
        piecewise.extend(b.push_text(piece));
    }
    assert_eq!(all_at_once, piecewise);
    assert_eq!(all_at_once.len(), 4);
}

#[test]
fn event_lines_are_classified() {
    assert!(matches!(classify_sse_line(""), SseLine::Ignore));
    assert!(matches!(classify_sse_line("   "), SseLine::Ignore));
    assert!(matches!(classify_sse_line(": ping"), SseLine::Ignore));
    assert!(matches!(classify_sse_line("event: message"), SseLine::Ignore));
    assert!(matches!(classify_sse_line("data: [DONE]"), SseLine::Done));
    assert!(matches!(classify_sse_line("  data:   [DONE]  \r"), SseLine::Done));
    match classify_sse_line("data:  {\"x\": 1} ") {
        SseLine::Data(d) => assert_eq!(d, "{\"x\": 1}"),
        _ => panic!("a data line carries its payload"),
    }
}

#[test]
fn text_is_forwarded_and_counted() {
    let mut progress = StreamProgress::new();
    let first = progress.apply_chunk(&text_chunk("Hel"));
    assert_eq!(first.delta.as_deref(), Some("Hel"));
    assert!(first.first_token);
    assert!(progress.first_token_seen);
    let second = progress.apply_chunk(&text_chunk("lo"));
    assert_eq!(second.delta.as_deref(), Some("lo"));
    assert!(!second.first_token);
    let empty = progress.apply_chunk(&text_chunk(""));
    assert!(empty.delta.is_none());
    assert_eq!(progress.emitted_tokens, 2);
    let none = progress.apply_chunk(&StreamChunk { choices: vec![] });
    assert!(none.delta.is_none());
    assert_eq!(progress.emitted_tokens, 2);
}

#[test]
fn tool_call_fragments_are_assembled_by_index() {
    let mut progress = StreamProgress::new();
    let effect = progress.apply_chunk(&call_chunk(Some(0), Some("call_a"), Some("search"), Some("{\"q\":")));
    assert!(effect.first_token);
    assert!(effect.delta.is_none());
    progress.apply_chunk(&call_chunk(None, None, None, Some("\"rust\"}")));
    progress.apply_chunk(&call_chunk(Some(2), None, Some("read"), Some("{}")));
    assert_eq!(progress.partial_tool_calls.len(), 3);
    assert_eq!(progress.partial_tool_calls[0].arguments, "{\"q\":\"rust\"}");
    assert_eq!(progress.partial_tool_calls[1].name, "");
    let calls = progress.finished_tool_calls();
    assert_eq!(calls.len(), 2, "the unnamed gap slot is dropped");
    assert_eq!(calls[0].id.as_deref(), Some("call_a"));
    assert_eq!(calls[0].name, "search");
    assert_eq!(calls[1].name, "read");
    assert_eq!(calls[1].id, None);
}

#[test]
fn finished_calls_decode_or_fall_back_to_an_empty_object() {
    let partial = PartialToolCall {
        id: Some("x".to_string()),
        name: "search".to_string(),
        arguments: "  {\"q\":\"a\"} \n".to_string(),
    };
    assert_eq!(partial.arguments_text(), "{\"q\":\"a\"}");
    let decoded = JsonValue::Object(vec![JsonMember { key: "q".to_string(), value: JsonValue::Str("a".to_string()) }]);
    let chunk = partial.finish(Some(decoded));
    assert_eq!(chunk.id.as_deref(), Some("x"));
    assert_eq!(chunk.function.name, "search");
    match chunk.function.arguments {
        JsonValue::Object(members) => {
            assert_eq!(members.len(), 1);
            assert_eq!(members[0].key, "q");
        },
        _ => panic!("decoded arguments are kept"),
    }
    let broken = PartialToolCall { id: None, name: "read".to_string(), arguments: "{oops".to_string() };
    match broken.finish(None).function.arguments {
        JsonValue::Object(members) => assert!(members.is_empty()),
        _ => panic!("undecodable arguments become the empty object"),
    }
}

/// A stand-in decoder for the test bodies: `text:<t>` is a text chunk,
/// `call:<name>:<args>` a tool-call fragment for slot 0, `empty` a chunk
/// without choices; anything else does not decode.
fn decode(payload: &str) -> Option<StreamChunk> {
    if let Some(t) = payload.strip_prefix("text:") {
        Some(text_chunk(t))
    } else if let Some(rest) = payload.strip_prefix("call:") {
        let (name, args) = rest.split_once(':')?;
        let name = if name.is_empty() { None } else { Some(name) };
        Some(call_chunk(Some(0), None, name, Some(args)))
    } else if payload == "empty" {
        Some(StreamChunk { choices: vec![] })
    } else {
        None
    }
}

/// The events a body sends, fed in the given pieces: the text deltas, and
/// the final tool calls as (name, arguments text).
fn events(pieces: &[&str]) -> (Vec<String>, Option<Vec<(String, String)>>) {
    let mut buffer = SseLineBuffer::new();
    let mut session = StreamSession::new();
    let mut deltas = Vec::new();
    'read: for piece in pieces {
        for line in buffer.push_text(piece) {
            let meaning = classify_sse_line(&line);
            let decoded = match &meaning {
                SseLine::Data(d) => decode(d),
                _ => None,
            };
            let item = stream_item(meaning, decoded);
            if let Some(d) = session.on_item(&item).delta {
                deltas.push(d);
            }
            if session.ended {
                break 'read;
            }
        }
    }
    let calls = session.finish();
    let texts: Vec<String> = calls.iter().map(|c| c.arguments_text()).collect();
    let decoded = calls.iter().map(|_| None).collect();
    let finals = final_tool_calls(calls, decoded)
        .map(|v| v.into_iter().zip(texts).map(|(c, t)| (c.function.name, t)).collect());
    (deltas, finals)
}

#[test]
fn extra_lines_and_chunking_do_not_change_the_events() {
    let plain = ["data: text:Hel\ndata: text:lo\ndata: call:search:{\"q\":\ndata: call::1}\ndata: [DONE]\n"];
    let noisy = [
        "\n: keep-alive\nevent: mess",
        "age\ndata: text:Hel\ndata: {not json\n\ndata: empty\nda",
        "ta: text:lo\n  \ndata: call:search:{\"q\":\ndata: call::1}\ndata: [DONE]\ndata: text:late\n",
    ];
    let a = events(&plain);
    let b = events(&noisy);
    assert_eq!(a, b);
    assert_eq!(a.0, vec!["Hel".to_string(), "lo".to_string()]);
    assert_eq!(a.1, Some(vec![("search".to_string(), "{\"q\":1}".to_string())]));
}

#[test]
fn no_named_call_reports_no_tool_calls() {
    let (deltas, calls) = events(&["data: text:hi\ndata: call::{}\n"]);
    assert_eq!(deltas, vec!["hi".to_string()]);
    assert!(calls.is_none());
}

#[test]
fn ignored_items_change_nothing() {
    assert!(matches!(stream_item(SseLine::Ignore, Some(text_chunk("x"))), StreamItem::Ignore));
    assert!(matches!(stream_item(SseLine::Done, None), StreamItem::Done));
    assert!(matches!(stream_item(SseLine::Data("{".to_string()), None), StreamItem::Ignore));
    let mut session = StreamSession::new();
    session.on_item(&StreamItem::Done);
    let after = session.on_item(&text_chunk_item("late"));
    assert!(after.delta.is_none());
    assert!(session.ended);
}

fn text_chunk_item(t: &str) -> StreamItem {
    StreamItem::Chunk(text_chunk(t))
}
