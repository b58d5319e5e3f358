use helix_desktop::chat::{
    to_data_url, to_openai_messages, ChatMessage, OpenAiArguments, OpenAiContent, OpenAiContentPart,
    ToolCallChunk, ToolCallFunction,
};
use helix_desktop::json::{JsonMember, JsonValue};

fn message(role: &str, content: &str) -> ChatMessage {
    ChatMessage { role: role.to_string(), content: content.to_string(), images: None, tool_calls: None }
}

fn call(id: Option<&str>, name: &str, arguments: JsonValue) -> ToolCallChunk {
    ToolCallChunk {
        id: id.map(|s| s.to_string()),
        function: ToolCallFunction { name: name.to_string(), arguments },
    }
}

fn text_of(content: &Option<OpenAiContent>) -> Option<String> {
    match content {
        Some(OpenAiContent::Text(t)) => Some(t.clone()),
        _ => None,
    }
}

#[test]
fn data_url_sniffs_the_image_container() {
    assert_eq!(to_data_url("iVBORw0KGgo"), "data:image/png;base64,iVBORw0KGgo");
    assert_eq!(to_data_url("R0lGODlhAQ"), "data:image/gif;base64,R0lGODlhAQ");
    assert_eq!(to_data_url("UklGRiQAAABXRUJQ"), "data:image/webp;base64,UklGRiQAAABXRUJQ");
    assert_eq!(to_data_url("/9j/4AAQSkZJRg"), "data:image/jpeg;base64,/9j/4AAQSkZJRg");
}

#[test]
fn data_url_is_left_alone() {
    assert_eq!(to_data_url("data:image/png;base64,AAAA"), "data:image/png;base64,AAAA");
}

#[test]
fn tool_results_are_paired_with_the_calls_they_answer() {
    let object = JsonValue::Object(vec![JsonMember {
        key: "q".to_string(),
        value: JsonValue::Str("rust".to_string()),
    }]);
    let mut assistant = message("assistant", "");
    assistant.tool_calls = Some(vec![
        call(Some("abc"), "search", object),
        call(None, "read", JsonValue::Str("{\"path\":\"a\"}".to_string())),
    ]);
    let history = vec![
        message("user", "find it"),
        assistant,
        message("tool", "first result"),
        message("tool", "second result"),
        message("tool", "stray result"),
    ];
    let out = to_openai_messages(history);
    assert_eq!(out.len(), 5);

    assert_eq!(out[0].role, "user");
    assert_eq!(text_of(&out[0].content), Some("find it".to_string()));
    assert!(out[0].tool_calls.is_none());

    assert_eq!(out[1].role, "assistant");
    assert!(out[1].content.is_none(), "a tool-only assistant turn has no content");
    let calls = out[1].tool_calls.as_ref().expect("the calls are forwarded");
    assert_eq!(calls.len(), 2);
    assert_eq!(calls[0].id, "abc");
    assert_eq!(calls[0].kind, "function");
    assert_eq!(calls[0].function.name, "search");
    assert!(matches!(calls[0].function.arguments, OpenAiArguments::Encoded(JsonValue::Object(_))));
    assert_eq!(calls[1].id, "call_1_1");
    match &calls[1].function.arguments {
        OpenAiArguments::Verbatim(s) => assert_eq!(s, "{\"path\":\"a\"}"),
        _ => panic!("string arguments are sent verbatim"),
    }

    assert_eq!(out[2].role, "tool");
    assert_eq!(out[2].tool_call_id.as_deref(), Some("abc"));
    assert_eq!(text_of(&out[2].content), Some("first result".to_string()));
    assert_eq!(out[3].tool_call_id.as_deref(), Some("call_1_1"));
    assert_eq!(out[4].tool_call_id, None);
}

#[test]
fn a_new_tool_turn_replaces_unclaimed_ids() {
    let mut first = message("assistant", "thinking");
    first.tool_calls = Some(vec![call(None, "a", JsonValue::Null), call(None, "b", JsonValue::Null)]);
    let mut second = message("assistant", "again");
    second.tool_calls = Some(vec![call(None, "c", JsonValue::Null)]);
    let out = to_openai_messages(vec![first, message("tool", "r1"), second, message("tool", "r2")]);
    assert_eq!(text_of(&out[0].content), Some("thinking".to_string()));
    assert_eq!(out[1].tool_call_id.as_deref(), Some("call_0_0"));
    assert_eq!(out[3].tool_call_id.as_deref(), Some("call_2_0"));
}

#[test]
fn images_become_content_parts_after_the_text() {
    let mut with_images = message("user", "what is this");
    with_images.images = Some(vec!["iVBORxyz".to_string(), "data:image/gif;base64,R0lG".to_string()]);
    let mut images_only = message("user", "");
    images_only.images = Some(vec!["/9j/abc".to_string()]);
    let mut empty_images = message("user", "plain");
    empty_images.images = Some(vec![]);
    let out = to_openai_messages(vec![with_images, images_only, empty_images]);

    match &out[0].content {
        Some(OpenAiContent::Parts(parts)) => {
            assert_eq!(parts.len(), 3);
            assert!(matches!(&parts[0], OpenAiContentPart::Text { text } if text == "what is this"));
            assert!(matches!(&parts[1], OpenAiContentPart::ImageUrl { image_url } if image_url.url == "data:image/png;base64,iVBORxyz"));
            assert!(matches!(&parts[2], OpenAiContentPart::ImageUrl { image_url } if image_url.url == "data:image/gif;base64,R0lG"));
        },
        _ => panic!("images are sent as parts"),
    }
    match &out[1].content {
        Some(OpenAiContent::Parts(parts)) => {
            assert_eq!(parts.len(), 1);
            assert!(matches!(&parts[0], OpenAiContentPart::ImageUrl { image_url } if image_url.url == "data:image/jpeg;base64,/9j/abc"));
        },
        _ => panic!("images are sent as parts"),
    }
    assert_eq!(text_of(&out[2].content), Some("plain".to_string()));
}

#[test]
fn wrapping_twice_changes_nothing() {
    for image in ["iVBORw0KGgo", "R0lGODlhAQ", "/9j/4AAQ", "data:image/png;base64,AAAA", ""] {
        let once = to_data_url(image);
        assert_eq!(to_data_url(&once), once);
    }
}
