use helix_desktop::json::{JsonMember, JsonValue};
use helix_desktop::skills::{
    awesome_skills_endpoints, fuzzy_score, github_urls, html_decode, json_ld_blocks, levenshtein,
    normalize_search, parse_api_skills, parse_awesome_skills, parse_json_ld_skills, rank_search_results,
    search_query, slug, AwesomeSkill,
};

fn skill(name: &str, description: &str, url: &str) -> AwesomeSkill {
    AwesomeSkill { name: name.to_string(), description: description.to_string(), url: url.to_string() }
}

fn s(text: &str) -> JsonValue {
    JsonValue::Str(text.to_string())
}

fn obj(members: Vec<(&str, JsonValue)>) -> JsonValue {
    JsonValue::Object(
        members.into_iter().map(|(k, v)| JsonMember { key: k.to_string(), value: v }).collect(),
    )
}

fn urls_of(skills: &[AwesomeSkill]) -> Vec<String> {
    skills.iter().map(|s| s.url.clone()).collect()
}

#[test]
fn slug_keeps_ascii_words_and_collapses_the_rest() {
    assert_eq!(slug("My Cool Plugin!"), "my_cool_plugin");
    assert_eq!(slug("__A--b__"), "a--b");
    assert_eq!(slug("Héllo   wörld"), "h_llo_w_rld");
    assert_eq!(slug("!!!"), "plugin");
    assert_eq!(slug(""), "plugin");
}

#[test]
fn html_entities_are_decoded_in_order() {
    assert_eq!(html_decode("&lt;x&gt; &#39;y&#39; &quot;z&quot;"), "<x> 'y' \"z\"");
    assert_eq!(html_decode("a &amp;quot; b"), "a \" b");
    assert_eq!(html_decode("plain"), "plain");
}

#[test]
fn search_text_is_normalized() {
    assert_eq!(normalize_search("Foo-Bar_baz/Qux! 9"), "foo bar baz qux 9");
    assert_eq!(normalize_search("https://github.com/a"), "https  githubcom a");
}

#[test]
fn edit_distance() {
    assert_eq!(levenshtein("kitten", "sitting"), 3);
    assert_eq!(levenshtein("", "abc"), 3);
    assert_eq!(levenshtein("abc", ""), 3);
    assert_eq!(levenshtein("same", "same"), 0);
    assert_eq!(levenshtein("serch", "search"), 1);
}

#[test]
fn fuzzy_scores() {
    let sk = skill("Web Search", "Search the web with Brave", "https://github.com/acme/web-search");
    assert_eq!(fuzzy_score(&sk, "   "), Some(0));
    assert_eq!(fuzzy_score(&sk, "search"), Some(0));
    assert_eq!(fuzzy_score(&sk, "BRAVE!"), Some(0));
    assert_eq!(fuzzy_score(&sk, "serch"), Some(3));
    assert_eq!(fuzzy_score(&sk, "bra web"), Some(4));
    assert_eq!(fuzzy_score(&sk, "zzzzzz"), None);
}

#[test]
fn github_links_are_collected_once_each() {
    let html = [
        r#"<a href="https://github.com/acme/one/">x</a>"#,
        r#"<a href='https://github.com/acme/two.git'>y</a>"#,
        r#"<a href="http://www.github.com/acme/three">z</a>"#,
        r#"<a href="https://example.com">e</a>"#,
        r#"<a href="https://github.com/acme/one">dup</a>"#,
        r#"<a href="https://github.com/acme/four?a=1&amp;b=2">q</a>"#,
    ]
    .concat();
    assert_eq!(
        github_urls(&html),
        vec![
            "https://github.com/acme/one".to_string(),
            "https://github.com/acme/three".to_string(),
            "https://github.com/acme/four?a=1&b=2".to_string(),
            "https://github.com/acme/two".to_string(),
        ]
    );
    assert!(github_urls("<a href=\"https://github.com/unterminated").is_empty());
}

#[test]
fn listing_adds_linked_repositories_after_the_item_list() {
    let html = [
        r#"<a href="https://github.com/acme/one">one</a>"#,
        r#"<a href="https://github.com/acme/web_search-tool/">two</a>"#,
    ]
    .concat();
    let ld = vec![skill("One", "first", "https://github.com/acme/one")];
    let skills = parse_awesome_skills(&html, ld);
    assert_eq!(skills.len(), 2);
    assert_eq!(skills[0].name, "One");
    assert_eq!(skills[1].name, "web search tool");
    assert_eq!(skills[1].url, "https://github.com/acme/web_search-tool");
    assert_eq!(skills[1].description, "MCP plugin or SKILL.md repo from awesome-skills.com.");
}

#[test]
fn json_ld_blocks_are_cut_out_and_trimmed() {
    let html = [
        "x<script type=\"application/ld+json\">  {\"a\":1} \n</script>y",
        "<script type=\"application/ld+json\">[]</script>",
        "<script type=\"application/ld+json\">{\"never\":\"closed\"}",
    ]
    .concat();
    assert_eq!(json_ld_blocks(&html), vec!["{\"a\":1}".to_string(), "[]".to_string()]);
}

#[test]
fn item_lists_yield_their_github_entries() {
    let doc = obj(vec![
        ("@type", s("ItemList")),
        (
            "itemListElement",
            JsonValue::Array(vec![
                obj(vec![("item", obj(vec![("url", s("https://github.com/a/b/")), ("name", s("B"))]))]),
                obj(vec![("url", s("https://gitlab.com/x"))]),
                obj(vec![("url", s("https://github.com/c/d.git")), ("description", s("dee"))]),
            ]),
        ),
    ]);
    let other = obj(vec![("@type", s("WebSite")), ("itemListElement", JsonValue::Array(vec![]))]);
    let skills = parse_json_ld_skills(&vec![other, doc]);
    assert_eq!(skills.len(), 2);
    assert_eq!(skills[0].name, "B");
    assert_eq!(skills[0].description, "");
    assert_eq!(skills[0].url, "https://github.com/a/b");
    assert_eq!(skills[1].name, "https://github.com/c/d.git");
    assert_eq!(skills[1].description, "dee");
    assert_eq!(skills[1].url, "https://github.com/c/d");
}

#[test]
fn api_responses_are_walked_depth_first() {
    let data = obj(vec![
        ("name", s("top")),
        (
            "data",
            JsonValue::Array(vec![
                obj(vec![
                    ("name", s("  ")),
                    ("url", s("github.com/acme/tool.git/")),
                    ("summary", s(" Does things ")),
                ]),
                obj(vec![
                    ("name", s("Other")),
                    ("url", s("https://gitlab.com/x")),
                    ("githubUrl", s("https://github.com/acme/other")),
                ]),
            ]),
        ),
        (
            "skills",
            obj(vec![(
                "items",
                JsonValue::Array(vec![obj(vec![
                    ("displayName", s("Nested")),
                    ("source", s("see https://github.com/acme/nested")),
                ])]),
            )]),
        ),
    ]);
    let skills = parse_api_skills(&data).expect("three skills are listed");
    assert_eq!(
        urls_of(&skills),
        vec![
            "https://github.com/acme/nested".to_string(),
            "https://github.com/acme/tool".to_string(),
            "https://github.com/acme/other".to_string(),
        ]
    );
    assert_eq!(skills[0].name, "Nested");
    assert_eq!(skills[1].name, "tool");
    assert_eq!(skills[1].description, "Does things");
    assert_eq!(skills[2].name, "Other");
    assert_eq!(skills[2].description, "");
}

#[test]
fn api_responses_without_skills_give_none() {
    assert!(parse_api_skills(&JsonValue::Array(vec![])).is_none());
    assert!(parse_api_skills(&obj(vec![("url", s("https://example.com"))])).is_none());
    assert!(parse_api_skills(&s("https://github.com/a/b")).is_none());
}

#[test]
fn blank_queries_are_dropped() {
    assert_eq!(search_query(Some("  rust  ".to_string())), Some("rust".to_string()));
    assert_eq!(search_query(Some("   ".to_string())), None);
    assert_eq!(search_query(None), None);
}

#[test]
fn endpoints_put_the_search_first() {
    assert_eq!(
        awesome_skills_endpoints(Some("web search")),
        vec![
            "https://awesome-skills.com/api/skills?q=web%20search".to_string(),
            "https://awesome-skills.com/api/search?q=web%20search".to_string(),
            "https://awesome-skills.com/api/skills".to_string(),
            "https://awesome-skills.com/skills.json".to_string(),
            "https://awesome-skills.com/api/search".to_string(),
        ]
    );
    assert_eq!(awesome_skills_endpoints(Some("  ")).len(), 3);
    assert_eq!(awesome_skills_endpoints(None).len(), 3);
}

#[test]
fn search_results_are_unique_and_ranked() {
    let listed = vec![
        skill("Web Search", "", "https://github.com/acme/web-search"),
        skill("Alpha web", "", "https://github.com/acme/alpha"),
        skill("Web Search again", "", "https://github.com/acme/web-search"),
        skill("Other thing", "", "https://github.com/x/other"),
    ];
    let all = rank_search_results(
        listed.iter().map(|k| skill(&k.name, &k.description, &k.url)).collect(),
        None,
    );
    assert_eq!(
        all.iter().map(|k| k.name.clone()).collect::<Vec<_>>(),
        vec!["Web Search".to_string(), "Alpha web".to_string(), "Other thing".to_string()]
    );
    let found = rank_search_results(listed, Some("web"));
    assert_eq!(
        found.iter().map(|k| k.name.clone()).collect::<Vec<_>>(),
        vec!["Alpha web".to_string(), "Web Search".to_string()]
    );
}

#[test]
fn search_results_are_capped_at_fifty() {
    let listed: Vec<AwesomeSkill> = (0..60)
        .map(|i| skill(&format!("tool {i:02}"), "", &format!("https://github.com/acme/tool{i}")))
        .collect();
    let found = rank_search_results(listed, Some("tool"));
    assert_eq!(found.len(), 50);
    assert_eq!(found[0].name, "tool 00");
    assert_eq!(found[49].name, "tool 49");
}

#[test]
fn slugs_are_stable_folder_names() {
    for value in ["My Cool Plugin!", "a  __ b", "___", "x/../y", "Web-Search_Tool.v2", ""] {
        let once = slug(value);
        assert!(!once.contains("__"), "{once}");
        assert!(!once.contains('/') && !once.contains('.') && !once.contains('\\'));
        assert_eq!(slug(&once), once);
    }
    assert_eq!(slug("a  __ b"), "a_b");
    assert_eq!(slug("x/../y"), "x_y");
}
