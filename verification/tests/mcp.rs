use helix_desktop::engine::HostOs;
use helix_desktop::json::{JsonMember, JsonNumber, JsonValue};
use helix_desktop::mcp::{
    bundled_skills_plugin, github_source_from_parts, has_build_script, installed_plugin, is_skill_file_name, js_string_body,
    node_tool_program, normalize_github_source, package_launch, plugin_entry, plugin_from_config, process_has_no_stdin,
    process_not_found, rpc_error_message, skill_package_name, skills_server_candidates, skips_in_skill_search,
    stdin_payload, verification_outcome, verifier_reply, zipball_entry_path, zipball_url, McpServerConfig,
    NodeTool, PluginEntry, PluginLaunch, ProcessTable, SkillsServerBase, UrlParts, VerifierRead, VerifierReply,
};

fn s(text: &str) -> JsonValue {
    JsonValue::Str(text.to_string())
}

fn obj(members: Vec<(&str, JsonValue)>) -> JsonValue {
    JsonValue::Object(
        members.into_iter().map(|(k, v)| JsonMember { key: k.to_string(), value: v }).collect(),
    )
}

fn num(n: i64) -> JsonValue {
    JsonValue::Number(JsonNumber { as_i64: Some(n), text: n.to_string() })
}

fn strings(v: &[&str]) -> Vec<String> {
    v.iter().map(|x| x.to_string()).collect()
}

#[test]
fn config_entries_become_plugins() {
    let config = McpServerConfig {
        command: Some("npx".to_string()),
        args: Some(strings(&["-y", "server"])),
        env: Some(vec![("KEY".to_string(), "v".to_string())]),
        url: None,
        cwd: Some("/tmp".to_string()),
    };
    let p = plugin_from_config("files".to_string(), config);
    assert_eq!(p.id, "mcp_files");
    assert_eq!(p.name, "files");
    assert_eq!(p.command.as_deref(), Some("npx"));
    assert_eq!(p.args, Some(strings(&["-y", "server"])));
    assert_eq!(p.env, Some(vec![("KEY".to_string(), "v".to_string())]));
    assert_eq!(p.cwd.as_deref(), Some("/tmp"));
    assert!(p.enabled.is_none() && p.verified.is_none() && p.verified_at.is_none() && p.verify_error.is_none());
}

#[test]
fn bundled_server_is_offered_disabled() {
    let p = bundled_skills_plugin("/app/skills-server/dist/index.js".to_string(), Some("/app".to_string()), "/data/plugins".to_string());
    assert_eq!(p.id, "helix-skills");
    assert_eq!(p.name, "HELIX Skills");
    assert_eq!(p.command.as_deref(), Some("node"));
    assert_eq!(p.args, Some(strings(&["/app/skills-server/dist/index.js"])));
    assert_eq!(p.env, Some(vec![("HELIX_PLUGINS_DIR".to_string(), "/data/plugins".to_string())]));
    assert_eq!(p.enabled, Some(false));
    assert_eq!(p.cwd.as_deref(), Some("/app"));
}

#[test]
fn bundled_server_candidates_in_order() {
    let all = skills_server_candidates(true, true, true);
    assert_eq!(all.len(), 7);
    assert!(matches!(all[0].base, SkillsServerBase::ExeDir));
    assert_eq!(all[0].path, vec!["_up_", "skills-server", "dist", "index.js"]);
    assert_eq!(all[1].path, vec!["skills-server", "dist", "index.js"]);
    assert!(matches!(all[2].base, SkillsServerBase::ResourceDir));
    assert!(matches!(all[4].base, SkillsServerBase::ResourceParent));
    assert!(matches!(all[6].base, SkillsServerBase::SourceDir));
    assert_eq!(all[6].path, vec!["..", "skills-server", "dist", "index.js"]);

    let dev_only = skills_server_candidates(false, false, true);
    assert_eq!(dev_only.len(), 1);
    assert!(matches!(dev_only[0].base, SkillsServerBase::SourceDir));
    assert_eq!(skills_server_candidates(false, true, false).len(), 3);
}

#[test]
fn process_table_tracks_processes_by_id() {
    let mut table: ProcessTable<u32> = ProcessTable::new();
    assert!(table.get("a").is_none());
    assert_eq!(table.insert("a".to_string(), 1), None);
    assert_eq!(table.insert("b".to_string(), 2), None);
    assert_eq!(table.get("a"), Some(&1));
    assert_eq!(table.insert("a".to_string(), 3), Some(1));
    assert_eq!(table.get("a"), Some(&3));
    assert_eq!(table.remove("a"), Some(3));
    assert!(table.get("a").is_none());
    assert_eq!(table.remove("a"), None);
    assert_eq!(table.get("b"), Some(&2));
}

#[test]
fn plugin_io_messages() {
    assert_eq!(stdin_payload("{\"id\":1}"), "{\"id\":1}\n");
    assert_eq!(process_not_found("p1"), "Process p1 not found");
    assert_eq!(process_has_no_stdin("p1"), "Process p1 has no stdin");
}

#[test]
fn github_sources_are_read() {
    let plain = normalize_github_source("https://github.com/acme/tool.git").expect("a repository link");
    assert_eq!(plain.owner, "acme");
    assert_eq!(plain.repo, "tool");
    assert_eq!(plain.clone_url, "https://github.com/acme/tool.git");
    assert!(plain.branch.is_none() && plain.subdir.is_none());

    let tree = normalize_github_source("https://github.com/acme/mono/tree/main/plugins/web").expect("a tree link");
    assert_eq!(tree.repo, "mono");
    assert_eq!(tree.branch.as_deref(), Some("main"));
    assert_eq!(tree.subdir, Some(strings(&["plugins", "web"])));

    let blob = normalize_github_source("https://github.com/acme/mono/blob/dev/a").expect("a blob link");
    assert_eq!(blob.branch.as_deref(), Some("dev"));
    assert_eq!(blob.subdir, Some(strings(&["a"])));

    let short_tree = normalize_github_source("https://github.com/acme/mono/tree/main").expect("too short for a folder");
    assert!(short_tree.branch.is_none());
}

#[test]
fn github_sources_are_refused() {
    assert_eq!(
        normalize_github_source("http://github.com/acme/tool").err().as_deref(),
        Some("Only HTTPS github.com plugin URLs are supported.")
    );
    assert_eq!(
        normalize_github_source("https://gitlab.com/acme/tool").err().as_deref(),
        Some("Only HTTPS github.com plugin URLs are supported.")
    );
    assert_eq!(
        normalize_github_source("https://github.com/acme").err().as_deref(),
        Some("GitHub URL must include an owner and repository.")
    );
    let bad = normalize_github_source("not a url").err().expect("unparsable");
    assert!(bad.starts_with("Invalid GitHub URL: "), "{bad}");
}

#[test]
fn zipballs() {
    assert_eq!(zipball_url("acme", "tool", None), "https://api.github.com/repos/acme/tool/zipball/HEAD");
    assert_eq!(zipball_url("acme", "tool", Some("dev")), "https://api.github.com/repos/acme/tool/zipball/dev");
    assert_eq!(zipball_entry_path(strings(&["acme-tool-123"])), None);
    assert_eq!(zipball_entry_path(vec![]), None);
    assert_eq!(
        zipball_entry_path(strings(&["acme-tool-123", "src", "index.js"])),
        Some(strings(&["src", "index.js"]))
    );
}

#[test]
fn skill_files_are_found_by_name() {
    assert!(is_skill_file_name("SKILL.md"));
    assert!(is_skill_file_name("skill.MD"));
    assert!(!is_skill_file_name("skills.md"));
    assert!(!is_skill_file_name("README.md"));
    assert!(skips_in_skill_search(".git"));
    assert!(skips_in_skill_search("node_modules"));
    assert!(!skips_in_skill_search("src"));
}

#[test]
fn packages_say_how_they_start() {
    let bin_str = obj(vec![("bin", s("dist/cli.js")), ("main", s("index.js"))]);
    assert!(matches!(package_launch(&bin_str), Ok(PluginLaunch::NodeScript(p)) if p == "dist/cli.js"));
    let bin_map = obj(vec![("bin", obj(vec![("tool", s("bin/tool.js")), ("other", s("x.js"))]))]);
    assert!(matches!(package_launch(&bin_map), Ok(PluginLaunch::NodeScript(p)) if p == "bin/tool.js"));
    let bin_empty = obj(vec![("bin", obj(vec![]))]);
    assert_eq!(package_launch(&bin_empty).err().as_deref(), Some("package.json has no runnable bin entry."));
    let main = obj(vec![("main", s("server.js"))]);
    assert!(matches!(package_launch(&main), Ok(PluginLaunch::NodeScript(p)) if p == "server.js"));
    let neither = obj(vec![("name", s("x"))]);
    assert!(matches!(package_launch(&neither), Ok(PluginLaunch::Npx)));
    let main_not_string = obj(vec![("main", num(3))]);
    assert!(matches!(package_launch(&main_not_string), Ok(PluginLaunch::Npx)));

    assert!(has_build_script(&obj(vec![("scripts", obj(vec![("build", s("tsc"))]))])));
    assert!(!has_build_script(&obj(vec![("scripts", obj(vec![("test", s("jest"))]))])));
    assert!(!has_build_script(&neither));
}

#[test]
fn installed_plugins_record_their_verification() {
    let ok = installed_plugin(
        "Web".to_string(),
        "web",
        "node".to_string(),
        strings(&["/p/web/index.js"]),
        "/p/web".to_string(),
        Ok(()),
        "2025-01-01T00:00:00+00:00".to_string(),
    );
    assert_eq!(ok.id, "awesome_web");
    assert_eq!(ok.enabled, Some(true));
    assert_eq!(ok.verified, Some(true));
    assert!(ok.verify_error.is_none());
    assert_eq!(ok.verified_at.as_deref(), Some("2025-01-01T00:00:00+00:00"));
    let failed = installed_plugin(
        "Web".to_string(),
        "web",
        "node".to_string(),
        vec![],
        "/p/web".to_string(),
        Err("Plugin verification timed out.".to_string()),
        "t".to_string(),
    );
    assert_eq!(failed.verified, Some(false));
    assert_eq!(failed.verify_error.as_deref(), Some("Plugin verification timed out."));
}

#[test]
fn verifier_reads_replies() {
    let tools = obj(vec![
        ("id", num(2)),
        (
            "result",
            obj(vec![(
                "tools",
                JsonValue::Array(vec![obj(vec![("name", s("search"))]), obj(vec![("title", s("x"))]), obj(vec![("name", s("read"))])]),
            )]),
        ),
    ]);
    match verifier_reply(&tools) {
        VerifierReply::Tools(names) => assert_eq!(names, strings(&["search", "read"])),
        _ => panic!("the id 2 reply lists the tools"),
    }
    let error = obj(vec![("id", num(1)), ("error", obj(vec![("code", num(-1))]))]);
    assert!(matches!(verifier_reply(&error), VerifierReply::Error));
    let init = obj(vec![("id", num(1)), ("result", obj(vec![]))]);
    assert!(matches!(verifier_reply(&init), VerifierReply::Other));
    assert_eq!(rpc_error_message("{\"code\":-1}"), "Plugin verification JSON-RPC error: {\"code\":-1}");
}

#[test]
fn verification_outcomes() {
    assert_eq!(verification_outcome(VerifierRead::Finished, strings(&["a"]), "noise"), Ok(strings(&["a"])));
    assert_eq!(
        verification_outcome(VerifierRead::Finished, vec![], ""),
        Err("Plugin started but returned no tools.".to_string())
    );
    assert_eq!(
        verification_outcome(VerifierRead::Finished, vec![], "boom"),
        Err("Plugin returned no tools. stderr: boom".to_string())
    );
    assert_eq!(
        verification_outcome(VerifierRead::RpcError("bad".to_string()), strings(&["a"]), ""),
        Err("bad".to_string())
    );
    assert_eq!(verification_outcome(VerifierRead::TimedOut, vec![], ""), Err("Plugin verification timed out.".to_string()));
    assert_eq!(
        verification_outcome(VerifierRead::TimedOut, vec![], "slow"),
        Err("Plugin verification timed out. stderr: slow".to_string())
    );
}

#[test]
fn node_tooling() {
    assert_eq!(node_tool_program(HostOs::Windows, NodeTool::Npm), "npm.cmd");
    assert_eq!(node_tool_program(HostOs::Windows, NodeTool::Node), "node.exe");
    assert_eq!(node_tool_program(HostOs::Windows, NodeTool::Npx), "npx.cmd");
    assert_eq!(node_tool_program(HostOs::Linux, NodeTool::Npm), "npm");
    assert_eq!(node_tool_program(HostOs::MacOs, NodeTool::Npx), "npx");
    assert_eq!(skill_package_name(Some("my-skill")), "my-skill");
    assert_eq!(skill_package_name(None), "helix-converted-skill");
}

#[test]
fn wrapper_paths_are_escaped_for_javascript() {
    assert_eq!(js_string_body(r#"C:\Users\a "b"\skill"#), r#"C:\\Users\\a \"b\"\\skill"#);
    assert_eq!(js_string_body("/plain/path"), "/plain/path");
}

fn parts(scheme: &str, host: Option<&str>, segments: Option<&[&str]>) -> Result<UrlParts, String> {
    Ok(UrlParts {
        scheme: scheme.to_string(),
        host: host.map(|h| h.to_string()),
        segments: segments.map(strings),
    })
}

#[test]
fn parsed_urls_are_judged() {
    let g = github_source_from_parts(parts("https", Some("github.com"), Some(&["acme", "tool.git.git", "tree", "v1", "a", "b"])))
        .expect("a tree link");
    assert_eq!(g.owner, "acme");
    assert_eq!(g.repo, "tool");
    assert_eq!(g.clone_url, "https://github.com/acme/tool.git");
    assert_eq!(g.branch.as_deref(), Some("v1"));
    assert_eq!(g.subdir, Some(strings(&["a", "b"])));
    assert_eq!(
        github_source_from_parts(Err("relative URL without a base".to_string())).err().as_deref(),
        Some("Invalid GitHub URL: relative URL without a base")
    );
    assert_eq!(
        github_source_from_parts(parts("https", None, Some(&["a", "b"]))).err().as_deref(),
        Some("Only HTTPS github.com plugin URLs are supported.")
    );
    assert_eq!(
        github_source_from_parts(parts("https", Some("github.com"), None)).err().as_deref(),
        Some("GitHub URL must include an owner and repository.")
    );
}

#[test]
fn repositories_run_as_skills_or_packages() {
    let pkg = obj(vec![("main", s("server.js"))]);
    assert!(matches!(plugin_entry(true, Some(Ok(&pkg))), Ok(PluginEntry::ConvertedSkills)));
    assert!(matches!(plugin_entry(true, None), Ok(PluginEntry::ConvertedSkills)));
    assert!(matches!(
        plugin_entry(false, Some(Ok(&pkg))),
        Ok(PluginEntry::Package(PluginLaunch::NodeScript(p))) if p == "server.js"
    ));
    assert!(matches!(plugin_entry(false, Some(Ok(&obj(vec![])))), Ok(PluginEntry::Package(PluginLaunch::Npx))));
    assert_eq!(
        plugin_entry(false, Some(Ok(&obj(vec![("bin", num(1))])))).err().as_deref(),
        Some("package.json has no runnable bin entry.")
    );
    assert_eq!(
        plugin_entry(false, Some(Err("expected value at line 1 column 1".to_string()))).err().as_deref(),
        Some("expected value at line 1 column 1")
    );
    assert_eq!(
        plugin_entry(false, None).err().as_deref(),
        Some("This repository does not expose package.json or any SKILL.md files to convert.")
    );
}
