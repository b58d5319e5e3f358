use helix_desktop::engine::{
    extracts_entry, help_flash_attn_takes_value, installed_is_current, is_engine_artifact,
    llama_server_flags, pick_asset_suffix, pick_release, record_active_server, reuse_or_replace,
    server_binary_name, server_threads, stop_server, sweeps_entry, engine_status,
    ActiveLlamaServer, GithubAsset, GithubRelease, HostOs, ServerReuse, ServerStartup,
    StartupEvent, StartupStep,
};

fn asset(name: &str, url: &str) -> GithubAsset {
    GithubAsset { name: name.to_string(), browser_download_url: url.to_string() }
}

/// The exact situation that stranded an install on a 2025-era engine:
/// llama.cpp had just tagged b10297 and uploaded only the CUDA runtime
/// archive, with the platform builds still going up.
fn releases_mid_upload() -> Vec<GithubRelease> {
    vec![
        GithubRelease {
            tag_name: "b10297".to_string(),
            assets: vec![asset(
                "cudart-llama-bin-win-cuda-12.4-x64.zip",
                "https://example.invalid/cudart.zip",
            )],
        },
        GithubRelease { tag_name: "b10296".to_string(), assets: vec![] },
        GithubRelease {
            tag_name: "b10295".to_string(),
            assets: vec![
                asset("llama-b10295-bin-win-cuda-12.4-x64.zip", "https://example.invalid/cuda.zip"),
                asset("llama-b10295-bin-win-vulkan-x64.zip", "https://example.invalid/vulkan.zip"),
            ],
        },
    ]
}

#[test]
fn skips_releases_whose_platform_asset_has_not_uploaded_yet() {
    let (tag, asset, url) = pick_release(releases_mid_upload(), "bin-win-vulkan-x64.zip")
        .expect("a complete release exists further down the list");

    assert_eq!(tag, "b10295", "must skip the incomplete newest release");
    assert_eq!(asset, "llama-b10295-bin-win-vulkan-x64.zip");
    assert_eq!(url, "https://example.invalid/vulkan.zip");
}

#[test]
fn reports_nothing_rather_than_guessing_when_no_release_matches() {
    assert!(pick_release(releases_mid_upload(), "bin-macos-arm64.zip").is_none());
}

#[test]
fn engine_artifact_filter_matches_what_the_archive_ships() {
    for name in [
        "llama-server.exe",
        "llama-server-impl.dll",
        "ggml-cpu.dll",
        "ggml-cpu-zen4.dll",
        "ggml-vulkan.dll",
        "llama.dll",
        "libcurl-x64.dll",
        "libggml.so",
        "libllama.dylib",
    ] {
        assert!(is_engine_artifact(name), "{name} should be engine-owned");
    }

    for name in [
        "llama-cli.exe",
        "llama-bench.exe",
        "ggml-rpc-server.exe",
        "version.txt",
        "llama-b10295-bin-win-vulkan-x64.zip",
        "mistral-7b-q4_k_m.gguf",
    ] {
        assert!(!is_engine_artifact(name), "{name} should be left alone");
    }
}

#[test]
fn artifact_extension_edge_cases() {
    assert!(!is_engine_artifact(".dll"));
    assert!(!is_engine_artifact("dll"));
    assert!(!is_engine_artifact(""));
    assert!(is_engine_artifact("a.b.so"));
    assert!(!is_engine_artifact("libfoo.so.1"));
    assert!(is_engine_artifact("llama-server"));
}

#[test]
fn picks_the_first_release_with_the_first_matching_asset() {
    let releases = vec![GithubRelease {
        tag_name: "b1".to_string(),
        assets: vec![asset("x-bin-macos-arm64.zip", "u1"), asset("y-bin-macos-arm64.zip", "u2")],
    }];
    let (tag, name, url) = pick_release(releases, "bin-macos-arm64.zip").unwrap();
    assert_eq!((tag.as_str(), name.as_str(), url.as_str()), ("b1", "x-bin-macos-arm64.zip", "u1"));
    assert!(pick_release(Vec::new(), "zip").is_none());
}

#[test]
fn asset_suffix_per_platform() {
    assert_eq!(pick_asset_suffix(HostOs::Windows, true), "bin-win-vulkan-x64.zip");
    assert_eq!(pick_asset_suffix(HostOs::Windows, false), "bin-win-arm64.zip");
    assert_eq!(pick_asset_suffix(HostOs::MacOs, false), "bin-macos-arm64.zip");
    assert_eq!(pick_asset_suffix(HostOs::Linux, true), "bin-ubuntu-x64.zip");
    assert_eq!(server_binary_name(HostOs::Windows), "llama-server.exe");
    assert_eq!(server_binary_name(HostOs::Linux), "llama-server");
}

#[test]
fn sweep_and_extraction_judge_lowercased_names() {
    // Would fail if the names were not lowercased first.
    assert!(sweeps_entry("GGML-CPU.DLL", false));
    assert!(sweeps_entry("LLAMA-SERVER.EXE", false));
    assert!(!sweeps_entry("llama-server.exe", true));
    assert!(!sweeps_entry("version.txt", false));
    assert!(!sweeps_entry("notes.txt", false));
    assert!(extracts_entry("Libllama.DyLib", false));
    assert!(!extracts_entry("ggml.dll", true));
    assert!(!extracts_entry("llama-cli.exe", false));
}

#[test]
fn installed_version_check() {
    assert!(installed_is_current("b10295\n", "b10295", true));
    assert!(!installed_is_current("b10295", "b10295", false));
    assert!(!installed_is_current("b10294", "b10295", true));
    assert!(!installed_is_current("  ", "", true));
}

#[test]
fn flash_attention_flag_detection() {
    let new_help = "usage\n-fa,   --flash-attn [on|off|auto]   set Flash Attention use\n--other [x]\n";
    let old_help = "usage\n-fa,   --flash-attn          enable Flash Attention\n--other [x]\n";
    assert!(help_flash_attn_takes_value(new_help));
    assert!(!help_flash_attn_takes_value(old_help));
    assert!(!help_flash_attn_takes_value(""));
    assert!(!help_flash_attn_takes_value("nothing [here]"));
    assert!(help_flash_attn_takes_value("--flash-attn [auto]"));
}

#[test]
fn threads_and_flags() {
    assert_eq!(server_threads(Some(8)), 7);
    assert_eq!(server_threads(Some(1)), 1);
    assert_eq!(server_threads(None), 4);
    let flags = llama_server_flags(7, 99, true);
    let expected = [
        "--port", "11435", "-c", "8192", "-b", "2048", "-ub", "512", "-t", "7", "-ngl", "99", "-np",
        "1", "--mmap", "-fa", "auto",
    ];
    assert_eq!(flags, expected.iter().map(|s| s.to_string()).collect::<Vec<_>>());
    let flags = llama_server_flags(3, 0, false);
    assert_eq!(flags.last().map(|s| s.as_str()), Some("-fa"));
    assert_eq!(flags[11], "0");
}

#[test]
fn server_slot_lifecycle() {
    let mut slot: Option<ActiveLlamaServer<u32>> = None;
    assert!(matches!(reuse_or_replace(&mut slot, false, false), ServerReuse::Spawn { kill: None }));
    record_active_server(&mut slot, "/models/a.gguf".to_string(), 7);
    let status = engine_status(true, &slot);
    assert!(status.ready && status.binary_found);
    assert_eq!(status.active_model.as_deref(), Some("/models/a.gguf"));
    assert!(matches!(reuse_or_replace(&mut slot, true, true), ServerReuse::KeepRunning));
    assert!(slot.is_some());
    assert!(matches!(reuse_or_replace(&mut slot, false, true), ServerReuse::Spawn { kill: Some(7) }));
    assert!(slot.is_none());
    record_active_server(&mut slot, "/models/b.gguf".to_string(), 8);
    assert!(matches!(reuse_or_replace(&mut slot, true, false), ServerReuse::Spawn { kill: None }));
    assert!(slot.is_none());
    record_active_server(&mut slot, "/models/b.gguf".to_string(), 9);
    assert_eq!(stop_server(&mut slot), Some(9));
    assert_eq!(stop_server(&mut slot), None);
    let status = engine_status(false, &slot);
    assert!(!status.ready && !status.binary_found && status.active_model.is_none());
}

#[test]
fn startup_falls_back_to_cpu_then_fails() {
    let (mut s, first) = ServerStartup::new();
    assert!(matches!(first, StartupStep::Spawn { ngl: 99 }));
    let next = s.on_event(StartupEvent::Exited {
        status: "exit status: 1".to_string(),
        stderr: "  out of memory \n".to_string(),
    });
    assert!(matches!(next, StartupStep::Spawn { ngl: 0 }));
    match s.on_event(StartupEvent::TimedOut) {
        StartupStep::Fail(m) => assert_eq!(
            m,
            "Failed to start llama-server engine: `llama-server` timed out while loading model into memory"
        ),
        _ => panic!("expected failure"),
    }
}

#[test]
fn startup_messages() {
    let (mut s, _) = ServerStartup::new();
    let _ = s.on_event(StartupEvent::SpawnFailed("no such file".to_string()));
    match s.on_event(StartupEvent::Exited { status: "exit status: 2".to_string(), stderr: "boom".to_string() }) {
        StartupStep::Fail(m) => {
            assert_eq!(m, "Failed to start llama-server engine: llama-server exited with status exit status: 2: boom")
        }
        _ => panic!("expected failure"),
    }
    let (mut s, _) = ServerStartup::new();
    assert!(matches!(s.on_event(StartupEvent::Healthy), StartupStep::Ready));
    let (mut s, _) = ServerStartup::new();
    let _ = s.on_event(StartupEvent::WaitFailed("denied".to_string()));
    match s.on_event(StartupEvent::Exited { status: "signal: 9".to_string(), stderr: "   ".to_string() }) {
        StartupStep::Fail(m) => assert_eq!(m, "Failed to start llama-server engine: llama-server exited with status signal: 9"),
        _ => panic!("expected failure"),
    }
}

/// The sweep that precedes unpacking a new build removes what the old build
/// extracted, keeps everything else, and spares the archive being installed.
#[test]
fn upgrade_clears_the_previous_build() {
    let stale = ["llama-server.exe", "ggml-cpu.dll", "ggml-vulkan.dll"];
    let kept = ["version.txt", "notes.txt"];
    let archive = "llama-b10295-bin-win-vulkan-x64.zip";
    for name in stale {
        assert!(sweeps_entry(name, false), "{name} should have been removed");
    }
    for name in kept {
        assert!(!sweeps_entry(name, false), "{name} should have been kept");
    }
    assert!(
        !sweeps_entry(archive, true),
        "the archive being installed must survive the sweep that precedes unpacking it"
    );
}
