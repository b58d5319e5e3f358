use helix_desktop::desktop::{is_stale_download, open_url_command};
use helix_desktop::engine::{orphan_kill_command, HostOs};
use helix_desktop::hardware::{hardware_info, GpuInfo};

#[test]
fn links_open_with_the_platform_opener() {
    let win = open_url_command(HostOs::Windows, "https://a.example/?q=1").expect("windows opens links");
    assert_eq!(win.program, "cmd");
    assert_eq!(win.args, vec!["/C", "start", "", "https://a.example/?q=1"]);
    let mac = open_url_command(HostOs::MacOs, "https://a.example").expect("macOS opens links");
    assert_eq!(mac.program, "open");
    assert_eq!(mac.args, vec!["https://a.example"]);
    let linux = open_url_command(HostOs::Linux, "https://a.example").expect("linux opens links");
    assert_eq!(linux.program, "xdg-open");
    assert_eq!(linux.args, vec!["https://a.example"]);
    assert!(open_url_command(HostOs::Other, "https://a.example").is_none());
}

#[test]
fn interrupted_downloads_are_recognised() {
    assert!(is_stale_download("cerberus-1234.gguf"));
    assert!(is_stale_download("cerberus-.gguf"));
    assert!(!is_stale_download("cerberus-1234.gguf.part"));
    assert!(!is_stale_download("model.gguf"));
    assert!(!is_stale_download("cerberus.gguf"));
}

#[test]
fn orphans_are_swept_on_windows_only() {
    let kill = orphan_kill_command(HostOs::Windows).expect("windows sweeps orphans");
    assert_eq!(kill.program, "taskkill");
    assert_eq!(kill.args, vec!["/F", "/IM", "llama-server.exe"]);
    assert!(orphan_kill_command(HostOs::Linux).is_none());
    assert!(orphan_kill_command(HostOs::MacOs).is_none());
}

#[test]
fn hardware_is_described_with_fallbacks() {
    let gpu = GpuInfo { name: "RTX".to_string(), vendor: "NVIDIA".to_string(), vram_mb: Some(8192), driver: None };
    let h = hardware_info(
        Some("Windows".to_string()),
        None,
        Some("  AMD Ryzen 7  ".to_string()),
        None,
        16,
        17_179_869_184,
        vec![gpu],
    );
    assert_eq!(h.os, "Windows");
    assert_eq!(h.os_version, "unknown");
    assert_eq!(h.cpu_brand, "AMD Ryzen 7");
    assert_eq!(h.cpu_cores, 16);
    assert_eq!(h.total_ram_mb, 16384);
    assert_eq!(h.gpus.len(), 1);
    let bare = hardware_info(None, Some("14.1".to_string()), None, Some(8), 16, 1_048_575, vec![]);
    assert_eq!(bare.os, "unknown");
    assert_eq!(bare.os_version, "14.1");
    assert_eq!(bare.cpu_brand, "Unknown CPU");
    assert_eq!(bare.cpu_cores, 8);
    assert_eq!(bare.total_ram_mb, 0);
}
