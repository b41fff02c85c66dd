use blinkview::startup::{desktop_exec_escape, platform_set_enabled, xml_escape, Platform, StartupPlan};

#[test]
fn desktop_exec_value_is_quoted_and_escaped() {
    assert_eq!(desktop_exec_escape("/usr/bin/blinkview"), "\"/usr/bin/blinkview\"");
    assert_eq!(desktop_exec_escape(r#"/opt/my "app"\bin"#), r#""/opt/my \"app\"\\bin""#);
}

#[test]
fn xml_text_is_escaped() {
    assert_eq!(xml_escape("a&b<c>\"d'e"), "a&amp;b&lt;c&gt;&quot;d&apos;e");
    assert_eq!(xml_escape("/Applications/Blink View"), "/Applications/Blink View");
    assert_eq!(xml_escape("&amp;"), "&amp;amp;");
}

#[test]
fn linux_autostart_entry() {
    match platform_set_enabled(Platform::Linux, "/usr/bin/blinkview", true) {
        StartupPlan::WriteFile { dir, file, contents } => {
            assert_eq!(dir, ".config/autostart");
            assert_eq!(file, "blinkview-background.desktop");
            assert_eq!(
                contents,
                "[Desktop Entry]\nType=Application\nName=BlinkView Background\nExec=\"/usr/bin/blinkview\" --background\nTerminal=false\nX-GNOME-Autostart-enabled=true\nNoDisplay=true\n"
            );
        }
        _ => panic!(),
    }
    match platform_set_enabled(Platform::Linux, "/usr/bin/blinkview", false) {
        StartupPlan::RemoveFile { dir, file } => {
            assert_eq!(dir, ".config/autostart");
            assert_eq!(file, "blinkview-background.desktop");
        }
        _ => panic!(),
    }
}

#[test]
fn macos_launch_agent() {
    match platform_set_enabled(Platform::MacOs, "/Apps/A&B/blinkview", true) {
        StartupPlan::WriteFile { dir, file, contents } => {
            assert_eq!(dir, "Library/LaunchAgents");
            assert_eq!(file, "me.tamkungz.blinkview.background.plist");
            assert!(contents.starts_with("<?xml version=\"1.0\" encoding=\"UTF-8\"?>\n"));
            assert!(contents.contains("<array><string>/Apps/A&amp;B/blinkview</string><string>--background</string></array>"));
            assert!(contents.ends_with("</dict>\n</plist>\n"));
        }
        _ => panic!(),
    }
    assert!(matches!(
        platform_set_enabled(Platform::MacOs, "/x", false),
        StartupPlan::RemoveFile { .. }
    ));
}

#[test]
fn windows_registry_arguments() {
    match platform_set_enabled(Platform::Windows, r"C:\Apps\blinkview.exe", true) {
        StartupPlan::Registry { args, enabling } => {
            assert!(enabling);
            assert_eq!(
                args,
                vec![
                    "ADD",
                    r"HKCU\Software\Microsoft\Windows\CurrentVersion\Run",
                    "/v",
                    "BlinkView",
                    "/t",
                    "REG_SZ",
                    "/d",
                    r#""C:\Apps\blinkview.exe" --background"#,
                    "/f"
                ]
            );
        }
        _ => panic!(),
    }
    match platform_set_enabled(Platform::Windows, "x", false) {
        StartupPlan::Registry { args, enabling } => {
            assert!(!enabling);
            assert_eq!(
                args,
                vec!["DELETE", r"HKCU\Software\Microsoft\Windows\CurrentVersion\Run", "/v", "BlinkView", "/f"]
            );
        }
        _ => panic!(),
    }
    assert!(matches!(platform_set_enabled(Platform::Other, "x", true), StartupPlan::Unsupported));
}
