//! Starting the viewer in background mode at login: what to write, remove or
//! register on each platform. The file system and the registry are touched by
//! the caller.
use vstd::prelude::*;
use crate::text::{push_char};

verus! {

/// Where the autostart entry lives under the home folder on Linux.
pub const LINUX_DIR: &'static str = ".config/autostart";
pub const LINUX_FILE: &'static str = "blinkview-background.desktop";
/// Where the launch agent lives under the home folder on macOS.
pub const MACOS_DIR: &'static str = "Library/LaunchAgents";
pub const MACOS_FILE: &'static str = "me.tamkungz.blinkview.background.plist";
/// The registry key of the current user's login programs on Windows.
pub const RUN_KEY: &'static str = "HKCU\\Software\\Microsoft\\Windows\\CurrentVersion\\Run";

pub const DESKTOP_HEAD: &'static str = "[Desktop Entry]\nType=Application\nName=BlinkView Background\nExec=";
pub const DESKTOP_TAIL: &'static str = " --background\nTerminal=false\nX-GNOME-Autostart-enabled=true\nNoDisplay=true\n";
pub const PLIST_HEAD: &'static str = "<?xml version=\"1.0\" encoding=\"UTF-8\"?>\n<!DOCTYPE plist PUBLIC \"-//Apple//DTD PLIST 1.0//EN\" \"http://www.apple.com/DTDs/PropertyList-1.0.dtd\">\n<plist version=\"1.0\">\n<dict>\n  <key>Label</key><string>me.tamkungz.blinkview.background</string>\n  <key>ProgramArguments</key>\n  <array><string>";
pub const PLIST_TAIL: &'static str = "</string><string>--background</string></array>\n  <key>RunAtLoad</key><true/>\n  <key>ProcessType</key><string>Background</string>\n</dict>\n</plist>\n";

/// The platforms with a login-startup mechanism.
#[derive(Debug, Clone, Copy, PartialEq, Eq, Structural)]
pub enum Platform {
    Linux,
    MacOs,
    Windows,
    Other,
}

/// What enabling or disabling login startup amounts to.
pub enum StartupPlan {
    /// Remove `home/dir/file` (a missing file is fine).
    RemoveFile { dir: &'static str, file: &'static str },
    /// Create `home/dir` and write `contents` to `home/dir/file`.
    WriteFile { dir: &'static str, file: &'static str, contents: String },
    /// Run `reg.exe` with `args`; a failure counts only when `enabling`.
    Registry { args: Vec<String>, enabling: bool },
    /// No mechanism is known for this platform.
    Unsupported,
}

/// A character as it stands inside a double-quoted `Exec` value of a desktop entry.
pub open spec fn desktop_escape_char(c: char) -> Seq<char> {
    if c == '\\' {
        seq!['\\', '\\']
    } else if c == '"' {
        seq!['\\', '"']
    } else {
        seq![c]
    }
}

pub open spec fn desktop_escaped(s: Seq<char>) -> Seq<char>
    decreases s.len(),
{
    if s.len() == 0 {
        Seq::empty()
    } else {
        desktop_escaped(s.drop_last()) + desktop_escape_char(s.last())
    }
}

/// A character as it stands in XML text.
pub open spec fn xml_escape_char(c: char) -> Seq<char> {
    if c == '&' {
        seq!['&', 'a', 'm', 'p', ';']
    } else if c == '<' {
        seq!['&', 'l', 't', ';']
    } else if c == '>' {
        seq!['&', 'g', 't', ';']
    } else if c == '"' {
        seq!['&', 'q', 'u', 'o', 't', ';']
    } else if c == '\'' {
        seq!['&', 'a', 'p', 'o', 's', ';']
    } else {
        seq![c]
    }
}

pub open spec fn xml_escaped(s: Seq<char>) -> Seq<char>
    decreases s.len(),
{
    if s.len() == 0 {
        Seq::empty()
    } else {
        xml_escaped(s.drop_last()) + xml_escape_char(s.last())
    }
}

fn push_chars(out: &mut String, cs: &[char])
    ensures
        final(out)@ == old(out)@ + cs@,
{
    let mut i: usize = 0;
    while i < cs.len()
        invariant
            i <= cs.len(),
            out@ == old(out)@ + cs@.take(i as int),
        decreases cs.len() - i,
    {
        push_char(out, cs[i]);
        assert(cs@.take(i + 1) =~= cs@.take(i as int).push(cs@[i as int]));
        assert(old(out)@ + cs@.take(i + 1) =~= old(out)@ + cs@.take(i as int) + seq![cs@[i as int]]);
        i += 1;
    }
    assert(cs@.take(cs.len() as int) =~= cs@);
}

/// `path` double-quoted for the `Exec` key of a desktop entry, with `\` and
/// `"` escaped by a backslash.
pub fn desktop_exec_escape(path: &str) -> (r: String)
    ensures
        r@ == seq!['"'] + desktop_escaped(path@) + seq!['"'],
{
    let mut out = String::new();
    push_char(&mut out, '"');
    let n = path.unicode_len();
    let mut i: usize = 0;
    while i < n
        invariant
            i <= n,
            n == path@.len(),
            out@ == seq!['"'] + desktop_escaped(path@.take(i as int)),
        decreases n - i,
    {
        let c = path.get_char(i);
        if c == '\\' {
            push_chars(&mut out, &['\\', '\\']);
        } else if c == '"' {
            push_chars(&mut out, &['\\', '"']);
        } else {
            push_char(&mut out, c);
        }
        assert(path@.take(i + 1).drop_last() =~= path@.take(i as int));
        assert(out@ =~= seq!['"'] + desktop_escaped(path@.take(i + 1)));
        i += 1;
    }
    assert(path@.take(n as int) =~= path@);
    push_char(&mut out, '"');
    out
}

/// `value` with the XML special characters replaced by entities.
pub fn xml_escape(value: &str) -> (r: String)
    ensures
        r@ == xml_escaped(value@),
{
    let mut out = String::new();
    let n = value.unicode_len();
    let mut i: usize = 0;
    assert(out@ =~= xml_escaped(value@.take(0)));
    while i < n
        invariant
            i <= n,
            n == value@.len(),
            out@ == xml_escaped(value@.take(i as int)),
        decreases n - i,
    {
        let c = value.get_char(i);
        if c == '&' {
            push_chars(&mut out, &['&', 'a', 'm', 'p', ';']);
        } else if c == '<' {
            push_chars(&mut out, &['&', 'l', 't', ';']);
        } else if c == '>' {
            push_chars(&mut out, &['&', 'g', 't', ';']);
        } else if c == '"' {
            push_chars(&mut out, &['&', 'q', 'u', 'o', 't', ';']);
        } else if c == '\'' {
            push_chars(&mut out, &['&', 'a', 'p', 'o', 's', ';']);
        } else {
            push_char(&mut out, c);
        }
        assert(value@.take(i + 1).drop_last() =~= value@.take(i as int));
        assert(out@ =~= xml_escaped(value@.take(i + 1)));
        i += 1;
    }
    assert(value@.take(n as int) =~= value@);
    out
}


/// The desktop entry that starts the viewer in background mode.
pub open spec fn desktop_entry(exe: Seq<char>) -> Seq<char> {
    DESKTOP_HEAD@ + (seq!['"'] + desktop_escaped(exe) + seq!['"']) + DESKTOP_TAIL@
}

/// The launch agent that starts the viewer in background mode.
pub open spec fn launch_agent(exe: Seq<char>) -> Seq<char> {
    PLIST_HEAD@ + xml_escaped(exe) + PLIST_TAIL@
}

/// The registry value: the quoted executable and `--background`.
pub open spec fn run_value(exe: Seq<char>) -> Seq<char> {
    seq!['"'] + exe + "\" --background"@
}

pub open spec fn registry_args(exe: Seq<char>, enabled: bool) -> Seq<Seq<char>> {
    if enabled {
        seq![
            "ADD"@,
            RUN_KEY@,
            "/v"@,
            "BlinkView"@,
            "/t"@,
            "REG_SZ"@,
            "/d"@,
            run_value(exe),
            "/f"@,
        ]
    } else {
        seq!["DELETE"@, RUN_KEY@, "/v"@, "BlinkView"@, "/f"@]
    }
}

pub open spec fn arg_views(args: Seq<String>) -> Seq<Seq<char>> {
    args.map_values(|a: String| a@)
}

fn push_arg(args: &mut Vec<String>, a: &str)
    ensures
        arg_views(final(args)@) == arg_views(old(args)@).push(a@),
{
    args.push(String::from_str(a));
    assert(arg_views(final(args)@) =~= arg_views(old(args)@).push(a@));
}

/// What enabling (or disabling) login startup of `exe` takes on `platform`.
pub fn platform_set_enabled(platform: Platform, exe: &str, enabled: bool) -> (r: StartupPlan)
    ensures
        match platform {
            Platform::Linux => if enabled {
                r matches StartupPlan::WriteFile { dir, file, contents } && dir@ == LINUX_DIR@
                    && file@ == LINUX_FILE@ && contents@ == desktop_entry(exe@)
            } else {
                r matches StartupPlan::RemoveFile { dir, file } && dir@ == LINUX_DIR@ && file@
                    == LINUX_FILE@
            },
            Platform::MacOs => if enabled {
                r matches StartupPlan::WriteFile { dir, file, contents } && dir@ == MACOS_DIR@
                    && file@ == MACOS_FILE@ && contents@ == launch_agent(exe@)
            } else {
                r matches StartupPlan::RemoveFile { dir, file } && dir@ == MACOS_DIR@ && file@
                    == MACOS_FILE@
            },
            Platform::Windows => r matches StartupPlan::Registry { args, enabling } && enabling
                == enabled && arg_views(args@) == registry_args(exe@, enabled),
            Platform::Other => r is Unsupported,
        },
{
    match platform {
        Platform::Linux => {
            if enabled {
                let mut contents = String::from_str(DESKTOP_HEAD);
                let exec = desktop_exec_escape(exe);
                contents.append(exec.as_str());
                contents.append(DESKTOP_TAIL);
                StartupPlan::WriteFile { dir: LINUX_DIR, file: LINUX_FILE, contents }
            } else {
                StartupPlan::RemoveFile { dir: LINUX_DIR, file: LINUX_FILE }
            }
        },
        Platform::MacOs => {
            if enabled {
                let mut contents = String::from_str(PLIST_HEAD);
                let escaped = xml_escape(exe);
                contents.append(escaped.as_str());
                contents.append(PLIST_TAIL);
                StartupPlan::WriteFile { dir: MACOS_DIR, file: MACOS_FILE, contents }
            } else {
                StartupPlan::RemoveFile { dir: MACOS_DIR, file: MACOS_FILE }
            }
        },
        Platform::Windows => {
            let mut args: Vec<String> = Vec::new();
            if enabled {
                let mut value = String::new();
                push_char(&mut value, '"');
                value.append(exe);
                value.append("\" --background");
                push_arg(&mut args, "ADD");
                push_arg(&mut args, RUN_KEY);
                push_arg(&mut args, "/v");
                push_arg(&mut args, "BlinkView");
                push_arg(&mut args, "/t");
                push_arg(&mut args, "REG_SZ");
                push_arg(&mut args, "/d");
                push_arg(&mut args, value.as_str());
                push_arg(&mut args, "/f");
            } else {
                push_arg(&mut args, "DELETE");
                push_arg(&mut args, RUN_KEY);
                push_arg(&mut args, "/v");
                push_arg(&mut args, "BlinkView");
                push_arg(&mut args, "/f");
            }
            assert(arg_views(args@) =~= registry_args(exe@, enabled));
            StartupPlan::Registry { args, enabling: enabled }
        },
        Platform::Other => StartupPlan::Unsupported,
    }
}

} // verus!
