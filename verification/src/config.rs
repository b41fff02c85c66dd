//! Command-line options.
use vstd::prelude::*;
use vstd::utf8::encode_utf8;
use crate::paths::{lower_bytes, lowercase_bytes, bytes_equal};
use crate::text::{str_eq, starts_with_char, parse_unsigned, parse_unsigned_bytes};

verus! {

/// The usage text shown for `--help` and when there is nothing to do.
pub const HELP: &'static str = r#"BlinkView 0.1.1 - small folder-aware image/video viewer
Author: TamKungZ_ <dev@tamkungz.me>

USAGE:
    blinkview [OPTIONS] <FILE-OR-DIRECTORY>
    blinkview --background
    blinkview --thumbnail INPUT OUTPUT [SIZE]
    blinkview --startup enable|disable

OPTIONS:
    -b, --background        Stay resident after the viewer window closes.
        --stay              Alias for --background.
        --preload N         Decode N neighbours on each side-ish (default: 2).
        --cache-radius N    Keep only current +/- N folder items decoded (default: 4).
        --max-cache-mb N    Hard-ish decoded image cache budget (default: 384 MB).
        --port N            Local single-instance IPC TCP port (default: 43119).
        --thumbnail ...     Write a PNG thumbnail. Video thumbnails use FFmpeg.
        --startup ...       Enable/disable login startup in background mode.
    -h, --help              Show help.

KEYS:
    Left / Right            Previous / next media file.
    PageUp / PageDown       Jump 10 items.
    Home / End              First / last item.
    Space                   Pause/resume video and audio.
    R                       Reload current folder/file.
    Esc                     Close/hide viewer window.
    Q                       Quit the process, even in background mode.

VIDEO:
    Video frames use ffprobe + ffmpeg. Lightweight audio uses ffplay when available.
    If ffplay is missing, video continues silently instead of failing.
"#;

#[derive(Debug, Clone)]
pub struct Config {
    pub background: bool,
    pub preload: usize,
    pub cache_radius: usize,
    pub max_cache_mb: usize,
    pub port: u16,
    pub initial_path: Option<String>,
}

pub open spec fn default_config() -> Config {
    Config {
        background: false,
        preload: 2,
        cache_radius: 4,
        max_cache_mb: 384,
        port: 43119,
        initial_path: None,
    }
}

impl Default for Config {
    fn default() -> (r: Self)
        ensures
            r == default_config(),
    {
        Config {
            background: false,
            preload: 2,
            cache_radius: 4,
            max_cache_mb: 384,
            port: 43119,
            initial_path: None,
        }
    }
}

/// What the command line asks for.
pub enum ParseResult {
    Run(Config),
    Thumbnail { input: String, output: String, size: u32 },
    Startup(bool),
    Help,
}

/// The options that take a non-negative number.
#[derive(Debug, Clone, Copy, PartialEq, Eq, Structural)]
pub enum NumericOption {
    Preload,
    CacheRadius,
    MaxCacheMb,
}

/// Why a command line is refused.
pub enum ConfigError {
    ThumbnailUsage,
    ThumbnailSizeInvalid,
    ThumbnailSizeZero,
    StartupUsage,
    OnePath,
    MissingValue(NumericOption),
    NotANumber(NumericOption),
    PortMissing,
    PortInvalid,
    UnknownOption(String),
}

pub open spec fn option_flag(o: NumericOption) -> Seq<char> {
    match o {
        NumericOption::Preload => "--preload"@,
        NumericOption::CacheRadius => "--cache-radius"@,
        NumericOption::MaxCacheMb => "--max-cache-mb"@,
    }
}

/// The text shown for each error.
pub open spec fn error_text(e: ConfigError) -> Seq<char> {
    match e {
        ConfigError::ThumbnailUsage => "--thumbnail needs INPUT OUTPUT [SIZE]"@,
        ConfigError::ThumbnailSizeInvalid => "thumbnail SIZE must be a positive integer"@,
        ConfigError::ThumbnailSizeZero => "thumbnail SIZE must be greater than zero"@,
        ConfigError::StartupUsage => "--startup needs enable or disable"@,
        ConfigError::OnePath => "only one path may be opened at a time"@,
        ConfigError::MissingValue(o) => option_flag(o) + " needs a value"@,
        ConfigError::NotANumber(o) => option_flag(o) + " needs a non-negative integer"@,
        ConfigError::PortMissing => "--port needs a value"@,
        ConfigError::PortInvalid => "--port must be 1..65535"@,
        ConfigError::UnknownOption(text) => "unknown option: "@ + text@,
    }
}

impl NumericOption {
    /// The option as written on the command line.
    pub fn flag(&self) -> (r: &'static str)
        ensures
            r@ == option_flag(*self),
    {
        match self {
            NumericOption::Preload => "--preload",
            NumericOption::CacheRadius => "--cache-radius",
            NumericOption::MaxCacheMb => "--max-cache-mb",
        }
    }
}

impl ConfigError {
    /// The message for this error.
    pub fn message(&self) -> (r: String)
        ensures
            r@ == error_text(*self),
    {
        match self {
            ConfigError::ThumbnailUsage => String::from_str("--thumbnail needs INPUT OUTPUT [SIZE]"),
            ConfigError::ThumbnailSizeInvalid => String::from_str(
                "thumbnail SIZE must be a positive integer",
            ),
            ConfigError::ThumbnailSizeZero => String::from_str(
                "thumbnail SIZE must be greater than zero",
            ),
            ConfigError::StartupUsage => String::from_str("--startup needs enable or disable"),
            ConfigError::OnePath => String::from_str("only one path may be opened at a time"),
            ConfigError::MissingValue(o) => {
                let mut m = String::from_str(o.flag());
                m.append(" needs a value");
                m
            },
            ConfigError::NotANumber(o) => {
                let mut m = String::from_str(o.flag());
                m.append(" needs a non-negative integer");
                m
            },
            ConfigError::PortMissing => String::from_str("--port needs a value"),
            ConfigError::PortInvalid => String::from_str("--port must be 1..65535"),
            ConfigError::UnknownOption(text) => {
                let mut m = String::from_str("unknown option: ");
                m.append(text.as_str());
                m
            },
        }
    }
}

/// The options after the last argument: the cache radius covers the preload
/// distance and the cache budget is at least 32 MB.
pub open spec fn finished(cfg: Config) -> Config {
    Config {
        cache_radius: if cfg.cache_radius < cfg.preload {
            cfg.preload
        } else {
            cfg.cache_radius
        },
        max_cache_mb: if cfg.max_cache_mb < 32 {
            32
        } else {
            cfg.max_cache_mb
        },
        ..cfg
    }
}

/// The value of a numeric option whose flag stands at `i - 1`.
pub open spec fn numeric_value(args: Seq<String>, i: int, o: NumericOption) -> Result<
    nat,
    ConfigError,
> {
    if i >= args.len() {
        Err(ConfigError::MissingValue(o))
    } else {
        match parse_unsigned(encode_utf8(args[i]@), usize::MAX as nat) {
            Some(v) => Ok(v),
            None => Err(ConfigError::NotANumber(o)),
        }
    }
}

/// `cfg` with `path` as the file to open, unless one is already set.
pub open spec fn with_path(cfg: Config, path: String) -> Option<Config> {
    if cfg.initial_path is None {
        Some(Config { initial_path: Some(path), ..cfg })
    } else {
        None
    }
}

/// The viewer options given by `args[i..]`, starting from `cfg`; after `--`
/// (`positional`) every argument is a path.
pub open spec fn parse_options(args: Seq<String>, i: int, cfg: Config, positional: bool) -> Result<
    ParseResult,
    ConfigError,
>
    decreases args.len() - i,
{
    if i < 0 || i >= args.len() {
        Ok(ParseResult::Run(finished(cfg)))
    } else if positional {
        match with_path(cfg, args[i]) {
            Some(next) => parse_options(args, i + 1, next, true),
            None => Err(ConfigError::OnePath),
        }
    } else {
        let a = args[i]@;
        if a == "--"@ {
            parse_options(args, i + 1, cfg, true)
        } else if a == "-h"@ || a == "--help"@ {
            Ok(ParseResult::Help)
        } else if a == "-b"@ || a == "--background"@ || a == "--stay"@ {
            parse_options(args, i + 1, Config { background: true, ..cfg }, false)
        } else if a == "--preload"@ {
            match numeric_value(args, i + 1, NumericOption::Preload) {
                Ok(v) => parse_options(args, i + 2, Config { preload: v as usize, ..cfg }, false),
                Err(e) => Err(e),
            }
        } else if a == "--cache-radius"@ {
            match numeric_value(args, i + 1, NumericOption::CacheRadius) {
                Ok(v) => parse_options(
                    args,
                    i + 2,
                    Config { cache_radius: v as usize, ..cfg },
                    false,
                ),
                Err(e) => Err(e),
            }
        } else if a == "--max-cache-mb"@ {
            match numeric_value(args, i + 1, NumericOption::MaxCacheMb) {
                Ok(v) => parse_options(
                    args,
                    i + 2,
                    Config { max_cache_mb: v as usize, ..cfg },
                    false,
                ),
                Err(e) => Err(e),
            }
        } else if a == "--port"@ {
            if i + 1 >= args.len() {
                Err(ConfigError::PortMissing)
            } else {
                match parse_unsigned(encode_utf8(args[i + 1]@), u16::MAX as nat) {
                    Some(p) => if p == 0 {
                        Err(ConfigError::PortInvalid)
                    } else {
                        parse_options(args, i + 2, Config { port: p as u16, ..cfg }, false)
                    },
                    None => Err(ConfigError::PortInvalid),
                }
            }
        } else if a.len() > 0 && a[0] == '-' {
            Err(ConfigError::UnknownOption(args[i]))
        } else {
            match with_path(cfg, args[i]) {
                Some(next) => parse_options(args, i + 1, next, false),
                None => Err(ConfigError::OnePath),
            }
        }
    }
}

/// Whether a `--startup` value means "enable" or "disable", ignoring ASCII case.
pub open spec fn startup_choice(value: Seq<char>) -> Option<bool> {
    let v = lower_bytes(encode_utf8(value));
    if v == encode_utf8("enable"@) || v == encode_utf8("on"@) || v == encode_utf8("1"@) {
        Some(true)
    } else if v == encode_utf8("disable"@) || v == encode_utf8("off"@) || v == encode_utf8("0"@) {
        Some(false)
    } else {
        None
    }
}

/// What the whole command line `args` (without the program name) asks for.
pub open spec fn parse_command_line(args: Seq<String>) -> Result<ParseResult, ConfigError> {
    if args.len() > 0 && args[0]@ == "--thumbnail"@ {
        if args.len() < 3 || args.len() > 4 {
            Err(ConfigError::ThumbnailUsage)
        } else {
            let size = if args.len() == 4 {
                parse_unsigned(encode_utf8(args[3]@), u32::MAX as nat)
            } else {
                Some(256nat)
            };
            match size {
                Some(n) => if n == 0 {
                    Err(ConfigError::ThumbnailSizeZero)
                } else {
                    Ok(ParseResult::Thumbnail { input: args[1], output: args[2], size: n as u32 })
                },
                None => Err(ConfigError::ThumbnailSizeInvalid),
            }
        }
    } else if args.len() > 0 && args[0]@ == "--startup"@ {
        if args.len() != 2 {
            Err(ConfigError::StartupUsage)
        } else {
            match startup_choice(args[1]@) {
                Some(enabled) => Ok(ParseResult::Startup(enabled)),
                None => Err(ConfigError::StartupUsage),
            }
        }
    } else {
        parse_options(args, 0, default_config(), false)
    }
}

proof fn lemma_options_finished(args: Seq<String>, i: int, cfg: Config, positional: bool)
    ensures
        parse_options(args, i, cfg, positional) matches Ok(ParseResult::Run(c)) ==> c.cache_radius
            >= c.preload && c.max_cache_mb >= 32,
    decreases args.len() - i,
{
    if i < 0 || i >= args.len() {
    } else if positional {
        if let Some(next) = with_path(cfg, args[i]) {
            lemma_options_finished(args, i + 1, next, true);
        }
    } else {
        let a = args[i]@;
        if a == "--"@ {
            lemma_options_finished(args, i + 1, cfg, true);
        } else if a == "-h"@ || a == "--help"@ {
        } else if a == "-b"@ || a == "--background"@ || a == "--stay"@ {
            lemma_options_finished(args, i + 1, Config { background: true, ..cfg }, false);
        } else if a == "--preload"@ {
            if let Ok(v) = numeric_value(args, i + 1, NumericOption::Preload) {
                lemma_options_finished(args, i + 2, Config { preload: v as usize, ..cfg }, false);
            }
        } else if a == "--cache-radius"@ {
            if let Ok(v) = numeric_value(args, i + 1, NumericOption::CacheRadius) {
                lemma_options_finished(
                    args,
                    i + 2,
                    Config { cache_radius: v as usize, ..cfg },
                    false,
                );
            }
        } else if a == "--max-cache-mb"@ {
            if let Ok(v) = numeric_value(args, i + 1, NumericOption::MaxCacheMb) {
                lemma_options_finished(
                    args,
                    i + 2,
                    Config { max_cache_mb: v as usize, ..cfg },
                    false,
                );
            }
        } else if a == "--port"@ {
            if i + 1 < args.len() {
                if let Some(p) = parse_unsigned(encode_utf8(args[i + 1]@), u16::MAX as nat) {
                    lemma_options_finished(args, i + 2, Config { port: p as u16, ..cfg }, false);
                }
            }
        } else if a.len() > 0 && a[0] == '-' {
        } else if let Some(next) = with_path(cfg, args[i]) {
            lemma_options_finished(args, i + 1, next, false);
        }
    }
}

/// Every viewer configuration a command line gives has a cache radius that
/// covers the preload distance and a cache budget of at least 32 MB.
pub proof fn lemma_run_config_consistent(args: Seq<String>)
    ensures
        parse_command_line(args) matches Ok(ParseResult::Run(c)) ==> c.cache_radius >= c.preload
            && c.max_cache_mb >= 32,
{
    lemma_options_finished(args, 0, default_config(), false);
}

/// The last values given for `--preload` and `--cache-radius` among the
/// options of `args[i..]`, `(p, r)` when there are none. The options are read
/// as a command line reads them: `--preload`, `--cache-radius`,
/// `--max-cache-mb` and `--port` are followed by a value, and after `--`
/// every argument is a path.
pub open spec fn given_sizes(args: Seq<String>, i: int, p: nat, r: nat) -> (nat, nat)
    decreases args.len() - i,
{
    if i < 0 || i >= args.len() {
        (p, r)
    } else {
        let a = args[i]@;
        if a == "--"@ {
            (p, r)
        } else if a == "--preload"@ || a == "--cache-radius"@ || a == "--max-cache-mb"@ || a
            == "--port"@ {
            let v = if i + 1 < args.len() {
                parse_unsigned(encode_utf8(args[i + 1]@), usize::MAX as nat)
            } else {
                None
            };
            match v {
                Some(n) => if a == "--preload"@ {
                    given_sizes(args, i + 2, n, r)
                } else if a == "--cache-radius"@ {
                    given_sizes(args, i + 2, p, n)
                } else {
                    given_sizes(args, i + 2, p, r)
                },
                None => (p, r),
            }
        } else {
            given_sizes(args, i + 1, p, r)
        }
    }
}

proof fn lemma_parsed_fits(s: Seq<u8>, max: nat)
    ensures
        parse_unsigned(s, max) matches Some(v) ==> v <= max,
{
}

proof fn lemma_paths_keep_sizes(args: Seq<String>, i: int, cfg: Config)
    ensures
        parse_options(args, i, cfg, true) matches Ok(ParseResult::Run(c)) ==> c.preload
            == cfg.preload && c.cache_radius == if cfg.cache_radius < cfg.preload {
            cfg.preload
        } else {
            cfg.cache_radius
        },
    decreases args.len() - i,
{
    if 0 <= i < args.len() {
        if let Some(next) = with_path(cfg, args[i]) {
            lemma_paths_keep_sizes(args, i + 1, next);
        }
    }
}

/// Whether a viewer run parsed from `args[i..]` (starting from `cfg`) has the
/// sizes that `given_sizes` reads.
pub open spec fn sizes_as_given(args: Seq<String>, i: int, cfg: Config) -> bool {
    parse_options(args, i, cfg, false) matches Ok(ParseResult::Run(c)) ==> ({
        let (p, r) = given_sizes(args, i, cfg.preload as nat, cfg.cache_radius as nat);
        &&& c.preload == p
        &&& c.cache_radius == if r < p {
            p
        } else {
            r
        }
    })
}

proof fn lemma_options_sizes(args: Seq<String>, i: int, cfg: Config)
    ensures
        sizes_as_given(args, i, cfg),
    decreases args.len() - i,
{
    reveal_strlit("--");
    reveal_strlit("-h");
    reveal_strlit("--help");
    reveal_strlit("-b");
    reveal_strlit("--background");
    reveal_strlit("--stay");
    reveal_strlit("--preload");
    reveal_strlit("--cache-radius");
    reveal_strlit("--max-cache-mb");
    reveal_strlit("--port");
    assert("-b"@[1] != "--"@[1]);
    assert("--stay"@[2] != "--port"@[2]);
    if 0 <= i < args.len() {
        let a = args[i]@;
        if a == "--"@ {
            lemma_paths_keep_sizes(args, i + 1, cfg);
        } else if a == "-h"@ || a == "--help"@ {
        } else if a == "-b"@ || a == "--background"@ || a == "--stay"@ {
            lemma_options_sizes(args, i + 1, Config { background: true, ..cfg });
        } else if a == "--preload"@ {
            if i + 1 < args.len() {
                lemma_parsed_fits(encode_utf8(args[i + 1]@), usize::MAX as nat);
            }
            if let Ok(v) = numeric_value(args, i + 1, NumericOption::Preload) {
                lemma_options_sizes(args, i + 2, Config { preload: v as usize, ..cfg });
            }
        } else if a == "--cache-radius"@ {
            if i + 1 < args.len() {
                lemma_parsed_fits(encode_utf8(args[i + 1]@), usize::MAX as nat);
            }
            if let Ok(v) = numeric_value(args, i + 1, NumericOption::CacheRadius) {
                lemma_options_sizes(args, i + 2, Config { cache_radius: v as usize, ..cfg });
            }
        } else if a == "--max-cache-mb"@ {
            if let Ok(v) = numeric_value(args, i + 1, NumericOption::MaxCacheMb) {
                lemma_options_sizes(args, i + 2, Config { max_cache_mb: v as usize, ..cfg });
            }
        } else if a == "--port"@ {
            if i + 1 < args.len() {
                if let Some(p) = parse_unsigned(encode_utf8(args[i + 1]@), u16::MAX as nat) {
                    lemma_options_sizes(args, i + 2, Config { port: p as u16, ..cfg });
                }
            }
        } else if a.len() > 0 && a[0] == '-' {
        } else if let Some(next) = with_path(cfg, args[i]) {
            lemma_options_sizes(args, i + 1, next);
        }
    }
}

/// The preload distance of a viewer run is the last `--preload` value (2 by
/// default), and its cache radius is the last `--cache-radius` value (4 by
/// default), raised to the preload distance when smaller. No other option
/// changes either.
pub proof fn lemma_preload_and_radius(args: Seq<String>)
    ensures
        parse_command_line(args) matches Ok(ParseResult::Run(c)) ==> ({
            let (p, r) = given_sizes(args, 0, 2, 4);
            &&& c.preload == p
            &&& c.cache_radius == if r < p {
                p
            } else {
                r
            }
        }),
{
    lemma_options_sizes(args, 0, default_config());
}

fn copy_string(s: &String) -> (r: String)
    ensures
        r == *s,
{
    s.clone()
}

fn startup_choice_of(value: &str) -> (r: Option<bool>)
    ensures
        r == startup_choice(value@),
{
    let v = lowercase_bytes(value.as_bytes());
    let v = v.as_slice();
    if bytes_equal(v, "enable".as_bytes()) || bytes_equal(v, "on".as_bytes()) || bytes_equal(
        v,
        "1".as_bytes(),
    ) {
        Some(true)
    } else if bytes_equal(v, "disable".as_bytes()) || bytes_equal(v, "off".as_bytes())
        || bytes_equal(v, "0".as_bytes()) {
        Some(false)
    } else {
        None
    }
}

fn numeric_option(args: &Vec<String>, i: usize, o: NumericOption) -> (r: Result<usize, ConfigError>)
    ensures
        match numeric_value(args@, i as int, o) {
            Ok(v) => r == Ok::<usize, ConfigError>(v as usize) && v <= usize::MAX,
            Err(e) => r == Err::<usize, ConfigError>(e),
        },
{
    if i >= args.len() {
        return Err(ConfigError::MissingValue(o));
    }
    match parse_unsigned_bytes(args[i].as_str().as_bytes(), usize::MAX as u64) {
        Some(v) => Ok(v as usize),
        None => Err(ConfigError::NotANumber(o)),
    }
}

/// Reads the command line (without the program name).
pub fn parse_args(args: &Vec<String>) -> (r: Result<ParseResult, ConfigError>)
    ensures
        r == parse_command_line(args@),
{
    if args.len() > 0 && str_eq(args[0].as_str(), "--thumbnail") {
        if args.len() < 3 || args.len() > 4 {
            return Err(ConfigError::ThumbnailUsage);
        }
        let size: u32 = if args.len() == 4 {
            match parse_unsigned_bytes(args[3].as_str().as_bytes(), u32::MAX as u64) {
                Some(v) => v as u32,
                None => return Err(ConfigError::ThumbnailSizeInvalid),
            }
        } else {
            256
        };
        if size == 0 {
            return Err(ConfigError::ThumbnailSizeZero);
        }
        return Ok(
            ParseResult::Thumbnail {
                input: copy_string(&args[1]),
                output: copy_string(&args[2]),
                size,
            },
        );
    }
    if args.len() > 0 && str_eq(args[0].as_str(), "--startup") {
        if args.len() != 2 {
            return Err(ConfigError::StartupUsage);
        }
        return match startup_choice_of(args[1].as_str()) {
            Some(enabled) => Ok(ParseResult::Startup(enabled)),
            None => Err(ConfigError::StartupUsage),
        };
    }
    let mut cfg = Config::default();
    let mut positional = false;
    let mut i: usize = 0;
    while i < args.len()
        invariant
            i <= args.len(),
            parse_command_line(args@) == parse_options(args@, i as int, cfg, positional),
        decreases args.len() - i,
    {
        if positional {
            if cfg.initial_path.is_none() {
                cfg.initial_path = Some(copy_string(&args[i]));
                i += 1;
                continue;
            } else {
                return Err(ConfigError::OnePath);
            }
        }
        let a = args[i].as_str();
        if str_eq(a, "--") {
            positional = true;
            i += 1;
        } else if str_eq(a, "-h") || str_eq(a, "--help") {
            return Ok(ParseResult::Help);
        } else if str_eq(a, "-b") || str_eq(a, "--background") || str_eq(a, "--stay") {
            cfg.background = true;
            i += 1;
        } else if str_eq(a, "--preload") {
            cfg.preload = match numeric_option(args, i + 1, NumericOption::Preload) {
                Ok(v) => v,
                Err(e) => return Err(e),
            };
            i += 2;
        } else if str_eq(a, "--cache-radius") {
            cfg.cache_radius = match numeric_option(args, i + 1, NumericOption::CacheRadius) {
                Ok(v) => v,
                Err(e) => return Err(e),
            };
            i += 2;
        } else if str_eq(a, "--max-cache-mb") {
            cfg.max_cache_mb = match numeric_option(args, i + 1, NumericOption::MaxCacheMb) {
                Ok(v) => v,
                Err(e) => return Err(e),
            };
            i += 2;
        } else if str_eq(a, "--port") {
            if i + 1 >= args.len() {
                return Err(ConfigError::PortMissing);
            }
            match parse_unsigned_bytes(args[i + 1].as_str().as_bytes(), u16::MAX as u64) {
                Some(p) => {
                    if p == 0 {
                        return Err(ConfigError::PortInvalid);
                    }
                    cfg.port = p as u16;
                },
                None => return Err(ConfigError::PortInvalid),
            }
            i += 2;
        } else if starts_with_char(a, '-') {
            return Err(ConfigError::UnknownOption(copy_string(&args[i])));
        } else {
            if cfg.initial_path.is_none() {
                cfg.initial_path = Some(copy_string(&args[i]));
                i += 1;
            } else {
                return Err(ConfigError::OnePath);
            }
        }
    }
    if cfg.cache_radius < cfg.preload {
        cfg.cache_radius = cfg.preload;
    }
    if cfg.max_cache_mb < 32 {
        cfg.max_cache_mb = 32;
    }
    Ok(ParseResult::Run(cfg))
}

impl Config {
    /// Reads the command line (without the program name); a refused command
    /// line gives the message to show.
    pub fn parse(args: &Vec<String>) -> (r: Result<ParseResult, String>)
        ensures
            match parse_command_line(args@) {
                Ok(p) => r == Ok::<ParseResult, String>(p),
                Err(e) => r is Err && r->Err_0@ == error_text(e),
            },
    {
        match parse_args(args) {
            Ok(p) => Ok(p),
            Err(e) => Err(e.message()),
        }
    }
}

/// The usage text.
pub fn help_text() -> (r: &'static str)
    ensures
        r@ == HELP@,
{
    HELP
}

} // verus!
