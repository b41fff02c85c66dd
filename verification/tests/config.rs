use blinkview::config::{help_text, Config, ParseResult};

fn args(list: &[&str]) -> Vec<String> {
    list.iter().map(|s| s.to_string()).collect()
}

fn run(list: &[&str]) -> Config {
    match Config::parse(&args(list)) {
        Ok(ParseResult::Run(cfg)) => cfg,
        Ok(_) => panic!("not a run"),
        Err(e) => panic!("error: {e}"),
    }
}

fn error(list: &[&str]) -> String {
    match Config::parse(&args(list)) {
        Err(e) => e,
        Ok(_) => panic!("accepted"),
    }
}

#[test]
fn defaults() {
    let cfg = Config::default();
    assert!(!cfg.background);
    assert_eq!(cfg.preload, 2);
    assert_eq!(cfg.cache_radius, 4);
    assert_eq!(cfg.max_cache_mb, 384);
    assert_eq!(cfg.port, 43119);
    assert!(cfg.initial_path.is_none());
    let cfg = run(&[]);
    assert_eq!(cfg.cache_radius, 4);
    assert_eq!(cfg.max_cache_mb, 384);
}

#[test]
fn thumbnail_arguments() {
    match Config::parse(&args(&["--thumbnail", "in.png", "out.png"])) {
        Ok(ParseResult::Thumbnail { input, output, size }) => {
            assert_eq!(input, "in.png");
            assert_eq!(output, "out.png");
            assert_eq!(size, 256);
        }
        _ => panic!(),
    }
    match Config::parse(&args(&["--thumbnail", "in.png", "out.png", "+64"])) {
        Ok(ParseResult::Thumbnail { size, .. }) => assert_eq!(size, 64),
        _ => panic!(),
    }
    assert_eq!(error(&["--thumbnail", "in", "out", "0"]), "thumbnail SIZE must be greater than zero");
    assert_eq!(error(&["--thumbnail", "in", "out", "-5"]), "thumbnail SIZE must be a positive integer");
    assert_eq!(error(&["--thumbnail", "in", "out", "4294967296"]), "thumbnail SIZE must be a positive integer");
    assert_eq!(error(&["--thumbnail", "in"]), "--thumbnail needs INPUT OUTPUT [SIZE]");
    assert_eq!(error(&["--thumbnail", "a", "b", "1", "2"]), "--thumbnail needs INPUT OUTPUT [SIZE]");
}

#[test]
fn startup_arguments() {
    assert!(matches!(Config::parse(&args(&["--startup", "ENABLE"])), Ok(ParseResult::Startup(true))));
    assert!(matches!(Config::parse(&args(&["--startup", "on"])), Ok(ParseResult::Startup(true))));
    assert!(matches!(Config::parse(&args(&["--startup", "1"])), Ok(ParseResult::Startup(true))));
    assert!(matches!(Config::parse(&args(&["--startup", "Off"])), Ok(ParseResult::Startup(false))));
    assert!(matches!(Config::parse(&args(&["--startup", "0"])), Ok(ParseResult::Startup(false))));
    assert!(matches!(Config::parse(&args(&["--startup", "disable"])), Ok(ParseResult::Startup(false))));
    assert_eq!(error(&["--startup", "maybe"]), "--startup needs enable or disable");
    assert_eq!(error(&["--startup"]), "--startup needs enable or disable");
    assert_eq!(error(&["--startup", "on", "x"]), "--startup needs enable or disable");
}

#[test]
fn viewer_options() {
    let cfg = run(&["-b", "--preload", "6", "pic.png"]);
    assert!(cfg.background);
    assert_eq!(cfg.preload, 6);
    assert_eq!(cfg.cache_radius, 6);
    assert_eq!(cfg.initial_path.as_deref(), Some("pic.png"));
    let cfg = run(&["--stay", "--cache-radius", "9", "--max-cache-mb", "8", "--port", "8080"]);
    assert!(cfg.background);
    assert_eq!(cfg.cache_radius, 9);
    assert_eq!(cfg.max_cache_mb, 32);
    assert_eq!(cfg.port, 8080);
    let cfg = run(&["--background", "--max-cache-mb", "1000"]);
    assert_eq!(cfg.max_cache_mb, 1000);
}

#[test]
fn positional_paths() {
    let cfg = run(&["--", "-weird.png"]);
    assert_eq!(cfg.initial_path.as_deref(), Some("-weird.png"));
    assert_eq!(error(&["a", "b"]), "only one path may be opened at a time");
    assert_eq!(error(&["--", "a", "b"]), "only one path may be opened at a time");
    assert!(matches!(Config::parse(&args(&["x", "-h"])), Ok(ParseResult::Help)));
    assert!(matches!(Config::parse(&args(&["--help"])), Ok(ParseResult::Help)));
}

#[test]
fn option_errors() {
    assert_eq!(error(&["--preload"]), "--preload needs a value");
    assert_eq!(error(&["--cache-radius", "x"]), "--cache-radius needs a non-negative integer");
    assert_eq!(error(&["--max-cache-mb", "-1"]), "--max-cache-mb needs a non-negative integer");
    assert_eq!(error(&["--port"]), "--port needs a value");
    assert_eq!(error(&["--port", "0"]), "--port must be 1..65535");
    assert_eq!(error(&["--port", "70000"]), "--port must be 1..65535");
    assert_eq!(error(&["--bogus"]), "unknown option: --bogus");
    assert_eq!(error(&["-"]), "unknown option: -");
}

#[test]
fn help_text_names_the_program() {
    assert!(help_text().starts_with("BlinkView 0.1.1 - small folder-aware image/video viewer"));
    assert!(help_text().contains("--max-cache-mb N"));
}
