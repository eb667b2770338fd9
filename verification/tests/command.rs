use lithos_tree::command::{
    new_child, read_args, Binaries, Command, Environment, LogOptions, Namespace, Word,
};
use lithos_tree::level::{choose_log_level, LogLevel};

fn text(word: &Word) -> String {
    match word {
        Word::Text(text) => text.clone(),
        Word::Os(bytes) => format!("{:?}", bytes),
    }
}

fn binaries() -> Binaries {
    Binaries {
        lithos_tree: Word::from_text("/usr/bin/lithos_tree"),
        lithos_knot: Word::from_text("/usr/bin/lithos_knot"),
    }
}

fn start(options: LogOptions, environment: Environment) -> Command {
    new_child(
        &binaries(),
        "web/django.0",
        &Word::from_text("/etc/lithos.yaml"),
        "{\"instances\":1}",
        &options,
        &environment,
    )
}

fn bare() -> Environment {
    Environment { term: None, rust_log: None, rust_backtrace: None }
}

fn command_line(command: &Command) -> String {
    let mut line = text(&command.program);
    line.push('\0');
    for arg in &command.args {
        line.push_str(&text(arg));
        line.push('\0');
    }
    line
}

#[test]
fn child_without_options() {
    let cmd = start(LogOptions { log_stderr: false, log_level: None }, bare());
    assert_eq!(text(&cmd.program), "/usr/bin/lithos_knot");
    let args: Vec<String> = cmd.args.iter().map(text).collect();
    assert_eq!(
        args,
        [
            "--name",
            "web/django.0",
            "--master",
            "/etc/lithos.yaml",
            "--config",
            "{\"instances\":1}"
        ]
    );
    assert_eq!(cmd.env.len(), 1);
    assert_eq!(cmd.env[0].0, "TERM");
    assert_eq!(text(&cmd.env[0].1), "dumb");
    assert_eq!(
        cmd.namespaces,
        [Namespace::Mount, Namespace::Uts, Namespace::Ipc, Namespace::Pid]
    );
    assert_eq!(cmd.close_fds, None);
    assert!(cmd.pass_fds.is_empty());
}

#[test]
fn child_with_options() {
    let cmd = start(
        LogOptions { log_stderr: true, log_level: Some(LogLevel::Debug) },
        Environment {
            term: Some(Word::Os(vec![0xff])),
            rust_log: Some(Word::from_text("info")),
            rust_backtrace: Some(Word::from_text("1")),
        },
    );
    let args: Vec<String> = cmd.args.iter().map(text).collect();
    assert_eq!(args[6..], ["--log-stderr", "--log-level=DEBUG"]);
    let env: Vec<(String, String)> =
        cmd.env.iter().map(|(name, value)| (name.clone(), text(value))).collect();
    assert_eq!(env[0], ("TERM".to_string(), "[255]".to_string()));
    assert_eq!(env[1], ("RUST_LOG".to_string(), "info".to_string()));
    assert_eq!(env[2], ("RUST_BACKTRACE".to_string(), "1".to_string()));
}

#[test]
fn level_names_are_in_upper_case() {
    for (level, name) in [
        (LogLevel::Error, "ERROR"),
        (LogLevel::Warn, "WARN"),
        (LogLevel::Info, "INFO"),
        (LogLevel::Debug, "DEBUG"),
        (LogLevel::Trace, "TRACE"),
    ] {
        let cmd = start(LogOptions { log_stderr: false, log_level: Some(level) }, bare());
        assert_eq!(text(&cmd.args[6]), format!("--log-level={}", name));
        assert_eq!(choose_log_level(None, name), level);
    }
}

#[test]
fn log_level_is_chosen() {
    assert_eq!(choose_log_level(Some(LogLevel::Trace), "error"), LogLevel::Trace);
    assert_eq!(choose_log_level(None, "error"), LogLevel::Error);
    assert_eq!(choose_log_level(None, "InFo"), LogLevel::Info);
    assert_eq!(choose_log_level(None, "debug"), LogLevel::Debug);
    assert_eq!(choose_log_level(None, "TRACE"), LogLevel::Trace);
    assert_eq!(choose_log_level(None, "warning"), LogLevel::Warn);
    assert_eq!(choose_log_level(None, ""), LogLevel::Warn);
    assert_eq!(choose_log_level(None, " info"), LogLevel::Warn);
    assert_eq!(choose_log_level(None, "\u{131}nfo"), LogLevel::Warn);
}

#[test]
fn started_child_is_recognized() {
    let cmd = start(LogOptions { log_stderr: false, log_level: None }, bare());
    assert_eq!(
        read_args(&command_line(&cmd), "/etc/lithos.yaml"),
        Ok(("web/django.0".to_string(), "{\"instances\":1}".to_string()))
    );
    assert_eq!(read_args(&command_line(&cmd), "/etc/other.yaml"), Err(()));
    assert_eq!(read_args(&command_line(&cmd), "etc/lithos.yaml"), Err(()));
    assert!(read_args(&command_line(&cmd), "/etc/./lithos.yaml").is_ok());
    let cmd = start(LogOptions { log_stderr: true, log_level: None }, bare());
    assert_eq!(read_args(&command_line(&cmd), "/etc/lithos.yaml"), Err(()));
    let cmd = start(LogOptions { log_stderr: false, log_level: Some(LogLevel::Info) }, bare());
    assert_eq!(read_args(&command_line(&cmd), "/etc/lithos.yaml"), Err(()));
}

#[test]
fn other_command_lines_are_not_recognized() {
    let good = "lithos_knot\0--name\0a\0--master\0/etc/x\0--config\0{}\0";
    assert_eq!(read_args(good, "/etc/x"), Ok(("a".to_string(), "{}".to_string())));
    assert_eq!(read_args(good, "/etc//x/"), Ok(("a".to_string(), "{}".to_string())));
    assert_eq!(read_args(good, "/etc/y"), Err(()));
    for bad in [
        "",
        "lithos_tree\0--name\0a\0--master\0/etc/x\0--config\0{}\0",
        "lithos_knot\0--nam\0a\0--master\0/etc/x\0--config\0{}\0",
        "lithos_knot\0--name\0a\0--mast\0/etc/x\0--config\0{}\0",
        "lithos_knot\0--name\0a\0--master\0/etc/x\0--conf\0{}\0",
        "lithos_knot\0--name\0a\0--master\0/etc/x\0--config\0{}",
        "lithos_knot\0--name\0a\0--master\0/etc/x\0--config\0{}\0more",
        "lithos_knot\0--name\0a\0--master\0/etc/x\0--config\0{}\0\0",
        "lithos_knot\0--name\0a\0--master\0/etc/x\0--config\0",
    ] {
        assert_eq!(read_args(bad, "/etc/x"), Err(()), "{:?}", bad);
    }
}
