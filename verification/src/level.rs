//! How much is logged.
use vstd::prelude::*;

verus! {

/// A level of the log, from the least to the most talkative.
#[derive(Clone, Copy, PartialEq, Eq, Structural, Debug)]
pub enum LogLevel {
    Error,
    Warn,
    Info,
    Debug,
    Trace,
}

/// The name of a level.
pub open spec fn level_name(level: LogLevel) -> Seq<char> {
    match level {
        LogLevel::Error => "ERROR"@,
        LogLevel::Warn => "WARN"@,
        LogLevel::Info => "INFO"@,
        LogLevel::Debug => "DEBUG"@,
        LogLevel::Trace => "TRACE"@,
    }
}

/// The upper case of an ASCII letter; other characters stay as they are.
pub open spec fn ascii_upper(c: char) -> char {
    if 'a' as int <= c as int <= 'z' as int {
        (c as int - 'a' as int + 'A' as int) as char
    } else {
        c
    }
}

/// Whether `text` is `name`, whatever the case of its ASCII letters.
pub open spec fn is_spelling(text: Seq<char>, name: Seq<char>) -> bool {
    text.len() == name.len() && forall|i: int|
        0 <= i < text.len() ==> ascii_upper(#[trigger] text[i]) == name[i]
}

/// The level that `text` names, if any.
pub open spec fn named_level(text: Seq<char>) -> Option<LogLevel> {
    if is_spelling(text, level_name(LogLevel::Error)) {
        Some(LogLevel::Error)
    } else if is_spelling(text, level_name(LogLevel::Warn)) {
        Some(LogLevel::Warn)
    } else if is_spelling(text, level_name(LogLevel::Info)) {
        Some(LogLevel::Info)
    } else if is_spelling(text, level_name(LogLevel::Debug)) {
        Some(LogLevel::Debug)
    } else if is_spelling(text, level_name(LogLevel::Trace)) {
        Some(LogLevel::Trace)
    } else {
        None
    }
}

/// `<log::LogLevel as FromStr>::from_str`: the level whose name `text` is, in any
/// case of its ASCII letters, and an error for every other text.
#[verifier::external_body]
pub(crate) fn parse_level(text: &str) -> (r: Option<LogLevel>)
    ensures
        r == named_level(text@),
{
    match text.parse::<log::LogLevel>() {
        Ok(log::LogLevel::Error) => Some(LogLevel::Error),
        Ok(log::LogLevel::Warn) => Some(LogLevel::Warn),
        Ok(log::LogLevel::Info) => Some(LogLevel::Info),
        Ok(log::LogLevel::Debug) => Some(LogLevel::Debug),
        Ok(log::LogLevel::Trace) => Some(LogLevel::Trace),
        Err(()) => None,
    }
}

/// `<log::LogLevel as Display>::fmt`: the name of a level, in upper case.
#[verifier::external_body]
pub(crate) fn level_text(level: LogLevel) -> (r: String)
    ensures
        r@ == level_name(level),
{
    match level {
        LogLevel::Error => log::LogLevel::Error.to_string(),
        LogLevel::Warn => log::LogLevel::Warn.to_string(),
        LogLevel::Info => log::LogLevel::Info.to_string(),
        LogLevel::Debug => log::LogLevel::Debug.to_string(),
        LogLevel::Trace => log::LogLevel::Trace.to_string(),
    }
}

/// The level to log at: the one asked for on the command line, else the one
/// that the configuration names, else `Warn`.
pub open spec fn chosen_level(option: Option<LogLevel>, configured: Seq<char>) -> LogLevel {
    match option {
        Some(level) => level,
        None => match named_level(configured) {
            Some(level) => level,
            None => LogLevel::Warn,
        },
    }
}

/// The level to log at: the one asked for on the command line, else the one
/// that the configuration names, else `Warn`.
pub fn choose_log_level(option: Option<LogLevel>, configured: &str) -> (r: LogLevel)
    ensures
        r == chosen_level(option, configured@),
{
    match option {
        Some(level) => level,
        None => match parse_level(configured) {
            Some(level) => level,
            None => LogLevel::Warn,
        },
    }
}

/// Every level is named by its own name.
pub proof fn law_level_names_read_back(level: LogLevel)
    ensures
        named_level(level_name(level)) == Some(level),
{
    reveal_strlit("ERROR");
    reveal_strlit("WARN");
    reveal_strlit("INFO");
    reveal_strlit("DEBUG");
    reveal_strlit("TRACE");
    let name = level_name(level);
    match level {
        LogLevel::Error => {},
        LogLevel::Warn => {},
        LogLevel::Info => {
            assert(ascii_upper(name[0]) == 'I');
        },
        LogLevel::Debug => {
            assert(ascii_upper(name[0]) == 'D');
        },
        LogLevel::Trace => {
            assert(ascii_upper(name[0]) == 'T');
        },
    }
}

/// A text names one level at most: the one whose name it spells, whatever the case of
/// its letters.
pub proof fn law_level_is_the_one_spelled(text: Seq<char>, level: LogLevel)
    ensures
        is_spelling(text, level_name(level)) <==> named_level(text) == Some(level),
{
    reveal_strlit("ERROR");
    reveal_strlit("WARN");
    reveal_strlit("INFO");
    reveal_strlit("DEBUG");
    reveal_strlit("TRACE");
    assert forall|other: LogLevel|
        is_spelling(text, #[trigger] level_name(other)) implies text.len() > 0 && ascii_upper(
        text[0],
    ) == level_name(other)[0] by {}
    assert(level_name(LogLevel::Error)[0] == 'E');
    assert(level_name(LogLevel::Warn)[0] == 'W');
    assert(level_name(LogLevel::Info)[0] == 'I');
    assert(level_name(LogLevel::Debug)[0] == 'D');
    assert(level_name(LogLevel::Trace)[0] == 'T');
}

/// The level that is asked for on the command line is taken, whatever is configured;
/// without one, the one that the configuration spells; and where it spells none,
/// `Warn`.
pub proof fn law_level_is_chosen(option: Option<LogLevel>, configured: Seq<char>, level: LogLevel)
    ensures
        option == Some(level) ==> chosen_level(option, configured) == level,
        option is None && is_spelling(configured, level_name(level)) ==> chosen_level(
            option,
            configured,
        ) == level,
        option is None && (forall|other: LogLevel|
            !is_spelling(configured, #[trigger] level_name(other))) ==> chosen_level(
            option,
            configured,
        ) == LogLevel::Warn,
{
    law_level_is_the_one_spelled(configured, level);
    if named_level(configured) is Some {
        law_level_is_the_one_spelled(configured, named_level(configured)->0);
    }
}

} // verus!
