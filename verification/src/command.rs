//! How a supervised process is started, and how its command line is recognised
//! again by a supervisor that takes over.
use vstd::prelude::*;

use crate::level::{level_name, level_text, LogLevel};
use crate::path::{file_name, is_same_path, last_name, same_path};
use crate::text::{
    each_ended, is_free_of, is_split, joined, lemma_split_unique, same_text, splitn,
};

verus! {

/// A word of a command line or of the environment: text, or bytes that are not
/// text.
#[derive(Debug)]
pub enum Word {
    Text(String),
    Os(Vec<u8>),
}

/// What a word is.
pub enum WordView {
    Text(Seq<char>),
    Os(Seq<u8>),
}

impl View for Word {
    type V = WordView;

    open spec fn view(&self) -> WordView {
        match self {
            Word::Text(text) => WordView::Text(text@),
            Word::Os(bytes) => WordView::Os(bytes@),
        }
    }
}

impl DeepView for Word {
    type V = WordView;

    open spec fn deep_view(&self) -> WordView {
        self@
    }
}

impl Word {
    /// A word that holds `text`.
    pub fn from_text(text: &str) -> (r: Word)
        ensures
            r@ == WordView::Text(text@),
    {
        Word::Text(text.to_owned())
    }

    /// The same word again.
    pub fn copy(&self) -> (r: Word)
        ensures
            r@ == self@,
    {
        match self {
            Word::Text(text) => Word::Text(text.clone()),
            Word::Os(bytes) => {
                let same: Vec<u8> = bytes.clone();
                assert(same@ =~= bytes@);
                Word::Os(same)
            },
        }
    }
}

/// A namespace that a process gets for itself.
#[derive(Clone, Copy, PartialEq, Eq, Structural, Debug)]
pub enum Namespace {
    Mount,
    Uts,
    Ipc,
    Pid,
}

/// A process to be started.
#[derive(Debug)]
pub struct Command {
    pub program: Word,
    pub args: Vec<Word>,
    /// The whole environment: nothing is inherited.
    pub env: Vec<(String, Word)>,
    pub namespaces: Vec<Namespace>,
    /// The range of file descriptors to close in the process, its end excluded.
    pub close_fds: Option<(i32, i32)>,
    /// Pairs of a file descriptor in the process and the one it is made from.
    pub pass_fds: Vec<(i32, i32)>,
}

/// What a command is.
pub struct CommandView {
    pub program: WordView,
    pub args: Seq<WordView>,
    pub env: Seq<(Seq<char>, WordView)>,
    pub namespaces: Seq<Namespace>,
    pub close_fds: Option<(i32, i32)>,
    pub pass_fds: Seq<(i32, i32)>,
}

impl View for Command {
    type V = CommandView;

    open spec fn view(&self) -> CommandView {
        CommandView {
            program: self.program@,
            args: self.args.deep_view(),
            env: self.env.deep_view(),
            namespaces: self.namespaces@,
            close_fds: self.close_fds,
            pass_fds: self.pass_fds@,
        }
    }
}

/// The programs of the suite.
#[derive(Debug)]
pub struct Binaries {
    pub lithos_tree: Word,
    pub lithos_knot: Word,
}

/// What the command line of the supervisor says about logging.
#[derive(Debug)]
pub struct LogOptions {
    pub log_stderr: bool,
    pub log_level: Option<LogLevel>,
}

/// The variables of the supervisor's environment that its children may see.
#[derive(Debug)]
pub struct Environment {
    pub term: Option<Word>,
    pub rust_log: Option<Word>,
    pub rust_backtrace: Option<Word>,
}

/// A word made of text.
pub open spec fn word(text: Seq<char>) -> WordView {
    WordView::Text(text)
}

/// The arguments about logging that are handed on to a child.
pub open spec fn log_args(options: LogOptions) -> Seq<WordView> {
    let stderr = if options.log_stderr {
        seq![word("--log-stderr"@)]
    } else {
        Seq::empty()
    };
    match options.log_level {
        Some(level) => stderr.push(word("--log-level="@ + level_name(level))),
        None => stderr,
    }
}

/// A variable, where it is set.
pub open spec fn variable(name: Seq<char>, value: Option<Word>) -> Seq<(Seq<char>, WordView)> {
    match value {
        Some(value) => seq![(name, value@)],
        None => Seq::empty(),
    }
}

/// The environment of a child: the terminal, `dumb` where there is none, and the
/// variables about logging and backtraces that are set.
pub open spec fn child_env(environment: Environment) -> Seq<(Seq<char>, WordView)> {
    let term = match environment.term {
        Some(term) => term@,
        None => word("dumb"@),
    };
    seq![("TERM"@, term)] + variable("RUST_LOG"@, environment.rust_log) + variable(
        "RUST_BACKTRACE"@,
        environment.rust_backtrace,
    )
}

/// The command that starts a child.
pub open spec fn child_command(
    knot: WordView,
    name: Seq<char>,
    master: WordView,
    config: Seq<char>,
    options: LogOptions,
    environment: Environment,
) -> CommandView {
    CommandView {
        program: knot,
        args: seq![
            word("--name"@),
            word(name),
            word("--master"@),
            master,
            word("--config"@),
            word(config),
        ] + log_args(options),
        env: child_env(environment),
        namespaces: seq![Namespace::Mount, Namespace::Uts, Namespace::Ipc, Namespace::Pid],
        close_fds: None,
        pass_fds: Seq::empty(),
    }
}

/// The command that starts the child `name` with the configuration `config`. The
/// name comes first, where it is easily seen in a list of processes.
pub fn new_child(
    bin: &Binaries,
    name: &str,
    master: &Word,
    config: &str,
    options: &LogOptions,
    environment: &Environment,
) -> (r: Command)
    ensures
        r@ == child_command(
            bin.lithos_knot@,
            name@,
            master@,
            config@,
            *options,
            *environment,
        ),
{
    let mut args: Vec<Word> = Vec::new();
    args.push(Word::from_text("--name"));
    args.push(Word::from_text(name));
    args.push(Word::from_text("--master"));
    args.push(master.copy());
    args.push(Word::from_text("--config"));
    args.push(Word::from_text(config));
    if options.log_stderr {
        args.push(Word::from_text("--log-stderr"));
    }
    if let Some(level) = options.log_level {
        let mut arg: String = "--log-level=".to_owned();
        arg.append(level_text(level).as_str());
        args.push(Word::Text(arg));
    }
    let mut env: Vec<(String, Word)> = Vec::new();
    let term: Word = match &environment.term {
        Some(term) => term.copy(),
        None => Word::from_text("dumb"),
    };
    env.push(("TERM".to_owned(), term));
    if let Some(value) = &environment.rust_log {
        env.push(("RUST_LOG".to_owned(), value.copy()));
    }
    if let Some(value) = &environment.rust_backtrace {
        env.push(("RUST_BACKTRACE".to_owned(), value.copy()));
    }
    let mut namespaces: Vec<Namespace> = Vec::new();
    namespaces.push(Namespace::Mount);
    namespaces.push(Namespace::Uts);
    namespaces.push(Namespace::Ipc);
    namespaces.push(Namespace::Pid);
    let r = Command {
        program: bin.lithos_knot.copy(),
        args,
        env,
        namespaces,
        close_fds: None,
        pass_fds: Vec::new(),
    };
    proof {
        let c = child_command(
            bin.lithos_knot@,
            name@,
            master@,
            config@,
            *options,
            *environment,
        );
        assert(r@.args =~= c.args);
        assert(r@.env =~= c.env);
        assert(r@.namespaces =~= c.namespaces);
        assert(r@.pass_fds =~= c.pass_fds);
    }
    r
}

/// A command line by which a child is recognised.
pub struct KnotArgs {
    pub program: Seq<char>,
    pub name: Seq<char>,
    pub master: Seq<char>,
    pub config: Seq<char>,
}

impl KnotArgs {
    /// The words of the command line, with an empty one behind the last of them.
    pub open spec fn parts(self) -> Seq<Seq<char>> {
        seq![
            self.program,
            "--name"@,
            self.name,
            "--master"@,
            self.master,
            "--config"@,
            self.config,
            Seq::empty(),
        ]
    }

    /// The command line as the system shows it: a NUL behind each word.
    pub open spec fn render(self) -> Seq<char> {
        joined(self.parts(), '\0')
    }

    /// Whether these are the arguments of a child of the supervisor whose
    /// configuration file is `global_config`.
    pub open spec fn is_child_of(self, global_config: Seq<char>) -> bool {
        &&& is_free_of(self.program, '\0')
        &&& is_free_of(self.name, '\0')
        &&& is_free_of(self.master, '\0')
        &&& is_free_of(self.config, '\0')
        &&& last_name(self.program) == Some("lithos_knot"@)
        &&& is_same_path(self.master, global_config)
    }
}

/// The name and the configuration of the child whose command line is `cmdline`,
/// where it is that of a child of this supervisor.
pub open spec fn recognized(cmdline: Seq<char>, global_config: Seq<char>) -> Option<
    (Seq<char>, Seq<char>),
> {
    if exists|k: KnotArgs| k.is_child_of(global_config) && #[trigger] k.render() == cmdline {
        let k = choose|k: KnotArgs|
            k.is_child_of(global_config) && #[trigger] k.render() == cmdline;
        Some((k.name, k.config))
    } else {
        None
    }
}

/// A child's command line splits into its words.
proof fn lemma_knot_split(k: KnotArgs, global_config: Seq<char>)
    requires
        k.is_child_of(global_config),
    ensures
        is_split(k.parts(), k.render(), 8, '\0'),
{
    reveal_strlit("--name");
    reveal_strlit("--master");
    reveal_strlit("--config");
    assert forall|i: int| 0 <= i < 7 implies is_free_of(#[trigger] k.parts()[i], '\0') by {
        assert(i == 0 || i == 1 || i == 2 || i == 3 || i == 4 || i == 5 || i == 6);
    }
}

/// A command line is that of one child only.
pub proof fn lemma_knot_unique(k: KnotArgs, cmdline: Seq<char>, global_config: Seq<char>)
    requires
        k.is_child_of(global_config),
        k.render() == cmdline,
    ensures
        recognized(cmdline, global_config) == Some((k.name, k.config)),
{
    let other = choose|k: KnotArgs|
        k.is_child_of(global_config) && #[trigger] k.render() == cmdline;
    lemma_knot_split(k, global_config);
    lemma_knot_split(other, global_config);
    lemma_split_unique(k.parts(), other.parts(), cmdline, 8, '\0');
    assert(k.parts()[2] == other.parts()[2]);
    assert(k.parts()[6] == other.parts()[6]);
}

/// Reads the command line of a process: the name and the configuration, where it
/// is that of a child of the supervisor whose configuration file is
/// `global_config`.
pub fn read_args(cmdline: &str, global_config: &str) -> (r: Result<(String, String), ()>)
    ensures
        match r {
            Ok((name, config)) => recognized(cmdline@, global_config@) == Some(
                (name@, config@),
            ),
            Err(_) => recognized(cmdline@, global_config@) is None,
        },
{
    let args: Vec<String> = splitn(cmdline, 8, '\0');
    let ghost parts: Seq<Seq<char>> = args.deep_view();
    if args.len() != 8 {
        proof {
            assert forall|k: KnotArgs| k.is_child_of(global_config@) implies #[trigger] k.render()
                != cmdline@ by {
                if k.render() == cmdline@ {
                    lemma_knot_split(k, global_config@);
                    lemma_split_unique(k.parts(), parts, cmdline@, 8, '\0');
                }
            }
        }
        return Err(());
    }
    let is_knot: bool = match file_name(args[0].as_str()) {
        Some(last) => same_text(last.as_str(), "lithos_knot"),
        None => false,
    };
    let ghost k = KnotArgs {
        program: parts[0],
        name: parts[2],
        master: parts[4],
        config: parts[6],
    };
    if !is_knot || !same_text(args[1].as_str(), "--name") || !same_text(
        args[3].as_str(),
        "--master",
    ) || !same_path(args[4].as_str(), global_config) || !same_text(args[5].as_str(), "--config")
        || !args[7].as_str().is_empty() {
        proof {
            assert forall|k: KnotArgs| k.is_child_of(global_config@) implies #[trigger] k.render()
                != cmdline@ by {
                if k.render() == cmdline@ {
                    lemma_knot_split(k, global_config@);
                    lemma_split_unique(k.parts(), parts, cmdline@, 8, '\0');
                    assert(parts[0] == k.program);
                    assert(parts[1] == "--name"@);
                    assert(parts[3] == "--master"@);
                    assert(parts[4] == k.master);
                    assert(parts[5] == "--config"@);
                    assert(parts[7] == Seq::<char>::empty());
                }
            }
        }
        return Err(());
    }
    proof {
        assert(parts[7] =~= Seq::<char>::empty());
        assert(parts =~= k.parts());
        assert(k.is_child_of(global_config@));
        lemma_knot_unique(k, cmdline@, global_config@);
    }
    Ok((args[2].clone(), args[6].clone()))
}

/// The text of a word.
pub open spec fn word_text(w: WordView) -> Seq<char> {
    match w {
        WordView::Text(text) => text,
        WordView::Os(_) => Seq::empty(),
    }
}

/// The command line of a running command, as the system shows it: its words, a
/// NUL behind each.
pub open spec fn command_line(command: CommandView) -> Seq<char> {
    each_ended(
        seq![word_text(command.program)] + command.args.map_values(|w: WordView| word_text(w)),
        '\0',
    )
}

/// A supervisor recognises the children that it starts without arguments about
/// logging: from the command line of such a child it reads back the name and the
/// configuration that it started the child with. A child that was started with
/// arguments about logging is not recognised, nor is any child by a supervisor with
/// another configuration file.
///
/// A word of a command line holds no NUL: the system cannot hand one over.
pub proof fn law_started_child_is_recognized(
    knot: Seq<char>,
    name: Seq<char>,
    master: Seq<char>,
    config: Seq<char>,
    options: LogOptions,
    environment: Environment,
    global_config: Seq<char>,
)
    requires
        is_free_of(knot, '\0'),
        is_free_of(name, '\0'),
        is_free_of(master, '\0'),
        is_free_of(config, '\0'),
        last_name(knot) == Some("lithos_knot"@),
    ensures
        recognized(
            command_line(
                child_command(word(knot), name, word(master), config, options, environment),
            ),
            global_config,
        ) == if !options.log_stderr && options.log_level is None && is_same_path(
            master,
            global_config,
        ) {
            Some((name, config))
        } else {
            None
        },
{
    let command = child_command(word(knot), name, word(master), config, options, environment);
    let line = command_line(command);
    let k = KnotArgs { program: knot, name, master, config };
    let basic = k.parts().drop_last();
    let extra = log_args(options).map_values(|w: WordView| word_text(w));
    let words = seq![word_text(command.program)] + command.args.map_values(
        |w: WordView| word_text(w),
    );
    assert(words =~= basic + extra);
    lemma_knot_split(k, master);
    let rest = each_ended(extra, '\0');
    lemma_each_ended_add(basic, extra);
    let parts = basic.push(rest);
    assert(parts.drop_last() =~= basic);
    assert(line =~= joined(parts, '\0'));
    assert forall|i: int| 0 <= i < 7 implies is_free_of(#[trigger] parts[i], '\0') by {
        assert(parts[i] == k.parts()[i]);
    }
    assert(is_split(parts, line, 8, '\0'));
    if !options.log_stderr && options.log_level is None && is_same_path(master, global_config) {
        assert(words =~= basic);
        assert(k.render() =~= line);
        lemma_knot_unique(k, line, global_config);
    } else {
        assert(options.log_stderr || options.log_level is Some ==> rest.len() > 0);
        assert forall|other: KnotArgs|
            other.is_child_of(global_config) implies #[trigger] other.render() != line by {
            if other.render() == line {
                lemma_knot_split(other, global_config);
                lemma_split_unique(other.parts(), parts, line, 8, '\0');
                assert(other.parts()[7] == parts[7]);
                assert(other.parts()[4] == parts[4]);
            }
        }
    }
}

/// Parts that follow each other are written one after the other.
proof fn lemma_each_ended_add(a: Seq<Seq<char>>, b: Seq<Seq<char>>)
    ensures
        each_ended(a + b, '\0') == each_ended(a, '\0') + each_ended(b, '\0'),
    decreases b.len(),
{
    if b.len() == 0 {
        assert(a + b =~= a);
        assert(each_ended(a + b, '\0') =~= each_ended(a, '\0') + each_ended(b, '\0'));
    } else {
        lemma_each_ended_add(a, b.drop_last());
        assert((a + b).drop_last() =~= a + b.drop_last());
        assert(each_ended(a + b, '\0') =~= each_ended(a, '\0') + each_ended(b, '\0'));
    }
}

/// How a child is started: the program is the one for children; its arguments are the
/// name, the configuration file of the supervisor and the child's own configuration,
/// each behind its option, the name first; then come those about logging that the
/// supervisor was given itself, and nothing else. It gets namespaces of its own, and
/// no sockets yet.
pub proof fn law_how_a_child_is_started(
    knot: WordView,
    name: Seq<char>,
    master: WordView,
    config: Seq<char>,
    options: LogOptions,
    environment: Environment,
)
    ensures
        ({
            let cmd = child_command(knot, name, master, config, options, environment);
            let n = 6 + (if options.log_stderr { 1int } else { 0 });
            &&& cmd.program == knot
            &&& cmd.args.len() == n + (if options.log_level is Some { 1int } else { 0 })
            &&& cmd.args[0] == WordView::Text("--name"@)
            &&& cmd.args[1] == WordView::Text(name)
            &&& cmd.args[2] == WordView::Text("--master"@)
            &&& cmd.args[3] == master
            &&& cmd.args[4] == WordView::Text("--config"@)
            &&& cmd.args[5] == WordView::Text(config)
            &&& options.log_stderr ==> cmd.args[6] == WordView::Text("--log-stderr"@)
            &&& options.log_level matches Some(level) ==> cmd.args[n] == WordView::Text(
                "--log-level="@ + level_name(level),
            )
            &&& cmd.namespaces.len() == 4
            &&& cmd.namespaces.contains(Namespace::Mount)
            &&& cmd.namespaces.contains(Namespace::Uts)
            &&& cmd.namespaces.contains(Namespace::Ipc)
            &&& cmd.namespaces.contains(Namespace::Pid)
            &&& cmd.close_fds is None
            &&& cmd.pass_fds.len() == 0
        }),
{
    let cmd = child_command(knot, name, master, config, options, environment);
    assert(cmd.namespaces[0] == Namespace::Mount);
    assert(cmd.namespaces[1] == Namespace::Uts);
    assert(cmd.namespaces[2] == Namespace::Ipc);
    assert(cmd.namespaces[3] == Namespace::Pid);
}

/// A child sees three variables of the supervisor's environment at most, as they are
/// there, and no others: the terminal, which is `dumb` where there is none, and those
/// about logging and backtraces, where they are set.
pub proof fn law_what_a_child_sees(
    knot: WordView,
    name: Seq<char>,
    master: WordView,
    config: Seq<char>,
    options: LogOptions,
    environment: Environment,
)
    ensures
        ({
            let env = child_command(knot, name, master, config, options, environment).env;
            let n = 1 + (if environment.rust_log is Some { 1int } else { 0 });
            &&& env.len() == n + (if environment.rust_backtrace is Some { 1int } else { 0 })
            &&& environment.term matches Some(term) ==> env[0] == ("TERM"@, term@)
            &&& environment.term is None ==> env[0] == ("TERM"@, WordView::Text("dumb"@))
            &&& environment.rust_log matches Some(value) ==> env[1] == ("RUST_LOG"@, value@)
            &&& environment.rust_backtrace matches Some(value) ==> env[n] == (
                "RUST_BACKTRACE"@,
                value@,
            )
        }),
{
}

/// The command line of a child, word by word, each with a NUL behind it.
pub open spec fn knot_line(
    program: Seq<char>,
    name: Seq<char>,
    master: Seq<char>,
    config: Seq<char>,
) -> Seq<char> {
    program + seq!['\0'] + "--name"@ + seq!['\0'] + name + seq!['\0'] + "--master"@ + seq!['\0']
        + master + seq!['\0'] + "--config"@ + seq!['\0'] + config + seq!['\0']
}

proof fn lemma_knot_line(k: KnotArgs)
    ensures
        k.render() == knot_line(k.program, k.name, k.master, k.config),
{
    let p = k.parts();
    assert(p.drop_last().len() == 7);
    reveal_with_fuel(each_ended, 8);
    let q = p.drop_last();
    assert(q.drop_last() =~= p.take(6));
    assert(p.take(6).drop_last() =~= p.take(5));
    assert(p.take(5).drop_last() =~= p.take(4));
    assert(p.take(4).drop_last() =~= p.take(3));
    assert(p.take(3).drop_last() =~= p.take(2));
    assert(p.take(2).drop_last() =~= p.take(1));
    assert(p.take(1).drop_last() =~= Seq::<Seq<char>>::empty());
    assert(each_ended(p.take(1), '\0') =~= p[0].push('\0'));
    assert(each_ended(p.take(2), '\0') =~= each_ended(p.take(1), '\0') + p[1].push('\0'));
    assert(each_ended(p.take(3), '\0') =~= each_ended(p.take(2), '\0') + p[2].push('\0'));
    assert(each_ended(p.take(4), '\0') =~= each_ended(p.take(3), '\0') + p[3].push('\0'));
    assert(each_ended(p.take(5), '\0') =~= each_ended(p.take(4), '\0') + p[4].push('\0'));
    assert(each_ended(p.take(6), '\0') =~= each_ended(p.take(5), '\0') + p[5].push('\0'));
    assert(each_ended(q, '\0') =~= each_ended(p.take(6), '\0') + p[6].push('\0'));
    assert(k.render() =~= knot_line(k.program, k.name, k.master, k.config));
}

/// A command line is recognised just where it is that of the program for children,
/// with a name, the supervisor's own configuration file and a configuration behind
/// their options, in this order, and nothing more; what is read from it is the name and
/// the configuration that stand there.
pub proof fn law_lines_that_are_recognized(
    program: Seq<char>,
    name: Seq<char>,
    master: Seq<char>,
    config: Seq<char>,
    global_config: Seq<char>,
)
    requires
        is_free_of(program, '\0'),
        is_free_of(name, '\0'),
        is_free_of(master, '\0'),
        is_free_of(config, '\0'),
    ensures
        last_name(program) == Some("lithos_knot"@) && is_same_path(master, global_config)
            ==> recognized(knot_line(program, name, master, config), global_config) == Some(
            (name, config),
        ),
        !(last_name(program) == Some("lithos_knot"@) && is_same_path(master, global_config))
            ==> recognized(knot_line(program, name, master, config), global_config) is None,
{
    let k = KnotArgs { program, name, master, config };
    let line = knot_line(program, name, master, config);
    lemma_knot_line(k);
    if last_name(program) == Some("lithos_knot"@) && is_same_path(master, global_config) {
        lemma_knot_unique(k, line, global_config);
    } else {
        assert(is_split(k.parts(), line, 8, '\0')) by {
            reveal_strlit("--name");
            reveal_strlit("--master");
            reveal_strlit("--config");
            assert forall|i: int| 0 <= i < 7 implies is_free_of(
                #[trigger] k.parts()[i],
                '\0',
            ) by {
                assert(i == 0 || i == 1 || i == 2 || i == 3 || i == 4 || i == 5 || i == 6);
            }
        }
        assert forall|other: KnotArgs|
            other.is_child_of(global_config) implies #[trigger] other.render() != line by {
            if other.render() == line {
                lemma_knot_split(other, global_config);
                lemma_split_unique(other.parts(), k.parts(), line, 8, '\0');
                assert(other.parts()[0] == k.parts()[0]);
                assert(other.parts()[4] == k.parts()[4]);
            }
        }
    }
}

/// Nothing but such a command line is recognised. The program and the configuration
/// file that stand on it are what comes back.
pub proof fn law_recognized_lines_are_those_of_children(
    line: Seq<char>,
    global_config: Seq<char>,
) -> (words: (Seq<char>, Seq<char>))
    requires
        recognized(line, global_config) is Some,
    ensures
        ({
            let (program, master) = words;
            let (name, config) = recognized(line, global_config)->0;
            &&& line == knot_line(program, name, master, config)
            &&& last_name(program) == Some("lithos_knot"@)
            &&& is_same_path(master, global_config)
            &&& is_free_of(program, '\0') && is_free_of(name, '\0') && is_free_of(master, '\0')
                && is_free_of(config, '\0')
        }),
{
    let k = choose|k: KnotArgs|
        k.is_child_of(global_config) && #[trigger] k.render() == line;
    lemma_knot_line(k);
    (k.program, k.master)
}

/// Nothing of a word or of a command is left out of what it is said to be.
pub proof fn law_commands_are_shown_whole(word: Word, cmd: Command)
    ensures
        word matches Word::Text(text) ==> word@ == WordView::Text(text@) && word.deep_view()
            == WordView::Text(text@),
        word matches Word::Os(bytes) ==> word@ == WordView::Os(bytes@) && word.deep_view()
            == WordView::Os(bytes@),
        cmd@.program == cmd.program@,
        cmd@.args.len() == cmd.args@.len(),
        forall|i: int| 0 <= i < cmd.args@.len() ==> #[trigger] cmd@.args[i] == cmd.args@[i]@,
        cmd@.env.len() == cmd.env@.len(),
        forall|i: int|
            0 <= i < cmd.env@.len() ==> #[trigger] cmd@.env[i] == (
                cmd.env@[i].0@,
                cmd.env@[i].1@,
            ),
        cmd@.namespaces == cmd.namespaces@,
        cmd@.close_fds == cmd.close_fds,
        cmd@.pass_fds == cmd.pass_fds@,
{
}

} // verus!
