//! The four patterns that the supervisor looks for in texts of the system, and
//! the search itself, which the `regex` crate does.
use vstd::prelude::*;

use crate::text::{is_free_of, is_white_space};

verus! {

/// Finds the parent in a line of `/proc/PID/stat`.
pub const PARENT_PID: &'static str = r"^\d+\s+\([^)]*\)\s+\S+\s+(\d+)\s";

/// Finds the pid at the end of the name of a command's state directory.
pub const COMMAND_DIR: &'static str = r"\.\(\d+\)$";

/// Matches the name of the cgroup of a supervised process.
pub const CHILD_GROUP: &'static str = r"^([\w-]+):([\w-]+\.\d+)\.scope$";

/// Matches the name of the cgroup of a command.
pub const COMMAND_GROUP: &'static str = r"^([\w-]+):cmd\.[\w-]+\.(\d+)\.scope$";

/// What `regex` finds of `pattern` in `text`: nothing, or the texts of the
/// pattern's groups, the whole match being the first of them.
pub uninterp spec fn regex_captures(pattern: Seq<char>, text: Seq<char>) -> Option<
    Seq<Option<Seq<char>>>,
>;

/// An ASCII digit.
pub open spec fn ascii_digit(c: char) -> bool {
    0x30 <= c as u32 <= 0x39
}

/// An ASCII character that belongs to a word: a letter, a digit or `_`.
pub open spec fn ascii_word(c: char) -> bool {
    ascii_digit(c) || 0x41 <= c as u32 <= 0x5a || 0x61 <= c as u32 <= 0x7a || c == '_'
}

/// A character beyond ASCII. Some of them are digits of other scripts, and some
/// belong to words.
pub open spec fn beyond_ascii(c: char) -> bool {
    c as u32 > 0x7f
}

/// At least one character, all of them ASCII digits.
pub open spec fn digits(s: Seq<char>) -> bool {
    s.len() > 0 && forall|i: int| 0 <= i < s.len() ==> ascii_digit(#[trigger] s[i])
}

/// At least one character, and no ASCII characters but digits.
pub open spec fn like_digits(s: Seq<char>) -> bool {
    s.len() > 0 && forall|i: int|
        0 <= i < s.len() ==> ascii_digit(#[trigger] s[i]) || beyond_ascii(s[i])
}

/// At least one character, all of them white space.
pub open spec fn spaces(s: Seq<char>) -> bool {
    s.len() > 0 && forall|i: int| 0 <= i < s.len() ==> is_white_space(#[trigger] s[i])
}

/// At least one character, none of them white space.
pub open spec fn no_spaces(s: Seq<char>) -> bool {
    s.len() > 0 && forall|i: int| 0 <= i < s.len() ==> !is_white_space(#[trigger] s[i])
}

/// At least one character, all of them ASCII characters of words or dashes.
pub open spec fn dashed_word(s: Seq<char>) -> bool {
    s.len() > 0 && forall|i: int|
        0 <= i < s.len() ==> ascii_word(#[trigger] s[i]) || s[i] == '-'
}

/// At least one character, and no ASCII characters but those of words and dashes.
pub open spec fn like_dashed_word(s: Seq<char>) -> bool {
    s.len() > 0 && forall|i: int|
        0 <= i < s.len() ==> ascii_word(#[trigger] s[i]) || s[i] == '-' || beyond_ascii(s[i])
}

/// A line of `/proc/PID/stat`: the pid, the command's name in brackets, a
/// state, the parent's pid, and the rest.
pub struct StatLine {
    pub pid: Seq<char>,
    pub gap_before_name: Seq<char>,
    pub command: Seq<char>,
    pub gap_before_state: Seq<char>,
    pub state: Seq<char>,
    pub gap_before_parent: Seq<char>,
    pub parent: Seq<char>,
    pub gap_before_rest: char,
    pub rest: Seq<char>,
}

impl StatLine {
    /// Whether the parts are what they should be.
    pub open spec fn well_formed(self) -> bool {
        self.plausible() && digits(self.pid) && digits(self.parent)
    }

    /// Whether the parts are what they should be, but for the digits, some of
    /// which may be of other scripts.
    pub open spec fn plausible(self) -> bool {
        &&& like_digits(self.pid)
        &&& spaces(self.gap_before_name)
        &&& is_free_of(self.command, ')')
        &&& spaces(self.gap_before_state)
        &&& no_spaces(self.state)
        &&& spaces(self.gap_before_parent)
        &&& like_digits(self.parent)
        &&& is_white_space(self.gap_before_rest)
    }

    /// The line.
    pub open spec fn render(self) -> Seq<char> {
        self.pid + self.gap_before_name + seq!['('] + self.command + seq![')']
            + self.gap_before_state + self.state + self.gap_before_parent + self.parent
            + seq![self.gap_before_rest] + self.rest
    }
}

/// The name of a command's state directory that ends with a pid in brackets.
pub struct CommandDir {
    pub front: Seq<char>,
    pub pid: Seq<char>,
}

impl CommandDir {
    /// Whether the pid is made of ASCII digits.
    pub open spec fn well_formed(self) -> bool {
        digits(self.pid)
    }

    /// Whether the pid may be made of digits.
    pub open spec fn plausible(self) -> bool {
        like_digits(self.pid)
    }

    /// The name.
    pub open spec fn render(self) -> Seq<char> {
        self.front + seq!['.', '('] + self.pid + seq![')']
    }
}

/// The name of the cgroup of a supervised process.
pub struct ChildGroup {
    pub sandbox: Seq<char>,
    pub child: Seq<char>,
    pub instance: Seq<char>,
}

impl ChildGroup {
    /// Whether the parts are ASCII words and digits.
    pub open spec fn well_formed(self) -> bool {
        dashed_word(self.sandbox) && dashed_word(self.child) && digits(self.instance)
    }

    /// Whether the parts may be words and digits.
    pub open spec fn plausible(self) -> bool {
        like_dashed_word(self.sandbox) && like_dashed_word(self.child) && like_digits(
            self.instance,
        )
    }

    /// What stands for the process in the group's name.
    pub open spec fn process(self) -> Seq<char> {
        self.child + seq!['.'] + self.instance
    }

    /// The name.
    pub open spec fn render(self) -> Seq<char> {
        self.sandbox + seq![':'] + self.process() + seq!['.', 's', 'c', 'o', 'p', 'e']
    }
}

/// The name of the cgroup of a command.
pub struct CommandGroup {
    pub sandbox: Seq<char>,
    pub command: Seq<char>,
    pub pid: Seq<char>,
}

impl CommandGroup {
    /// Whether the parts are ASCII words and digits.
    pub open spec fn well_formed(self) -> bool {
        dashed_word(self.sandbox) && dashed_word(self.command) && digits(self.pid)
    }

    /// Whether the parts may be words and digits.
    pub open spec fn plausible(self) -> bool {
        like_dashed_word(self.sandbox) && like_dashed_word(self.command) && like_digits(self.pid)
    }

    /// The name.
    pub open spec fn render(self) -> Seq<char> {
        self.sandbox + seq![':', 'c', 'm', 'd', '.'] + self.command + seq!['.'] + self.pid
            + seq!['.', 's', 'c', 'o', 'p', 'e']
    }
}

/// The name of a process's cgroup has one reading only.
pub proof fn law_child_group_reads_one_way(a: ChildGroup, b: ChildGroup)
    requires
        a.plausible(),
        b.plausible(),
        a.render() == b.render(),
    ensures
        a == b,
{
    let text = a.render();
    lemma_first_colon(text, a.sandbox, b.sandbox);
    let n = a.sandbox.len() as int;
    let x = n + 1 + a.child.len();
    let y = n + 1 + b.child.len();
    assert(text[x] == '.' && text[y] == '.');
    assert(x == y) by {
        if x < y {
            assert(b.child[x - n - 1] == text[x]);
        } else if y < x {
            assert(a.child[y - n - 1] == text[y]);
        }
    }
    assert(a.child =~= text.subrange(n + 1, x));
    assert(b.child =~= text.subrange(n + 1, x));
    assert(a.instance =~= text.subrange(x + 1, text.len() - 6));
    assert(b.instance =~= text.subrange(x + 1, text.len() - 6));
}

/// The name of a command's cgroup has one reading only.
pub proof fn law_command_group_reads_one_way(a: CommandGroup, b: CommandGroup)
    requires
        a.plausible(),
        b.plausible(),
        a.render() == b.render(),
    ensures
        a == b,
{
    let text = a.render();
    lemma_first_colon(text, a.sandbox, b.sandbox);
    let n = a.sandbox.len() as int;
    let x = n + 5 + a.command.len();
    let y = n + 5 + b.command.len();
    assert(text[x] == '.' && text[y] == '.');
    assert(x == y) by {
        if x < y {
            assert(b.command[x - n - 5] == text[x]);
        } else if y < x {
            assert(a.command[y - n - 5] == text[y]);
        }
    }
    assert(a.command =~= text.subrange(n + 5, x));
    assert(b.command =~= text.subrange(n + 5, x));
    assert(a.pid =~= text.subrange(x + 1, text.len() - 6));
    assert(b.pid =~= text.subrange(x + 1, text.len() - 6));
}

/// No name is both that of a process's cgroup and that of a command's.
pub proof fn law_groups_are_told_apart(a: ChildGroup, b: CommandGroup)
    requires
        a.plausible(),
        b.plausible(),
    ensures
        a.render() != b.render(),
{
    if a.render() == b.render() {
        let text = a.render();
        lemma_first_colon(text, a.sandbox, b.sandbox);
        let n = a.sandbox.len() as int;
        let x = n + 1 + a.child.len();
        assert(text[x] == '.');
        assert(text[n + 4] == '.');
        assert(text[n + 1] == 'c' && text[n + 2] == 'm' && text[n + 3] == 'd');
        assert(x == n + 4) by {
            if n + 4 < x {
                assert(a.child[3] == text[n + 4]);
            }
        }
        let y = n + 5 + b.command.len();
        assert(text[y] == '.');
        assert(b.command.len() > 0 && b.pid.len() > 0);
        assert(text.len() == y + 1 + b.pid.len() + 6);
        assert(text.len() == x + 1 + a.instance.len() + 6);
        assert(a.instance[y - x - 1] == text[y]);
    }
}

/// The first colon ends the sandbox.
proof fn lemma_first_colon(text: Seq<char>, a: Seq<char>, b: Seq<char>)
    requires
        like_dashed_word(a),
        like_dashed_word(b),
        a.len() < text.len(),
        forall|i: int| 0 <= i < a.len() ==> #[trigger] text[i] == a[i],
        text[a.len() as int] == ':',
        b.len() < text.len(),
        forall|i: int| 0 <= i < b.len() ==> #[trigger] text[i] == b[i],
        text[b.len() as int] == ':',
    ensures
        a == b,
{
    let m = a.len() as int;
    let n = b.len() as int;
    if m < n {
        assert(b[m] == text[m]);
    } else if n < m {
        assert(a[n] == text[n]);
    }
    assert forall|i: int| 0 <= i < m implies a[i] == b[i] by {
        assert(text[i] == a[i]);
    }
    assert(a =~= b);
}

/// A stat line names one parent only.
pub proof fn law_stat_line_reads_one_way(a: StatLine, b: StatLine)
    requires
        a.well_formed(),
        b.well_formed(),
        a.render() == b.render(),
    ensures
        a.parent == b.parent,
{
    let text = a.render();
    let is_digit = |c: char| ascii_digit(c);
    let is_space = |c: char| is_white_space(c);
    let not_bracket = |c: char| c != ')';
    let not_space = |c: char| !is_white_space(c);
    let (a1, b1) = (a.pid.len() as int, b.pid.len() as int);
    lemma_run_end(text, 0, a1, b1, is_digit);
    let (a2, b2) = (a1 + a.gap_before_name.len(), b1 + b.gap_before_name.len());
    lemma_run_end(text, a1, a2, b2, is_space);
    let (a3, b3) = (a2 + 1 + a.command.len(), b2 + 1 + b.command.len());
    lemma_run_end(text, a2 + 1, a3, b3, not_bracket);
    let (a4, b4) = (a3 + 1 + a.gap_before_state.len(), b3 + 1 + b.gap_before_state.len());
    assert(text[a4] == a.state[0] && text[b4] == b.state[0]);
    lemma_run_end(text, a3 + 1, a4, b4, is_space);
    let (a5, b5) = (a4 + a.state.len(), b4 + b.state.len());
    assert(text[a5] == a.gap_before_parent[0] && text[b5] == b.gap_before_parent[0]);
    lemma_run_end(text, a4, a5, b5, not_space);
    let (a6, b6) = (a5 + a.gap_before_parent.len(), b5 + b.gap_before_parent.len());
    assert(text[a6] == a.parent[0] && text[b6] == b.parent[0]);
    lemma_run_end(text, a5, a6, b6, is_space);
    let (a7, b7) = (a6 + a.parent.len(), b6 + b.parent.len());
    lemma_run_end(text, a6, a7, b7, is_digit);
    assert(a.parent =~= text.subrange(a6, a7));
    assert(b.parent =~= text.subrange(a6, a7));
}

/// Where a run of characters ends is settled by what the characters are.
proof fn lemma_run_end(text: Seq<char>, from: int, a: int, b: int, of: spec_fn(char) -> bool)
    requires
        0 <= from <= a < text.len(),
        from <= b < text.len(),
        forall|i: int| from <= i < a ==> of(#[trigger] text[i]),
        forall|i: int| from <= i < b ==> of(#[trigger] text[i]),
        !of(text[a]),
        !of(text[b]),
    ensures
        a == b,
{
    if a < b {
        assert(of(text[a]));
    } else if b < a {
        assert(of(text[b]));
    }
}

/// Whether `pattern` is one of the patterns above.
pub open spec fn is_known(pattern: Seq<char>) -> bool {
    ||| pattern == PARENT_PID@
    ||| pattern == COMMAND_DIR@
    ||| pattern == CHILD_GROUP@
    ||| pattern == COMMAND_GROUP@
}

/// The texts of a match: of the whole match, then of the groups.
pub type Groups = Option<Seq<Option<Seq<char>>>>;

/// `found` is right for the pattern of stat lines: a stat line gives a match with
/// the parent as its group, and a match comes of what may be a stat line.
pub open spec fn finds_parent(text: Seq<char>, found: Groups) -> bool {
    &&& forall|line: StatLine|
        line.well_formed() && #[trigger] line.render() == text ==> found is Some
            && found->0[1] == Some(line.parent)
    &&& found is Some ==> exists|line: StatLine|
        line.plausible() && #[trigger] line.render() == text && found->0[1] == Some(line.parent)
}

/// `found` is right for the pattern of command directories.
pub open spec fn finds_command_dir(text: Seq<char>, found: Groups) -> bool {
    &&& forall|dir: CommandDir|
        dir.well_formed() && #[trigger] dir.render() == text ==> found is Some
    &&& found is Some ==> exists|dir: CommandDir|
        dir.plausible() && #[trigger] dir.render() == text
}

/// `found` is right for the pattern of the cgroups of processes.
pub open spec fn finds_child_group(text: Seq<char>, found: Groups) -> bool {
    &&& forall|group: ChildGroup|
        group.well_formed() && #[trigger] group.render() == text ==> found is Some
            && found->0[1] == Some(group.sandbox) && found->0[2] == Some(group.process())
    &&& found is Some ==> exists|group: ChildGroup|
        group.plausible() && #[trigger] group.render() == text && found->0[1] == Some(
            group.sandbox,
        ) && found->0[2] == Some(group.process())
}

/// `found` is right for the pattern of the cgroups of commands.
pub open spec fn finds_command_group(text: Seq<char>, found: Groups) -> bool {
    &&& forall|group: CommandGroup|
        group.well_formed() && #[trigger] group.render() == text ==> found is Some
            && found->0[1] == Some(group.sandbox) && found->0[2] == Some(group.pid)
    &&& found is Some ==> exists|group: CommandGroup|
        group.plausible() && #[trigger] group.render() == text && found->0[1] == Some(
            group.sandbox,
        ) && found->0[2] == Some(group.pid)
}

/// Whether `found` is no match, or one with `count` texts, none of them missing.
pub open spec fn has_groups(found: Groups, count: nat) -> bool {
    found matches Some(texts) ==> texts.len() == count && forall|i: int|
        0 <= i < texts.len() ==> (#[trigger] texts[i]) is Some
}

/// `regex::Regex::new`, which accepts each of the four patterns, and
/// `regex::Regex::captures`: the first match of `pattern` in `text`, as the texts
/// of its groups.
///
/// Believed of it: the result depends on the two texts alone; a match of a
/// pattern gives one text for the whole match and one for each of the pattern's
/// groups, since no group of them stands in a part that a match may leave out;
/// the lines and names that a pattern spells out match it, with the groups where
/// they stand, if their digits and words are ASCII; and what matches has the shape
/// that the pattern spells out. Which of the characters beyond ASCII are digits or
/// belong to words is left unsaid: Unicode's tables settle that.
#[verifier::external_body]
pub(crate) fn captures(pattern: &str, text: &str) -> (r: Option<Vec<Option<String>>>)
    requires
        is_known(pattern@),
    ensures
        r.deep_view() == regex_captures(pattern@, text@),
        pattern@ == PARENT_PID@ ==> has_groups(r.deep_view(), 2),
        pattern@ == COMMAND_DIR@ ==> has_groups(r.deep_view(), 1),
        pattern@ == CHILD_GROUP@ ==> has_groups(r.deep_view(), 3),
        pattern@ == COMMAND_GROUP@ ==> has_groups(r.deep_view(), 3),
        pattern@ == PARENT_PID@ ==> finds_parent(text@, r.deep_view()),
        pattern@ == COMMAND_DIR@ ==> finds_command_dir(text@, r.deep_view()),
        pattern@ == CHILD_GROUP@ ==> finds_child_group(text@, r.deep_view()),
        pattern@ == COMMAND_GROUP@ ==> finds_command_group(text@, r.deep_view()),
{
    regex::Regex::new(pattern).unwrap().captures(text).map(
        |found| found.iter().map(|group| group.map(str::to_owned)).collect(),
    )
}

} // verus!
