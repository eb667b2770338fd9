//! What is looked at before the supervisor starts its work.
use vstd::prelude::*;

use crate::command::Binaries;
use crate::text::{
    decimal, decimal_int, is_digit, is_white_space, law_decimal_reads_back, lemma_decimal,
    parse_i32, parsed_i32, push_decimal_i32, trim, trimmed, trimmed_back, trimmed_front,
};

verus! {

/// Checks the directory with the device nodes: it must exist. `shown` is how it
/// is shown to the user.
pub fn check_master_config(devfs_exists: bool, shown: &str) -> (r: Result<(), String>)
    ensures
        match r {
            Ok(()) => devfs_exists,
            Err(message) => !devfs_exists && message@ == "Devfs dir ("@ + shown@
                + ") must exist and contain device nodes"@,
        },
{
    if devfs_exists {
        Ok(())
    } else {
        let mut message: String = "Devfs dir (".to_owned();
        message.append(shown);
        message.append(") must exist and contain device nodes");
        Err(message)
    }
}

/// Checks that the programs of the suite are there, `lithos_tree` first.
pub fn get_binaries(
    bin: Binaries,
    tree_is_file: bool,
    knot_is_file: bool,
) -> (r: Result<Binaries, String>)
    ensures
        match r {
            Ok(found) => tree_is_file && knot_is_file && found == bin,
            Err(message) => if tree_is_file {
                !knot_is_file && message@ == "Can't find lithos_knot binary"@
            } else {
                message@ == "Can't find lithos_tree binary"@
            },
        },
{
    if !tree_is_file {
        return Err("Can't find lithos_tree binary".to_owned());
    }
    if !knot_is_file {
        return Err("Can't find lithos_knot binary".to_owned());
    }
    Ok(bin)
}

/// What was found where the pid of the supervisor is written.
#[derive(Debug)]
pub enum PidFile {
    Missing,
    Unreadable,
    Text(String),
}

/// What is to be done about a pid file.
#[derive(Clone, Copy, PartialEq, Eq, Structural, Debug)]
pub enum MasterCheck {
    /// It is ours already: nothing.
    Ours,
    /// It is that of this process. If that runs, there is another supervisor; if
    /// not, the file is to be written.
    Probe(i32),
    /// It makes no sense: it is to be written, with a warning.
    Overwrite,
    /// There is none: it is to be written.
    Write,
}

/// What is to be done about a pid file.
pub open spec fn pid_file_check(file: PidFile, mypid: i32) -> MasterCheck {
    match file {
        PidFile::Missing => MasterCheck::Write,
        PidFile::Unreadable => MasterCheck::Overwrite,
        PidFile::Text(text) => match parsed_i32(trimmed(text@)) {
            Some(pid) => if pid == mypid {
                MasterCheck::Ours
            } else {
                MasterCheck::Probe(pid)
            },
            None => MasterCheck::Overwrite,
        },
    }
}

/// What is to be done about the pid file of the supervisor, whose own pid is
/// `mypid`.
pub fn check_process(file: &PidFile, mypid: i32) -> (r: MasterCheck)
    ensures
        r == pid_file_check(*file, mypid),
{
    match file {
        PidFile::Missing => MasterCheck::Write,
        PidFile::Unreadable => MasterCheck::Overwrite,
        PidFile::Text(text) => match parse_i32(trim(text.as_str())) {
            Some(pid) => if pid == mypid {
                MasterCheck::Ours
            } else {
                MasterCheck::Probe(pid)
            },
            None => MasterCheck::Overwrite,
        },
    }
}

/// Whether the supervisor may go on though a pid file names `pid`: not while that
/// process is alive.
pub fn check_other_master(pid: i32, alive: bool) -> (r: Result<(), String>)
    ensures
        match r {
            Ok(()) => !alive,
            Err(message) => alive && message@ == "Master pid is "@ + decimal_int(pid as int)
                + ". And there is alive process with that pid."@,
        },
{
    if alive {
        let mut message: String = "Master pid is ".to_owned();
        push_decimal_i32(&mut message, pid);
        message.append(". And there is alive process with that pid.");
        Err(message)
    } else {
        Ok(())
    }
}

/// What is written into the pid file.
pub open spec fn pid_line(pid: i32) -> Seq<char> {
    decimal_int(pid as int) + "\n"@
}

/// What is written into the pid file.
pub fn pid_file_text(pid: i32) -> (r: String)
    ensures
        r@ == pid_line(pid),
{
    let mut text: String = String::new();
    push_decimal_i32(&mut text, pid);
    text.append("\n");
    assert(text@ =~= pid_line(pid));
    text
}

/// A pid file that was written by a supervisor is read back as that
/// supervisor's: as our own by the supervisor itself, and as a process to be
/// looked at by any other.
pub proof fn law_pid_file_reads_back(file: PidFile, pid: i32, mypid: i32)
    requires
        file matches PidFile::Text(text) && text@ == pid_line(pid),
    ensures
        pid_file_check(file, mypid) == if pid == mypid {
            MasterCheck::Ours
        } else {
            MasterCheck::Probe(pid)
        },
{
    reveal_strlit("\n");
    let number = decimal_int(pid as int);
    let line = pid_line(pid);
    assert(number.len() > 0 && !is_white_space(number[0]) && !is_white_space(number.last())) by {
        if pid < 0 {
            lemma_decimal((-pid) as nat);
            assert(number.last() == decimal((-pid) as nat).last());
            assert(is_digit(decimal((-pid) as nat).last()));
        } else {
            lemma_decimal(pid as nat);
            assert(is_digit(number[0]) && is_digit(number.last()));
        }
    }
    assert(line[0] == number[0]);
    assert(trimmed_front(line) == line);
    assert(line.last() == '\n');
    assert(line.drop_last() =~= number);
    assert(trimmed_back(line) == trimmed_back(number));
    assert(trimmed(line) == number);
    law_decimal_reads_back(pid);
}

/// What is done about a pid file: one that is not there is written; one that holds no
/// number, or cannot be read, is overwritten; one with our own pid is left alone; and
/// with any other pid it depends on that process.
pub proof fn law_pid_file_decides(file: PidFile, mypid: i32)
    ensures
        file is Missing ==> pid_file_check(file, mypid) == MasterCheck::Write,
        file is Unreadable ==> pid_file_check(file, mypid) == MasterCheck::Overwrite,
        file matches PidFile::Text(text) ==> (parsed_i32(trimmed(text@)) is None ==> pid_file_check(
            file,
            mypid,
        ) == MasterCheck::Overwrite),
        file matches PidFile::Text(text) ==> (parsed_i32(trimmed(text@)) matches Some(pid) ==> (pid
            == mypid ==> pid_file_check(file, mypid) == MasterCheck::Ours) && (pid != mypid
            ==> pid_file_check(file, mypid) == MasterCheck::Probe(pid))),
{
}

/// The pid file holds the pid and the end of the line.
pub proof fn law_pid_line(pid: i32)
    ensures
        pid_line(pid).len() == decimal_int(pid as int).len() + 1,
        pid_line(pid).last() == '\n',
        pid_line(pid).drop_last() == decimal_int(pid as int),
{
    reveal_strlit("\n");
    assert(pid_line(pid).drop_last() =~= decimal_int(pid as int));
}

} // verus!
