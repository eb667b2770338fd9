use lithos_tree::command::{Binaries, Word};
use lithos_tree::startup::{
    check_master_config, check_other_master, check_process, get_binaries, pid_file_text,
    MasterCheck, PidFile,
};

fn binaries() -> Binaries {
    Binaries { lithos_tree: Word::from_text("tree"), lithos_knot: Word::from_text("knot") }
}

#[test]
fn devfs_must_exist() {
    assert_eq!(check_master_config(true, "\"/dev\""), Ok(()));
    assert_eq!(
        check_master_config(false, "\"/var/lib/lithos/dev\""),
        Err("Devfs dir (\"/var/lib/lithos/dev\") must exist and contain device nodes".to_string())
    );
}

#[test]
fn binaries_must_be_there() {
    let found = get_binaries(binaries(), true, true).unwrap();
    assert!(matches!(found.lithos_knot, Word::Text(ref text) if text == "knot"));
    assert!(matches!(found.lithos_tree, Word::Text(ref text) if text == "tree"));
    assert_eq!(get_binaries(binaries(), false, true).unwrap_err(), "Can't find lithos_tree binary");
    assert_eq!(get_binaries(binaries(), false, false).unwrap_err(), "Can't find lithos_tree binary");
    assert_eq!(get_binaries(binaries(), true, false).unwrap_err(), "Can't find lithos_knot binary");
}

#[test]
fn pid_files_are_checked() {
    assert_eq!(check_process(&PidFile::Missing, 10), MasterCheck::Write);
    assert_eq!(check_process(&PidFile::Unreadable, 10), MasterCheck::Overwrite);
    let text = |text: &str| PidFile::Text(text.to_string());
    assert_eq!(check_process(&text("10\n"), 10), MasterCheck::Ours);
    assert_eq!(check_process(&text("  11 \n"), 10), MasterCheck::Probe(11));
    assert_eq!(check_process(&text(""), 10), MasterCheck::Overwrite);
    assert_eq!(check_process(&text("1 0"), 10), MasterCheck::Overwrite);
    assert_eq!(check_process(&text("99999999999"), 10), MasterCheck::Overwrite);
}

#[test]
fn pid_file_reads_back() {
    for pid in [1, 300, 4194304] {
        assert_eq!(pid_file_text(pid), format!("{}\n", pid));
        let file = PidFile::Text(pid_file_text(pid));
        assert_eq!(check_process(&file, pid), MasterCheck::Ours);
        assert_eq!(check_process(&file, pid + 1), MasterCheck::Probe(pid));
    }
}

#[test]
fn there_is_one_master_only() {
    assert_eq!(check_other_master(77, false), Ok(()));
    assert_eq!(
        check_other_master(77, true),
        Err("Master pid is 77. And there is alive process with that pid.".to_string())
    );
}
