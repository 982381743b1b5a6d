use cmd::cmd_record::CmdRecord;
use cmd::error::CmdError;
use cmd::summary::{summary_lines, usage_groups};
use cmd::file_manager::FileManagerBuilder;
use cmd::program::parse_programs;
use cmd::strutil::{contains_pat, count_matches, replace_all, replace_first, split_on, str_eq, trim};

#[test]
fn string_helpers_behave() {
    assert!(str_eq("abc", "abc"));
    assert!(!str_eq("abc", "abd"));
    assert_eq!(replace_all("aaa", "a", "bb"), "bbbbbb");
    assert_eq!(replace_all("aa", "a", "aa"), "aaaa");
    assert_eq!(replace_first("x {} y {}", "{}", "v"), "x v y {}");
    assert_eq!(count_matches("{}{}x{}", "{}"), 3);
    assert!(contains_pat("a && b", "&&"));
    assert!(!contains_pat("a & b", "&&"));
    let pieces = split_on("a && b && c", " && ");
    assert_eq!(pieces, vec!["a".to_string(), "b".to_string(), "c".to_string()]);
    assert_eq!(split_on("&&", "&&"), vec!["".to_string(), "".to_string()]);
    assert_eq!(trim("  spaced out \t"), "spaced out");
    assert_eq!(trim(""), "");
}

#[test]
fn command_lines_split_into_programs() {
    let programs = parse_programs("git pull --rebase && git push");
    assert_eq!(programs.len(), 2);
    assert_eq!(programs[0].program, "git");
    assert_eq!(programs[0].args, vec!["pull".to_string(), "--rebase".to_string()]);
    assert_eq!(programs[1].program, "git");
    assert_eq!(programs[1].args, vec!["push".to_string()]);
}

#[test]
fn single_command_has_one_program() {
    let programs = parse_programs("echo hello\n");
    assert_eq!(programs.len(), 1);
    assert_eq!(programs[0].program, "echo");
    assert_eq!(programs[0].args, vec!["hello".to_string()]);
}

#[test]
fn error_kinds_describe_themselves() {
    assert_eq!(CmdError::DuplicateCmdError.message(), "The command already exists");
    assert_eq!(CmdError::BaseError("why".to_string()).message(), "Error");
    assert_eq!(CmdError::OSProcessError("w".to_string()).message(), "Cannot run command");
    assert_eq!(CmdError::CSVError("w".to_string()).message(), "CSV error");
    assert_eq!(CmdError::SQLError("w".to_string()).message(), "SQL error");
    assert_eq!(
        CmdError::CSVSerdeError("w".to_string()).message(),
        "Failed serializing/deserializing record"
    );
    assert_eq!(CmdError::BaseError("why".to_string()).detail().unwrap(), "why");
    assert!(CmdError::DuplicateCmdError.detail().is_none());
    let converted: CmdError = CmdError::from("boom".to_string());
    assert!(matches!(converted, CmdError::BaseError(_)));
}

#[test]
fn test_create_file() {
    let file_manager = FileManagerBuilder::new("test.csv".to_string())
        .expect("no home directory in the test environment")
        .on_dir("./tmp".to_string())
        .build();
    assert_eq!(file_manager.get_home_dir(), "./tmp");
    assert_eq!(file_manager.get_file_name(), "test.csv");
    assert_eq!(file_manager.path, "./tmp/test.csv");
}

#[test]
fn summary_groups_counts_descending() {
    let rec = |id: usize, command: &str, used_times: usize| CmdRecord {
        id,
        command: command.to_string(),
        used_times,
    };
    let records = vec![rec(1, "a", 2), rec(2, "b", 0), rec(3, "c", 2), rec(4, "d", 7)];
    let groups = usage_groups(&records);
    assert_eq!(groups, vec![(7, 1), (2, 2), (0, 1)]);
    let lines = summary_lines(&groups);
    assert_eq!(lines[0], "There are 1 used commands that have been used 7 times");
    assert_eq!(lines[1], "There are 2 used commands that have been used 2 times");
    assert_eq!(lines[2], "There are 1 used commands that have been used 0 times");
}

#[test]
fn default_location_sits_under_the_settings_directory() {
    if let Some(b) = FileManagerBuilder::new("cmd.csv".to_string()) {
        assert!(b.home.ends_with("/.cmd"));
        assert!(b.path.ends_with("/.cmd/cmd.csv"));
        assert_eq!(b.file_name, "cmd.csv");
    }
}
