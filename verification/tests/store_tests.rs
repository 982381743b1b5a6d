use cmd::cmd_record::CmdRecord;
use cmd::controller::Controller;
use cmd::csv_store::{build_cmd_csv_service, CmdServiceCSV};
use cmd::error::CmdError;
use cmd::cmd_record::CmdRecordIterable;
use cmd::service::{CmdService, SearchFilters};

fn rec(id: usize, command: &str, used_times: usize) -> CmdRecord {
    CmdRecord { id, command: command.to_string(), used_times }
}

fn csv_from(records: Vec<CmdRecord>) -> CmdServiceCSV {
    CmdServiceCSV::from_records("cmd.csv".to_string(), records)
}

#[test]
fn it_works() -> Result<(), CmdError> {
    let used_records = vec!["1,git log,0", "2,git branch,0", "3,git commit -m {},0"];
    let test_command = "git commit -m \"this is a test\"".to_string();

    let content = used_records.join("\n");
    let mut cmd_service = build_cmd_csv_service("used_file.csv".to_string(), &content);

    let ran_cmd = CmdRecord { id: 3, command: test_command.clone(), used_times: 2 };
    cmd_service.update_command(ran_cmd.clone())?;

    let updated_commands = cmd_service.get_commands(SearchFilters::default())?;
    let matching: Vec<&CmdRecord> = updated_commands
        .iter()
        .filter(|c| c.command == test_command)
        .collect();
    assert_eq!(matching.is_empty(), false);
    assert_eq!(matching.len(), 1);
    let actual = matching[0].clone();
    let expected = ran_cmd.clone();
    assert_eq!(actual, expected);

    let stored = cmd_service.file_content();
    let mut cmd_service = build_cmd_csv_service("used_file.csv".to_string(), &stored);
    cmd_service.update_command(CmdRecord {
        id: 3,
        command: test_command.clone(),
        used_times: 3,
    })?;

    let stored = cmd_service.file_content();
    let cmd_service = build_cmd_csv_service("used_file.csv".to_string(), &stored);
    let updated_commands = cmd_service.get_commands(SearchFilters::default())?;

    assert_eq!(updated_commands.len(), used_records.len() + 1);

    Ok(())
}

#[test]
fn add_rejects_duplicate_and_keeps_one_record() {
    let mut store = csv_from(vec![]);
    assert!(store.add_command("git log".to_string()).is_ok());
    let second = store.add_command("git log".to_string());
    assert!(matches!(second, Err(CmdError::DuplicateCmdError)));
    let all = store.get_commands(SearchFilters::default()).unwrap();
    let matching: Vec<_> = all.iter().filter(|c| c.command == "git log").collect();
    assert_eq!(matching.len(), 1);
    assert_eq!(all.len(), 1);
}

#[test]
fn merge_ranks_used_first_and_deduplicates() {
    let catalog = csv_from(vec![rec(1, "git log", 0), rec(2, "git branch", 0)]);
    let used = csv_from(vec![rec(1, "git log", 2)]);
    let controller = Controller { all: catalog, used };
    let (records, options) = controller.ranked_candidates("".to_string()).unwrap();
    assert_eq!(options, vec!["git log".to_string(), "git branch".to_string()]);
    assert_eq!(records.len(), 2);
    assert_eq!(records[0].used_times, 2);
    assert_eq!(records[1].used_times, 0);
}

#[test]
fn usage_accumulates_over_five_runs() {
    let catalog = csv_from(vec![rec(1, "git commit -m {}", 0)]);
    let used = csv_from(vec![]);
    let mut controller = Controller { all: catalog, used };
    for _ in 0..5 {
        let canonical = rec(1, "git commit -m {}", 0);
        controller
            .add_used_command(canonical, Some("git commit -m X".to_string()))
            .unwrap();
    }
    let used_rows = controller.get_used_commands("".to_string()).unwrap();
    let canonical: Vec<_> = used_rows
        .iter()
        .filter(|c| c.command == "git commit -m {}")
        .collect();
    let alias: Vec<_> = used_rows
        .iter()
        .filter(|c| c.command == "git commit -m X")
        .collect();
    assert_eq!(canonical.len(), 1);
    assert_eq!(alias.len(), 1);
    assert_eq!(canonical[0].used_times, 5);
    assert_eq!(alias[0].used_times, 5);
}

#[test]
fn query_filters_by_pattern_and_usage() {
    let store = csv_from(vec![rec(1, "git log", 0), rec(2, "ls -l", 3), rec(3, "git push", 1)]);
    let filtered = store
        .get_commands(SearchFilters::default().with_command("git".to_string()))
        .unwrap();
    assert_eq!(filtered.len(), 2);
    let used_only = store
        .get_commands(SearchFilters::default().only_used())
        .unwrap();
    assert_eq!(used_only.len(), 2);
    let both = store
        .get_commands(SearchFilters::default().with_command("git".to_string()).only_used())
        .unwrap();
    assert_eq!(both.len(), 1);
    assert_eq!(both[0].command, "git push");
}

#[test]
fn delete_removes_only_the_given_text() {
    let catalog = csv_from(vec![rec(1, "git log", 0), rec(2, "git branch", 0)]);
    let used = csv_from(vec![]);
    let mut controller = Controller { all: catalog, used };
    controller.delete_record(rec(1, "git log", 0)).unwrap();
    let left = controller.get_commands("".to_string()).unwrap();
    assert_eq!(left.len(), 1);
    assert_eq!(left[0].command, "git branch");
}

#[test]
fn no_match_comes_back_as_an_empty_list() {
    let controller = Controller { all: csv_from(vec![]), used: csv_from(vec![]) };
    let (records, options) = controller.ranked_candidates("anything".to_string()).unwrap();
    assert!(records.is_empty());
    assert!(options.is_empty());
}

#[test]
fn alias_only_when_the_text_changed() {
    assert_eq!(cmd::controller::alias_for("git log", "git log"), None);
    assert_eq!(
        cmd::controller::alias_for("git commit -m {}", "git commit -m X"),
        Some("git commit -m X".to_string())
    );
}

#[test]
fn clear_files_empties_both_stores() {
    let catalog = csv_from(vec![rec(1, "git log", 0)]);
    let used = csv_from(vec![rec(1, "git log", 2)]);
    let mut controller = Controller { all: catalog, used };
    controller.clear_files().unwrap();
    assert!(controller.get_commands("".to_string()).unwrap().is_empty());
    assert!(controller.get_used_commands("".to_string()).unwrap().is_empty());
}

#[test]
fn stable_sort_keeps_order_of_equal_counts() {
    let sorted = cmd::ranking::sort_by_usage_desc(vec![
        rec(1, "a", 1),
        rec(2, "b", 3),
        rec(3, "c", 1),
        rec(4, "d", 3),
    ]);
    let texts: Vec<&str> = sorted.iter().map(|r| r.command.as_str()).collect();
    assert_eq!(texts, vec!["b", "d", "a", "c"]);
}

#[test]
fn record_updates_and_equality() {
    let mut r = rec(7, "git log", 2);
    r.increase_usage();
    assert_eq!(r.used_times, 3);
    r.update_command("git pull");
    assert_eq!(r.command, "git pull");
    assert_eq!(r.id, 7);
    // equality is by text alone
    assert_eq!(r, rec(99, "git pull", 0));
    assert_ne!(r, rec(7, "git log", 3));
}

#[test]
fn sum_counts_over_records() {
    let v = vec![rec(1, "a", 2), rec(2, "b", 3), rec(3, "a", 4)];
    assert_eq!(v.sum_count(), 9);
    assert_eq!(v.checked_sum_for_text(&"a".to_string()), Some(6));
    assert_eq!(v.checked_sum_for_text(&"c".to_string()), Some(0));
}

#[test]
fn pattern_validity_is_testable() {
    assert!(cmd::csv_store::regex_pattern_accepted("git.*log"));
    assert!(!cmd::csv_store::regex_pattern_accepted("git ["));
}

#[test]
fn regex_queries_really_filter() {
    // A regex pattern, not a plain substring: the store must consult the
    // regular-expression engine.
    let store = csv_from(vec![rec(1, "git log", 0), rec(2, "git branch", 0)]);
    let hits = store
        .get_commands(SearchFilters::default().with_command("^git l.g$".to_string()))
        .unwrap();
    assert_eq!(hits.len(), 1);
    assert_eq!(hits[0].command, "git log");
}

#[test]
fn grouping_collects_and_aggregates_by_text() {
    let v = vec![rec(1, "git log", 2), rec(2, "git branch", 1), rec(3, "git log", 3)];
    let grouped = v.group_by();
    assert_eq!(grouped.len(), 2);
    let log_group = grouped.iter().find(|(t, _)| t == "git log").unwrap();
    assert_eq!(log_group.1.len(), 2);
    assert_eq!(log_group.1.iter().map(|r| r.id).collect::<Vec<_>>(), vec![1, 3]);

    let aggregated = v.group_and_sum_count();
    assert_eq!(aggregated.len(), 2);
    let log_row = aggregated.iter().find(|r| r.command == "git log").unwrap();
    assert_eq!(log_row.used_times, 5);
    assert_eq!(log_row.id, 1);
    let branch_row = aggregated.iter().find(|r| r.command == "git branch").unwrap();
    assert_eq!(branch_row.used_times, 1);
}
