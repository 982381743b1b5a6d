use cmd::cmd_record::CmdRecord;
use cmd::csv_codec::parse_content;
use cmd::error::CmdError;
use cmd::service::{CmdService, SearchFilters};
use cmd::sql_store::CmdServiceSQL;
use rusqlite::Connection;

fn in_memory() -> Result<CmdServiceSQL, CmdError> {
    CmdServiceSQL::build_cmd_service(Some(Connection::open_in_memory().unwrap()))
}

#[test]
fn cmd_service_sql_test1() -> Result<(), CmdError> {
    let mut cmd_service = in_memory()?;

    cmd_service.add_command("git log".to_string())?;
    cmd_service.add_command("git branch".to_string())?;
    cmd_service.add_command("git commit -m {}".to_string())?;

    let commands = cmd_service.get_commands(SearchFilters::default())?;

    assert_eq!(commands.len(), 3);

    Ok(())
}

#[test]
fn cmd_service_sql_test2() -> Result<(), CmdError> {
    let mut cmd_service = in_memory()?;

    cmd_service.add_command("git log".to_string())?;
    cmd_service.add_command("ls -l".to_string())?;
    cmd_service.add_command("git commit -m {}".to_string())?;

    let commands = cmd_service.get_commands(
        SearchFilters::default().with_command("ls".to_string()),
    )?;

    assert_eq!(commands.len(), 1);

    Ok(())
}

#[test]
fn cmd_service_sql_add() -> Result<(), CmdError> {
    let mut cmd_service = in_memory()?;

    cmd_service.add_command("git log".to_string())?;
    cmd_service.add_command("ls -l".to_string())?;
    cmd_service.add_command("git commit -m {}".to_string())?;

    let mut commands = cmd_service.get_commands(
        SearchFilters::default().with_command("ls".to_string()),
    )?;

    let first_usage = commands.first().unwrap().used_times;

    for c in &mut commands {
        c.increase_usage();
        cmd_service.update_command(c.clone())?;
    }

    let commands2 = cmd_service.get_commands(
        SearchFilters::default().with_command("ls".to_string()),
    )?;

    assert_eq!(commands.len(), 1);
    assert_eq!(commands2.first().unwrap().used_times, first_usage + 1);

    Ok(())
}

#[test]
fn cmd_service_sql_insert() -> Result<(), CmdError> {
    let mut cmd_service = in_memory()?;

    for x in 1..10 {
        let c = CmdRecord { id: 1, command: String::from("git log"), used_times: x };
        cmd_service.insert_command(c)?;
    }

    let commands = cmd_service.get_commands(
        SearchFilters::default().with_command("git".to_string()),
    )?;

    assert_eq!(commands.len(), 1);

    Ok(())
}

#[test]
fn migrate_cvs_test() -> Result<(), CmdError> {
    let mut cmd_service = in_memory()?;

    let used_records = vec![
        "1,git log,0",
        "2,git branch,4",
        "3,git commit -m {},1",
        "3,git commit -m {},1",
        "3,git commit -m {},1",
    ];
    let content = used_records.join("\n");
    let saved = parse_content(&content);
    let used = parse_content(&content);

    cmd_service.migrate_cvs(&saved, &used)?;

    let commands = cmd_service.get_commands(SearchFilters::default())?;

    assert_eq!(
        commands
            .iter()
            .map(|c| format!("{},{}", c.command, c.used_times))
            .collect::<Vec<String>>(),
        vec!["git log,0", "git branch,4", "git commit -m {},3"]
    );

    Ok(())
}

#[test]
fn sql_duplicate_add_is_reported() -> Result<(), CmdError> {
    let mut cmd_service = in_memory()?;
    cmd_service.add_command("git log".to_string())?;
    let second = cmd_service.add_command("git log".to_string());
    assert!(matches!(second, Err(CmdError::DuplicateCmdError)));
    let rows = cmd_service.get_commands(SearchFilters::default())?;
    assert_eq!(rows.len(), 1);
    Ok(())
}

#[test]
fn sql_presence_and_delete() -> Result<(), CmdError> {
    let mut cmd_service = in_memory()?;
    cmd_service.add_command("git log".to_string())?;
    let probe = CmdRecord { id: 0, command: "git log".to_string(), used_times: 0 };
    assert!(cmd_service.is_record_present(&probe));
    cmd_service.delete_command(probe.clone())?;
    assert!(!cmd_service.is_record_present(&probe));
    Ok(())
}

#[test]
fn sql_upsert_floors_fresh_texts_to_one() -> Result<(), CmdError> {
    let mut cmd_service = in_memory()?;
    let fresh = CmdRecord { id: 9, command: "cargo build".to_string(), used_times: 42 };
    cmd_service.update_command(fresh)?;
    let rows = cmd_service.get_commands(SearchFilters::default())?;
    assert_eq!(rows.len(), 1);
    assert_eq!(rows[0].used_times, 1);
    Ok(())
}

#[test]
fn sql_used_filter_keeps_only_used_rows() -> Result<(), CmdError> {
    let mut cmd_service = in_memory()?;
    cmd_service.add_command("git log".to_string())?;
    cmd_service.insert_command(CmdRecord {
        id: 0,
        command: "git push".to_string(),
        used_times: 2,
    })?;
    let used = cmd_service.get_commands(SearchFilters::default().only_used())?;
    assert_eq!(used.len(), 1);
    assert_eq!(used[0].command, "git push");
    Ok(())
}
