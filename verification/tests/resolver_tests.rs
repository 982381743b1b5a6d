use cmd::cmd_record::CmdRecord;
use cmd::git_ext::{route_record, slot_contexts, CmdExtensionGit, RouteChoice};
use cmd::resolver::{count_placeholders, fill_placeholders, fill_positional, resolve_env_vars};

fn env(pairs: &[(&str, &str)]) -> Vec<(String, String)> {
    pairs.iter().map(|(k, v)| (k.to_string(), v.to_string())).collect()
}

#[test]
fn placeholders_fill_in_order() {
    let answers = vec!["a".to_string(), "b".to_string()];
    let filled = fill_placeholders("cmd {} {}", &env(&[]), &answers);
    assert_eq!(filled, "cmd a b");
    assert_ne!(filled, "cmd b a");
}

#[test]
fn count_placeholders_counts_markers() {
    assert_eq!(count_placeholders("cmd {} {}"), 2);
    assert_eq!(count_placeholders("git log"), 0);
    assert_eq!(count_placeholders("{}{}{}"), 3);
    assert!(cmd::resolver::has_placeholders("cmd {}"));
    assert!(!cmd::resolver::has_placeholders("git log"));
}

#[test]
fn env_resolution_is_repeatable_and_keeps_unset_tokens() {
    let environment = env(&[("HOME", "/home/someone")]);
    let first = resolve_env_vars("echo $HOME", &environment);
    let second = resolve_env_vars("echo $HOME", &environment);
    assert_eq!(first, "echo /home/someone");
    assert_eq!(first, second);

    let unset = resolve_env_vars("echo $NOT_SET_ANYWHERE", &env(&[]));
    assert_eq!(unset, "echo $NOT_SET_ANYWHERE");
}

#[test]
fn env_resolution_replaces_every_occurrence() {
    let environment = env(&[("V", "x")]);
    assert_eq!(resolve_env_vars("$V $V and $V", &environment), "x x and x");
}

#[test]
fn env_pass_runs_before_positional_pass() {
    let environment = env(&[("DIR", "/tmp")]);
    let answers = vec!["fast".to_string()];
    let filled = fill_placeholders("ls $DIR --mode {}", &environment, &answers);
    assert_eq!(filled, "ls /tmp --mode fast");
}

#[test]
fn positional_pass_replaces_leftmost_first() {
    let out = fill_positional("a {} b {}", &vec!["1".to_string()]);
    assert_eq!(out, "a 1 b {}");
}

#[test]
fn filling_with_brace_free_answers_leaves_no_marker() {
    let answers = vec!["one".to_string(), "two".to_string()];
    let filled = fill_placeholders("run {} then {}", &vec![], &answers);
    assert_eq!(count_placeholders(&filled), 0);
}

#[test]
fn an_answer_carrying_a_brace_can_recombine_into_a_marker() {
    // The boundary of the filled-every-marker guarantee: an answer that
    // ends in an open brace, in front of a close brace of the template,
    // forms a fresh marker.
    let filled = fill_positional("cmd {}}", &vec!["x{".to_string()]);
    assert_eq!(filled, "cmd x{}");
    assert_eq!(count_placeholders(&filled), 1);
}

#[test]
fn known_git_templates_route_to_the_extension() {
    let ext = CmdExtensionGit {};
    let record = CmdRecord {
        id: 2,
        command: "git checkout {} && git pull --rebase && git checkout {} && git merge {}"
            .to_string(),
        used_times: 0,
    };
    assert!(matches!(route_record(&ext, &record), RouteChoice::Extension));
    assert!(ext.recognizes(&record));

    let plain = CmdRecord { id: 3, command: "git commit -m {}".to_string(), used_times: 0 };
    assert!(matches!(route_record(&ext, &plain), RouteChoice::Generic));
    assert!(!ext.recognizes(&plain));
}

#[test]
fn extension_labels_differ_from_the_generic_prompt() {
    // The extension prompts with branch-oriented contexts derived from the
    // surrounding subcommand text, never with the generic ordinal label.
    let contexts = slot_contexts(
        "git checkout {} && git pull --rebase && git checkout {} && git merge {}",
    );
    assert_eq!(
        contexts,
        vec!["git checkout".to_string(), "git checkout".to_string(), "git merge".to_string()]
    );
    for c in &contexts {
        assert!(!c.starts_with("Set param No."));
    }
}

#[test]
fn extension_fills_slots_with_chosen_branches() {
    let ext = CmdExtensionGit {};
    let filled = ext.fill_placeholders(
        "git checkout {} && git pull --rebase && git checkout {}",
        &vec!["feature".to_string(), "main".to_string()],
    );
    assert_eq!(filled, "git checkout feature && git pull --rebase && git checkout main");
}
