use rusk::completions::Shell;

const ALL_SHELLS: [Shell; 5] = [Shell::Bash, Shell::Zsh, Shell::Fish, Shell::Nu, Shell::PowerShell];

#[test]
fn test_all_shells_have_scripts() {
    for shell in ALL_SHELLS {
        let script = shell.get_script();
        assert!(!script.is_empty(), "Script for {:?} should not be empty", shell);
        assert!(script.len() > 100, "Script for {:?} should be substantial", shell);
    }
}

#[test]
fn test_completion_scripts_are_different() {
    let bash = Shell::Bash.get_script();
    let zsh = Shell::Zsh.get_script();
    let fish = Shell::Fish.get_script();
    let nu = Shell::Nu.get_script();
    let powershell = Shell::PowerShell.get_script();

    // Each script should be unique
    assert_ne!(bash, zsh, "Bash and Zsh scripts should differ");
    assert_ne!(bash, fish, "Bash and Fish scripts should differ");
    assert_ne!(bash, nu, "Bash and Nu scripts should differ");
    assert_ne!(bash, powershell, "Bash and PowerShell scripts should differ");
    assert_ne!(zsh, fish, "Zsh and Fish scripts should differ");
    assert_ne!(zsh, nu, "Zsh and Nu scripts should differ");
    assert_ne!(zsh, powershell, "Zsh and PowerShell scripts should differ");
    assert_ne!(fish, nu, "Fish and Nu scripts should differ");
    assert_ne!(fish, powershell, "Fish and PowerShell scripts should differ");
    assert_ne!(nu, powershell, "Nu and PowerShell scripts should differ");
}

#[test]
fn test_completion_scripts_contain_rusk() {
    for shell in ALL_SHELLS {
        let script = shell.get_script();
        assert!(
            script.contains("rusk"),
            "Script for {:?} should contain 'rusk'",
            shell
        );
    }
}

#[test]
fn test_completion_show_output() {
    for shell in ALL_SHELLS {
        let script = shell.get_script();
        assert!(!script.is_empty());

        match shell {
            Shell::Bash => assert!(script.contains("#") || script.contains("complete"), "Bash script should contain shell syntax"),
            Shell::Zsh => assert!(script.contains("#") || script.contains("_rusk"), "Zsh script should contain function definitions"),
            Shell::Fish => assert!(script.contains("#") || script.contains("complete"), "Fish script should contain complete commands"),
            Shell::Nu => assert!(script.contains("#") || script.contains("def"), "Nu script should contain function definitions"),
            Shell::PowerShell => assert!(script.contains("#") || script.contains("Register-ArgumentCompleter") || script.contains("function"), "PowerShell script should contain Register-ArgumentCompleter or function definitions"),
        }
    }
}

#[test]
fn test_completion_scripts_are_valid_utf8() {
    for shell in ALL_SHELLS {
        let script = shell.get_script();
        // This will panic if not valid UTF-8
        let _ = script.to_string();
    }
}

#[test]
fn test_completion_scripts_have_expected_structure() {
    let bash = Shell::Bash.get_script();
    assert!(bash.contains("rusk") || bash.contains("complete"), "Bash script should have completion structure");

    let zsh = Shell::Zsh.get_script();
    assert!(zsh.contains("_rusk") || zsh.contains("function"), "Zsh script should have function definitions");

    let fish = Shell::Fish.get_script();
    assert!(fish.contains("complete") || fish.contains("rusk"), "Fish script should have complete commands");

    let nu = Shell::Nu.get_script();
    assert!(nu.contains("def") || nu.contains("rusk"), "Nu script should have function definitions");

    let powershell = Shell::PowerShell.get_script();
    assert!(powershell.contains("Register-ArgumentCompleter") || powershell.contains("rusk"), "PowerShell script should have Register-ArgumentCompleter");
}

#[test]
fn test_completion_scripts_are_readable() {
    // Verify scripts can be read and are not corrupted
    for shell in ALL_SHELLS {
        let script = shell.get_script();

        assert!(script.len() > 50, "Script for {:?} should be at least 50 bytes", shell);
        assert!(script.len() < 100_000, "Script for {:?} should be less than 100KB", shell);

        let printable_count = script.chars().filter(|c| c.is_ascii() && (c.is_alphanumeric() || c.is_whitespace() || "!@#$%^&*()_+-=[]{}|;:,.<>?/~`\"'\\".contains(*c))).count();
        let total_chars = script.chars().count();
        let printable_ratio = printable_count as f64 / total_chars as f64;

        assert!(
            printable_ratio > 0.8,
            "Script for {:?} should be mostly printable (ratio: {:.2})",
            shell,
            printable_ratio
        );
    }
}

#[test]
fn test_nu_completion_has_quote_functions() {
    let nu_script = Shell::Nu.get_script();

    assert!(
        nu_script.contains("needs-quotes") || nu_script.contains("def needs-quotes"),
        "Nu script should contain needs-quotes function"
    );

    assert!(
        nu_script.contains("quote-if-needed") || nu_script.contains("def quote-if-needed"),
        "Nu script should contain quote-if-needed function"
    );

    assert!(
        nu_script.contains("special_chars") || nu_script.contains("special") || nu_script.contains("|") || nu_script.contains(";"),
        "Nu script should check for special characters"
    );
}

#[test]
fn test_nu_completion_quotes_special_characters() {
    let nu_script = Shell::Nu.get_script();

    assert!(
        nu_script.contains("str replace") || nu_script.contains("replace") || nu_script.contains("\\\""),
        "Nu script should escape double quotes"
    );

    assert!(
        nu_script.contains("\"") || nu_script.contains("quote"),
        "Nu script should wrap text in quotes"
    );
}

#[test]
fn test_nu_completion_mark_del_prev_contains_comma_logic() {
    let nu_script = Shell::Nu.get_script();

    assert!(
        nu_script.contains("prev_contains_comma") || nu_script.contains("prev contains comma"),
        "Nu script should check if previous word contains comma"
    );

    assert!(
        nu_script.contains("\"mark\"") || nu_script.contains("mark") || nu_script.contains("\"m\""),
        "Nu script should handle mark command"
    );

    assert!(
        nu_script.contains("\"del\"") || nu_script.contains("del") || nu_script.contains("\"d\""),
        "Nu script should handle del command"
    );

    assert!(
        nu_script.contains("ends_with_comma") || nu_script.contains("ends with comma") || nu_script.contains("ends-with"),
        "Nu script should check if word ends with comma"
    );

    assert!(
        nu_script.contains("should_suggest_ids") || nu_script.contains("should suggest"),
        "Nu script should have logic to determine when to suggest IDs"
    );

    assert!(
        nu_script.contains("entered_ids") || nu_script.contains("entered_ids | is-empty"),
        "Nu script should check if IDs are already entered"
    );
}

#[test]
fn test_nu_completion_completions_partial_input() {
    let nu_script = Shell::Nu.get_script();

    assert!(
        nu_script.contains("str starts-with") || nu_script.contains("starts-with"),
        "Nu script should filter commands by partial input"
    );

    assert!(
        nu_script.contains("install") && nu_script.contains("show"),
        "Nu script should handle install and show subcommands"
    );

    assert!(
        (nu_script.contains("bash") || nu_script.contains("\"bash\"")) &&
        (nu_script.contains("zsh") || nu_script.contains("\"zsh\"")) &&
        (nu_script.contains("fish") || nu_script.contains("\"fish\"")) &&
        (nu_script.contains("nu") || nu_script.contains("\"nu\"")) &&
        (nu_script.contains("powershell") || nu_script.contains("\"powershell\"")),
        "Nu script should handle all shell names for partial input"
    );

    assert!(
        nu_script.contains("where") || nu_script.contains("filter") || nu_script.contains("matching"),
        "Nu script should filter options based on partial input"
    );
}

#[test]
fn test_nu_completion_handles_common_special_chars() {
    let nu_script = Shell::Nu.get_script();

    let special_chars = ["|", ";", "&", ">", "<", "(", ")", "[", "]", "{", "}", "$", "*", "?", "~", "#", "@", "!", "%", "^", "=", "+", "-", "/", ":", ",", "."];

    let mut found_any = false;
    for c in &special_chars {
        if nu_script.contains(c) {
            found_any = true;
            break;
        }
    }

    assert!(
        found_any || nu_script.contains("special") || nu_script.contains("quote"),
        "Nu script should handle special characters"
    );
}

#[test]
fn test_all_completion_scripts_syntax() {
    // The shells themselves are not run here; each script is held to the
    // structural markers its loader needs.
    let bash = Shell::Bash.get_script();
    assert!(bash.contains("complete -F"), "Bash script should register a completion function");
    assert!(bash.contains("()"), "Bash script should define a function");

    let zsh = Shell::Zsh.get_script();
    assert!(zsh.starts_with("#compdef"), "Zsh script should declare a compdef");
    assert!(zsh.contains("function _rusk"), "Zsh script should define _rusk");

    let fish = Shell::Fish.get_script();
    assert!(fish.contains("complete -c rusk"), "Fish script should register completions for rusk");

    let nu = Shell::Nu.get_script();
    assert!(nu.contains("export def rusk-completions-main"), "Nu script should export its main function");

    let powershell = Shell::PowerShell.get_script();
    assert!(powershell.contains("Register-ArgumentCompleter"), "PowerShell script should register a completer");
}

#[test]
fn test_nu_completion_script_structure() {
    let script = Shell::Nu.get_script();

    assert!(script.contains("export def rusk-completions-main"),
        "Script should export main completion function");

    assert!(script.contains("def complete-add"),
        "Script should have complete-add function");
    assert!(script.contains("def complete-edit"),
        "Script should have complete-edit function");
    assert!(script.contains("def complete-mark-del"),
        "Script should have complete-mark-del function");
    assert!(script.contains("def complete-list-restore"),
        "Script should have complete-list-restore function");
    assert!(script.contains("def complete-completions"),
        "Script should have complete-completions function");

    assert!(script.contains("def get-task-ids"),
        "Script should have get-task-ids function");
    assert!(script.contains("def get-task-text"),
        "Script should have get-task-text function");
    assert!(script.contains("def get-date-options"),
        "Script should have get-date-options function");

    assert!(script.contains("def get-commands"),
        "Script should have get-commands function");
    assert!(script.contains("def get-common-flags"),
        "Script should have get-common-flags function");
    assert!(script.contains("def get-date-flags"),
        "Script should have get-date-flags function");
}

#[test]
fn test_nu_completion_has_all_commands() {
    let script = Shell::Nu.get_script();

    let commands = vec!["add", "edit", "mark", "del", "list", "restore", "completions"];
    for cmd in commands {
        assert!(script.contains(&format!("\"{}\"", cmd)) || script.contains(&format!("value: \"{}\"", cmd)),
            "Script should contain command: {}", cmd);
    }

    let aliases = vec!["a", "e", "m", "d", "l", "r", "c"];
    for alias in aliases {
        assert!(script.contains(&format!("\"{}\"", alias)) || script.contains(&format!("value: \"{}\"", alias)),
            "Script should contain alias: {}", alias);
    }
}

#[test]
fn test_nu_completion_has_all_flags() {
    let script = Shell::Nu.get_script();

    assert!(script.contains("--help") || script.contains("\"--help\""),
        "Script should contain --help flag");
    assert!(script.contains("-h") || script.contains("\"-h\""),
        "Script should contain -h flag");

    assert!(script.contains("--version") || script.contains("\"--version\""),
        "Script should contain --version flag");
    assert!(script.contains("-V") || script.contains("\"-V\""),
        "Script should contain -V flag");

    assert!(script.contains("--date") || script.contains("\"--date\""),
        "Script should contain --date flag");
    assert!(script.contains("-d") || script.contains("\"-d\""),
        "Script should contain -d flag");

    assert!(script.contains("--done") || script.contains("\"--done\""),
        "Script should contain --done flag");
}

#[test]
fn test_nu_completion_has_completions_subcommands() {
    let script = Shell::Nu.get_script();

    assert!(script.contains("install") || script.contains("\"install\""),
        "Script should contain install subcommand");
    assert!(script.contains("show") || script.contains("\"show\""),
        "Script should contain show subcommand");

    let shells = vec!["bash", "zsh", "fish", "nu", "powershell"];
    for shell in shells {
        assert!(script.contains(&format!("\"{}\"", shell)) || script.contains(&format!("value: \"{}\"", shell)),
            "Script should contain shell: {}", shell);
    }
}

#[test]
fn test_completion_instructions_are_provided() {
    for shell in ALL_SHELLS {
        let instructions = shell.get_instructions("/tmp/test_completion");
        assert!(!instructions.is_empty(), "Instructions for {:?} should not be empty", shell);
        assert!(instructions.len() > 20, "Instructions for {:?} should be substantial", shell);
    }
}

#[test]
fn test_completion_paths_use_correct_filenames() {
    let test_cases = vec![
        (Shell::Bash, "rusk"),
        (Shell::Zsh, "_rusk"),
        (Shell::Fish, "rusk.fish"),
        (Shell::Nu, "rusk.nu"),
        (Shell::PowerShell, "rusk-completions.ps1"),
    ];
    for (shell, expected) in test_cases {
        assert_eq!(shell.script_file_name(), expected, "Filename for {:?} should be {}", shell, expected);
    }
}

#[test]
fn test_completion_paths_are_in_home_directory() {
    let home = "/home/someone";
    let bash = Shell::Bash.default_path_in(home);
    assert!(bash.contains(".bash_completion.d"), "Bash path should contain .bash_completion.d");
    let zsh = Shell::Zsh.default_path_in(home);
    assert!(zsh.contains(".zsh"), "Zsh path should contain .zsh");
    let fish = Shell::Fish.default_path_in(home);
    assert!(fish.contains(".config") && fish.contains("fish"), "Fish path should contain fish");
    let nu = Shell::Nu.default_path_in(home);
    assert!(nu.contains(".config") && nu.contains("nushell"), "Nu path should contain nushell");
    for p in [&bash, &zsh, &fish, &nu] {
        assert!(p.starts_with(home), "Default paths should be in home");
    }
}
