//! Shell completion assets: one script per supported shell, the place
//! each is installed to by default, and the set-up instructions shown
//! after installing.

use vstd::prelude::*;
use crate::text::{append_chars, chars_str, str_chars};

verus! {

/// The shells completions are shipped for.
#[derive(Debug, Clone, Copy, PartialEq, Eq, Structural)]
pub enum Shell {
    Bash,
    Zsh,
    Fish,
    Nu,
    PowerShell,
}

impl Shell {
    /// The completion script for this shell, embedded as text.
    pub fn get_script(&self) -> &'static str {
        match self {
            Shell::Bash => "# rusk bash completion\n_rusk_complete() {\n    local cur prev\n    cur=\"${COMP_WORDS[COMP_CWORD]}\"\n    prev=\"${COMP_WORDS[COMP_CWORD-1]}\"\n    local commands=\"add del mark edit list restore completions a d m e l r\"\n    if [ \"$COMP_CWORD\" -eq 1 ]; then\n        COMPREPLY=( $(compgen -W \"$commands --help --version -h -V\" -- \"$cur\") )\n        return 0\n    fi\n    case \"$prev\" in\n        add|a)\n            COMPREPLY=( $(compgen -W \"--date -d\" -- \"$cur\") )\n            ;;\n        del|d)\n            COMPREPLY=( $(compgen -W \"--done\" -- \"$cur\") )\n            ;;\n        completions)\n            COMPREPLY=( $(compgen -W \"install show\" -- \"$cur\") )\n            ;;\n        install|show)\n            COMPREPLY=( $(compgen -W \"bash zsh fish nu powershell\" -- \"$cur\") )\n            ;;\n        *)\n            COMPREPLY=( $(compgen -W \"--date -d --done\" -- \"$cur\") )\n            ;;\n    esac\n    return 0\n}\ncomplete -F _rusk_complete rusk\n",
            Shell::Zsh => "#compdef rusk\n# rusk zsh completion\nfunction _rusk {\n    local -a commands\n    commands=(\n        'add:Add a new task'\n        'del:Delete tasks by id'\n        'mark:Toggle tasks done'\n        'edit:Edit tasks by id'\n        'list:List all tasks'\n        'restore:Restore the database from backup'\n        'completions:Install or show completion scripts'\n    )\n    _arguments -C \\\n        '1:command:->cmds' \\\n        '*::arg:->args'\n    case \"$state\" in\n        cmds)\n            _describe 'command' commands\n            ;;\n        args)\n            case $words[1] in\n                add|a) _arguments '--date[due date]' '-d[due date]' ;;\n                del|d) _arguments '--done[delete all done tasks]' ;;\n                completions) _values 'action' install show ;;\n            esac\n            ;;\n    esac\n}\n_rusk \"$@\"\n",
            Shell::Fish => "# rusk fish completion\ncomplete -c rusk -f\ncomplete -c rusk -n '__fish_use_subcommand' -a 'add' -d 'Add a new task'\ncomplete -c rusk -n '__fish_use_subcommand' -a 'del' -d 'Delete tasks by id'\ncomplete -c rusk -n '__fish_use_subcommand' -a 'mark' -d 'Toggle tasks done'\ncomplete -c rusk -n '__fish_use_subcommand' -a 'edit' -d 'Edit tasks by id'\ncomplete -c rusk -n '__fish_use_subcommand' -a 'list' -d 'List all tasks'\ncomplete -c rusk -n '__fish_use_subcommand' -a 'restore' -d 'Restore the database from backup'\ncomplete -c rusk -n '__fish_use_subcommand' -a 'completions' -d 'Completion scripts'\ncomplete -c rusk -n '__fish_seen_subcommand_from add a' -l date -s d -d 'Due date'\ncomplete -c rusk -n '__fish_seen_subcommand_from del d' -l done -d 'Delete all done tasks'\ncomplete -c rusk -n '__fish_seen_subcommand_from completions' -a 'install show'\ncomplete -c rusk -n '__fish_seen_subcommand_from install show' -a 'bash zsh fish nu powershell'\n",
            Shell::Nu => "# rusk nu completion module\n\ndef get-commands [] {\n    [\n        { value: \"add\", description: \"Add a new task\" }\n        { value: \"del\", description: \"Delete tasks by id\" }\n        { value: \"mark\", description: \"Toggle tasks done\" }\n        { value: \"edit\", description: \"Edit tasks by id\" }\n        { value: \"list\", description: \"List all tasks\" }\n        { value: \"restore\", description: \"Restore the database from backup\" }\n        { value: \"completions\", description: \"Completion scripts\" }\n        { value: \"a\", description: \"Alias of add\" }\n        { value: \"d\", description: \"Alias of del\" }\n        { value: \"m\", description: \"Alias of mark\" }\n        { value: \"e\", description: \"Alias of edit\" }\n        { value: \"l\", description: \"Alias of list\" }\n        { value: \"r\", description: \"Alias of restore\" }\n        { value: \"c\", description: \"Alias of completions\" }\n    ]\n}\n\ndef get-common-flags [] {\n    [\n        { value: \"--help\", description: \"Show help\" }\n        { value: \"-h\", description: \"Show help\" }\n        { value: \"--version\", description: \"Show version\" }\n        { value: \"-V\", description: \"Show version\" }\n    ]\n}\n\ndef get-date-flags [] {\n    [\n        { value: \"--date\", description: \"Due date\" }\n        { value: \"-d\", description: \"Due date\" }\n    ]\n}\n\ndef get-date-options [] {\n    [\n        { value: (date now | format date \"%d-%m-%Y\"), description: \"Today\" }\n        { value: ((date now) + 1day | format date \"%d-%m-%Y\"), description: \"Tomorrow\" }\n    ]\n}\n\n# whether free text must be wrapped in quotes for the shell\ndef needs-quotes [text: string] {\n    let special_chars = [\" \", \"|\", \";\", \"&\", \">\", \"<\", \"(\", \")\", \"[\", \"]\", \"{\", \"}\", \"$\", \"*\", \"?\", \"~\", \"#\", \"@\", \"!\", \"%\", \"^\", \"=\", \"+\", \",\", \"'\"]\n    $special_chars | any {|c| $text | str contains $c }\n}\n\ndef quote-if-needed [text: string] {\n    if (needs-quotes $text) {\n        let escaped = ($text | str replace --all '\"' '\\\\\"')\n        $'\"($escaped)\"'\n    } else {\n        $text\n    }\n}\n\ndef get-task-ids [] {\n    try {\n        rusk list | lines | parse --regex '\\\\s+(?P<id>\\\\d+)\\\\s' | get id\n    } catch {\n        []\n    }\n}\n\ndef get-task-text [id: string] {\n    try {\n        rusk list | lines | parse --regex '\\\\s+(?P<id>\\\\d+)\\\\s+(?P<text>.*)' | where id == $id | get text | first | quote-if-needed $in\n    } catch {\n        \"\"\n    }\n}\n\ndef complete-add [spans: list<string>] {\n    let last = ($spans | last)\n    if ($last | str starts-with \"-\") {\n        get-date-flags | where value =~ $last\n    } else if (($spans | length) > 1 and ($spans | drop 1 | last) in [\"-d\", \"--date\"]) {\n        get-date-options\n    } else {\n        get-date-flags\n    }\n}\n\ndef complete-mark-del [spans: list<string>] {\n    let last = ($spans | last)\n    if ($last | str starts-with \"-\") {\n        [ { value: \"--done\", description: \"Delete all done tasks\" } ] | where value =~ $last\n    } else {\n        complete-mark-del-ids $spans\n    }\n}\n\ndef complete-mark-del-ids [spans: list<string>] {\n    let entered_ids = ($spans | skip 2 | where {|w| $w =~ '^[0-9,]+$' })\n    let prev = if (($spans | length) > 2) { $spans | drop 1 | last } else { \"\" }\n    let prev_contains_comma = ($prev | str contains \",\")\n    let ends_with_comma = ($prev | str ends-with \",\")\n    let should_suggest_ids = (($entered_ids | is-empty) or $prev_contains_comma or $ends_with_comma)\n    if $should_suggest_ids {\n        get-task-ids\n    } else {\n        []\n    }\n}\n\ndef complete-edit [spans: list<string>] {\n    let ids = (get-task-ids)\n    let last = ($spans | last)\n    if ($last | str starts-with \"-\") {\n        get-date-flags | where value =~ $last\n    } else if (($spans | length) == 3) {\n        let id = ($spans | get 2)\n        [ (get-task-text $id) ]\n    } else {\n        $ids\n    }\n}\n\ndef complete-list-restore [spans: list<string>] {\n    []\n}\n\ndef complete-completions [spans: list<string>] {\n    let subs = [\"install\", \"show\"]\n    let shells = [\"bash\", \"zsh\", \"fish\", \"nu\", \"powershell\"]\n    if (($spans | length) <= 2) {\n        $subs\n    } else if (($spans | length) == 3) {\n        let partial = ($spans | last)\n        $subs | where {|s| $s | str starts-with $partial }\n    } else {\n        let partial = ($spans | last)\n        $shells | where {|s| $s | str starts-with $partial }\n    }\n}\n\nexport def rusk-completions-main [spans: list<string>] {\n    if (($spans | length) <= 1) {\n        (get-commands) ++ (get-common-flags)\n    } else if (($spans | length) == 2) {\n        let partial = ($spans | get 1)\n        if ($partial | str starts-with \"-\") {\n            get-common-flags | where value =~ $partial\n        } else {\n            get-commands | where {|c| $c.value | str starts-with $partial }\n        }\n    } else {\n        let cmd = ($spans | get 1)\n        if $cmd in [\"add\", \"a\"] {\n            complete-add $spans\n        } else if $cmd in [\"mark\", \"m\", \"del\", \"d\"] {\n            complete-mark-del $spans\n        } else if $cmd in [\"edit\", \"e\"] {\n            complete-edit $spans\n        } else if $cmd in [\"list\", \"l\", \"restore\", \"r\"] {\n            complete-list-restore $spans\n        } else if $cmd in [\"completions\", \"c\"] {\n            complete-completions $spans\n        } else {\n            []\n        }\n    }\n}\n",
            Shell::PowerShell => "# rusk PowerShell completion\nfunction Get-RuskCommands {\n    @('add', 'del', 'mark', 'edit', 'list', 'restore', 'completions')\n}\nRegister-ArgumentCompleter -Native -CommandName rusk -ScriptBlock {\n    param($wordToComplete, $commandAst, $cursorPosition)\n    $commands = Get-RuskCommands\n    $flags = @('--help', '-h', '--version', '-V', '--date', '-d', '--done')\n    ($commands + $flags) | Where-Object { $_ -like \"$wordToComplete*\" } | ForEach-Object {\n        [System.Management.Automation.CompletionResult]::new($_, $_, 'ParameterValue', $_)\n    }\n}\n",
        }
    }

    /// The file name each shell expects for the script.
    pub fn script_file_name(&self) -> (r: &'static str)
        ensures
            self is Bash ==> r@ == "rusk"@,
            self is Zsh ==> r@ == "_rusk"@,
            self is Fish ==> r@ == "rusk.fish"@,
            self is Nu ==> r@ == "rusk.nu"@,
            self is PowerShell ==> r@ == "rusk-completions.ps1"@,
    {
        match self {
            Shell::Bash => "rusk",
            Shell::Zsh => "_rusk",
            Shell::Fish => "rusk.fish",
            Shell::Nu => "rusk.nu",
            Shell::PowerShell => "rusk-completions.ps1",
        }
    }

    /// The default install path under the given home directory.
    pub fn default_path_in(&self, home: &str) -> (r: String)
        ensures
            self is Bash ==> r@ == home@ + "/.bash_completion.d/rusk"@,
            self is Zsh ==> r@ == home@ + "/.zsh/completions/_rusk"@,
            self is Fish ==> r@ == home@ + "/.config/fish/completions/rusk.fish"@,
            self is Nu ==> r@ == home@ + "/.config/nushell/completions/rusk.nu"@,
            self is PowerShell ==> r@ == home@ + "/.config/powershell/rusk-completions.ps1"@,
    {
        let mut out = str_chars(home);
        let suffix = match self {
            Shell::Bash => "/.bash_completion.d/rusk",
            Shell::Zsh => "/.zsh/completions/_rusk",
            Shell::Fish => "/.config/fish/completions/rusk.fish",
            Shell::Nu => "/.config/nushell/completions/rusk.nu",
            Shell::PowerShell => "/.config/powershell/rusk-completions.ps1",
        };
        let sv = str_chars(suffix);
        append_chars(&mut out, sv.as_slice());
        chars_str(out.as_slice())
    }

    /// The default install path, rooted at the user's home directory;
    /// nothing when no home directory can be found. The exact shape of
    /// the path is the contract of `default_path_in`.
    pub fn get_default_path(&self) -> Option<String> {
        match home_dir_string() {
            Some(home) => Some(self.default_path_in(home.as_str())),
            None => None,
        }
    }

    /// What to tell the user after installing the script at `path`.
    pub fn get_instructions(&self, path: &str) -> (r: String)
        ensures
            self is Bash ==> r@ == "Add to your ~/.bashrc:\n  source "@ + path@,
            self is Zsh ==> r@ == "Add to your ~/.zshrc:\n  fpath=("@ + path@
                + " $fpath)\n  autoload -U compinit && compinit"@,
            self is Fish ==> r@
                == "Completions installed. Restart your shell or run: source "@ + path@,
            self is Nu ==> r@ == "Add to your config.nu:\n  use "@ + path@ + " *"@,
            self is PowerShell ==> r@ == "Add to your PowerShell profile:\n  . "@ + path@,
    {
        let pv = str_chars(path);
        match self {
            Shell::Bash => {
                let mut out = str_chars("Add to your ~/.bashrc:\n  source ");
                append_chars(&mut out, pv.as_slice());
                chars_str(out.as_slice())
            },
            Shell::Zsh => {
                let mut out = str_chars("Add to your ~/.zshrc:\n  fpath=(");
                append_chars(&mut out, pv.as_slice());
                let tail = str_chars(" $fpath)\n  autoload -U compinit && compinit");
                append_chars(&mut out, tail.as_slice());
                chars_str(out.as_slice())
            },
            Shell::Fish => {
                let mut out = str_chars(
                    "Completions installed. Restart your shell or run: source ",
                );
                append_chars(&mut out, pv.as_slice());
                chars_str(out.as_slice())
            },
            Shell::Nu => {
                let mut out = str_chars("Add to your config.nu:\n  use ");
                append_chars(&mut out, pv.as_slice());
                let tail = str_chars(" *");
                append_chars(&mut out, tail.as_slice());
                chars_str(out.as_slice())
            },
            Shell::PowerShell => {
                let mut out = str_chars("Add to your PowerShell profile:\n  . ");
                append_chars(&mut out, pv.as_slice());
                chars_str(out.as_slice())
            },
        }
    }
}

/// Relies on dirs::home_dir: the user's home directory, as a string,
/// when the platform knows one; the result depends on the environment,
/// so nothing is promised of it.
#[verifier::external_body]
fn home_dir_string() -> Option<String> {
    dirs::home_dir().map(|p| p.to_string_lossy().into_owned())
}

} // verus!
