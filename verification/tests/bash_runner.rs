use gemini_cli::bash_runner::{BashRunner, CommandChoice};

#[test]
fn extracts_bash_and_sh_blocks() {
    let response = r#"
Here you go:
```bash
echo "hello"
pwd
```

```text
ignore me
```

```sh
ls -la
```
"#;

    let commands = BashRunner::extract_commands(response);

    assert_eq!(commands, vec!["echo \"hello\"\npwd", "ls -la"]);
}

#[test]
fn returns_empty_when_no_shell_blocks_exist() {
    let response = "No commands here";

    let commands = BashRunner::extract_commands(response);

    assert!(commands.is_empty());
}

#[test]
fn formats_full_multiline_preview() {
    let preview = BashRunner::format_command_preview(7, "sudo dnf check-update\nsudo dnf upgrade");

    assert_eq!(preview, " [7] sudo dnf check-update\n     sudo dnf upgrade");
}

#[test]
fn unclosed_block_yields_nothing() {
    assert!(BashRunner::extract_commands("```bash\necho hi\n").is_empty());
}

#[test]
fn block_without_newline_after_language_is_ignored() {
    assert!(BashRunner::extract_commands("```bash echo hi```").is_empty());
    assert!(BashRunner::extract_commands("```python\nprint(1)\n```").is_empty());
}

#[test]
fn empty_shell_block_gives_empty_command() {
    assert_eq!(BashRunner::extract_commands("```sh\n```"), vec![""]);
}

#[test]
fn body_ends_at_first_closing_fence() {
    let response = "```bash\n  a  ```bash\nb\n```";
    assert_eq!(BashRunner::extract_commands(response), vec!["a"]);
}

#[test]
fn later_opening_after_failed_one_is_found() {
    let response = "```shx ```sh\nls\n```";
    assert_eq!(BashRunner::extract_commands(response), vec!["ls"]);
}

#[test]
fn commands_are_trimmed_of_unicode_whitespace() {
    let response = "```bash\n\u{00A0}\tls\u{3000}\n```";
    assert_eq!(BashRunner::extract_commands(response), vec!["ls"]);
}

#[test]
fn preview_of_empty_command() {
    assert_eq!(BashRunner::format_command_preview(3, ""), " [3]");
}

#[test]
fn preview_drops_carriage_returns_and_trailing_newline() {
    assert_eq!(
        BashRunner::format_command_preview(12, "a\r\nb\n"),
        " [12] a\n     b"
    );
    assert_eq!(BashRunner::format_command_preview(0, "x\r"), " [0] x\r");
    assert_eq!(BashRunner::format_command_preview(1, "\n"), " [1] ");
    assert_eq!(
        BashRunner::format_command_preview(100, "a\n\nb"),
        " [100] a\n     \n     b"
    );
}

#[test]
fn choice_empty_cancels() {
    assert_eq!(BashRunner::interpret_choice("  \n", 2), CommandChoice::Cancel);
}

#[test]
fn choice_all_runs_all() {
    assert_eq!(BashRunner::interpret_choice(" all\n", 2), CommandChoice::RunAll);
    assert_eq!(BashRunner::interpret_choice("ALL", 2), CommandChoice::Unrecognized);
}

#[test]
fn choice_number_selects_command() {
    assert_eq!(BashRunner::interpret_choice("1\n", 2), CommandChoice::Run(0));
    assert_eq!(BashRunner::interpret_choice("2", 2), CommandChoice::Run(1));
    assert_eq!(BashRunner::interpret_choice("+2", 2), CommandChoice::Run(1));
    assert_eq!(BashRunner::interpret_choice("002", 2), CommandChoice::Run(1));
}

#[test]
fn choice_out_of_range() {
    assert_eq!(BashRunner::interpret_choice("0", 2), CommandChoice::OutOfRange);
    assert_eq!(BashRunner::interpret_choice("3", 2), CommandChoice::OutOfRange);
    assert_eq!(
        BashRunner::interpret_choice(&usize::MAX.to_string(), 2),
        CommandChoice::OutOfRange
    );
}

#[test]
fn choice_unrecognized() {
    assert_eq!(BashRunner::interpret_choice("-1", 2), CommandChoice::Unrecognized);
    assert_eq!(BashRunner::interpret_choice("+", 2), CommandChoice::Unrecognized);
    assert_eq!(BashRunner::interpret_choice("1 2", 2), CommandChoice::Unrecognized);
    assert_eq!(BashRunner::interpret_choice("yes", 2), CommandChoice::Unrecognized);
    assert_eq!(
        BashRunner::interpret_choice("18446744073709551616", 2),
        CommandChoice::Unrecognized
    );
}

#[test]
fn choice_parse_agrees_with_std() {
    for s in ["0", "7", "+7", "-7", "+", "", "12a", "0001", "99999999999999999999", "+0"] {
        let expected = s.trim().parse::<usize>().ok();
        let got = BashRunner::interpret_choice(s, usize::MAX);
        match expected {
            Some(0) => assert_eq!(got, CommandChoice::OutOfRange, "{s}"),
            Some(k) => assert_eq!(got, CommandChoice::Run(k - 1), "{s}"),
            None if s.trim().is_empty() => assert_eq!(got, CommandChoice::Cancel),
            None => assert_eq!(got, CommandChoice::Unrecognized, "{s}"),
        }
    }
}

#[test]
fn number_shown_in_preview_selects_command() {
    let commands = ["ls", "pwd", "echo hi"];
    for (i, cmd) in commands.iter().enumerate() {
        let preview = BashRunner::format_command_preview(i + 1, cmd);
        let shown: String = preview[2..preview.find(']').unwrap()].to_string();
        assert_eq!(
            BashRunner::interpret_choice(&shown, commands.len()),
            CommandChoice::Run(i)
        );
    }
}

/// The extraction agrees with the regular expression it implements.
#[test]
fn extraction_agrees_with_regex() {
    let re = regex::Regex::new(r"```(?:bash|sh)\n([\s\S]*?)```").unwrap();
    let pieces = ["```", "bash\n", "sh\n", "s", "h", "\n", " ", "ls", "`", "é", "\u{2003}", "x"];
    let mut seed: u64 = 0x1234_5678;
    for _ in 0..3000 {
        let mut text = String::new();
        seed = seed.wrapping_mul(6364136223846793005).wrapping_add(1442695040888963407);
        let n = (seed >> 60) as usize + 2;
        for _ in 0..n {
            seed = seed.wrapping_mul(6364136223846793005).wrapping_add(1442695040888963407);
            text.push_str(pieces[(seed >> 33) as usize % pieces.len()]);
        }
        let expected: Vec<String> = re
            .captures_iter(&text)
            .filter_map(|cap| cap.get(1).map(|m| m.as_str().trim().to_string()))
            .collect();
        assert_eq!(BashRunner::extract_commands(&text), expected, "{text:?}");
    }
}
