//! Reads a build workflow the way a shell and a runner would, and tells which
//! of its steps run the tests in a profile that checks for overflow.

use saphyr::{LoadableYamlNode, Yaml};

fn command_lines(script: &str) -> Vec<&str> {
    script
        .lines()
        .map(str::trim_start)
        .map(|line| match comment_start(line) {
            Some(at) => &line[..at],
            None => line,
        })
        .map(str::trim)
        .filter(|line| !line.is_empty())
        .collect()
}

fn comment_start(line: &str) -> Option<usize> {
    let mut quote: Option<char> = None;
    let mut at_word_start = true;
    for (index, c) in line.char_indices() {
        if let Some(q) = quote {
            if c == q {
                quote = None;
            }
            at_word_start = false;
            continue;
        }
        match c {
            '#' if at_word_start => return Some(index),
            '\'' | '"' => {
                quote = Some(c);
                at_word_start = false;
            }
            ';' | '&' | '|' | '(' | ')' => at_word_start = true,
            c if c.is_whitespace() => at_word_start = true,
            _ => at_word_start = false,
        }
    }
    None
}

fn disables_errexit(line: &str) -> bool {
    shell_commands(line)
        .iter()
        .any(|(words, _)| set_disables_errexit(words))
}

fn set_disables_errexit(words: &[String]) -> bool {
    let mut words = words.iter().map(String::as_str);
    if words.next() != Some("set") {
        return false;
    }
    let mut expecting_option_name = false;
    for word in words {
        if expecting_option_name {
            if word == "errexit" {
                return true;
            }
            expecting_option_name = false;
            continue;
        }
        if word == "+o" {
            expecting_option_name = true;
            continue;
        }
        if let Some(flags) = word.strip_prefix('+') {
            if flags.contains('e') {
                return true;
            }
        }
    }
    false
}

#[derive(Clone, Copy, PartialEq, Eq, Debug)]
enum Sep {
    End,
    And,
    Or,
    Semi,
    Pipe,
    Amp,
}

fn end_of_substitution(chars: &[char], open: usize) -> Option<usize> {
    assert_eq!(chars.get(open), Some(&'('), "open must index the `(`");
    let mut depth = 0usize;
    let mut quote: Option<char> = None;
    let mut j = open;
    while j < chars.len() {
        let c = chars[j];
        match quote {
            Some('\'') => {
                if c == '\'' {
                    quote = None;
                }
            }
            Some(q) => {
                if c == '\\' && j + 1 < chars.len() {
                    j += 2;
                    continue;
                }
                if c == q {
                    quote = None;
                }
            }
            None => {
                if c == '\\' && j + 1 < chars.len() {
                    j += 2;
                    continue;
                }
                if c == '`' {
                    match end_of_backticks(chars, j) {
                        Some(close) => {
                            j = close + 1;
                            continue;
                        }
                        None => return None,
                    }
                }
                if c == '$' && j + 1 < chars.len() && chars[j + 1] == '{' {
                    match end_of_braces(chars, j + 1) {
                        Some(close) => {
                            j = close + 1;
                            continue;
                        }
                        None => return None,
                    }
                }
                match c {
                    '\'' | '"' => quote = Some(c),
                    '(' => depth += 1,
                    ')' => {
                        depth = depth.saturating_sub(1);
                        if depth == 0 {
                            return Some(j);
                        }
                    }
                    _ => {}
                }
            }
        }
        j += 1;
    }
    None
}

fn end_of_braces(chars: &[char], open: usize) -> Option<usize> {
    assert_eq!(chars.get(open), Some(&'{'), "open must index the brace");
    let mut depth = 0usize;
    let mut j = open;
    while j < chars.len() {
        if chars[j] == '$' && j + 1 < chars.len() && chars[j + 1] == '(' {
            match end_of_substitution(chars, j + 1) {
                Some(close) => {
                    j = close + 1;
                    continue;
                }
                None => return None,
            }
        }
        if chars[j] == '`' {
            match end_of_backticks(chars, j) {
                Some(close) => {
                    j = close + 1;
                    continue;
                }
                None => return None,
            }
        }
        if chars[j] == '$' && j + 1 < chars.len() && chars[j + 1] == '{' {
            depth += 1;
            j += 2;
            continue;
        }
        match chars[j] {
            '\\' if j + 1 < chars.len() => {
                j += 1;
            }
            '{' if j == open => depth += 1,
            '}' => {
                depth = depth.saturating_sub(1);
                if depth == 0 {
                    return Some(j);
                }
            }
            _ => {}
        }
        j += 1;
    }
    None
}

fn end_of_backticks(chars: &[char], open: usize) -> Option<usize> {
    assert_eq!(chars.get(open), Some(&'`'), "open must index the backtick");
    let mut j = open + 1;
    while j < chars.len() {
        if chars[j] == '\\' && j + 1 < chars.len() {
            j += 2;
            continue;
        }
        if chars[j] == '`' {
            return Some(j);
        }
        j += 1;
    }
    None
}

fn shell_commands(line: &str) -> Vec<(Vec<String>, Sep)> {
    let chars: Vec<char> = line.chars().collect();
    let mut out: Vec<(Vec<String>, Sep)> = Vec::new();
    let mut words: Vec<String> = Vec::new();
    let mut word = String::new();
    let mut started = false;
    let mut quote: Option<char> = None;
    let mut i = 0;

    while i < chars.len() {
        let c = chars[i];
        if let Some(q) = quote {
            if q == '"' && c == '\\' && i + 1 < chars.len() {
                i += 2;
                continue;
            }
            if c == q {
                quote = None;
            }
            i += 1;
            continue;
        }
        if matches!(c, '$' | '<' | '>') && i + 1 < chars.len() && chars[i + 1] == '(' {
            started = true;
            i = match end_of_substitution(&chars, i + 1) {
                Some(close) => close + 1,
                None => chars.len(),
            };
            continue;
        }
        if c == '`' {
            started = true;
            i = match end_of_backticks(&chars, i) {
                Some(close) => close + 1,
                None => chars.len(),
            };
            continue;
        }
        if c == '$' && i + 1 < chars.len() && chars[i + 1] == '{' {
            started = true;
            i = match end_of_braces(&chars, i + 1) {
                Some(close) => close + 1,
                None => chars.len(),
            };
            continue;
        }
        match c {
            '\\' if i + 1 < chars.len() => {
                word.push(chars[i + 1]);
                started = true;
                i += 2;
            }
            '\'' | '"' => {
                quote = Some(c);
                started = true;
                i += 1;
            }
            '&' | '|' | ';' | '(' | ')' => {
                if c == '&' && started && (word.ends_with('>') || word.ends_with('<')) {
                    word.push(c);
                    i += 1;
                    continue;
                }
                let doubled = i + 1 < chars.len() && chars[i + 1] == c;
                let sep = match (c, doubled) {
                    ('&', true) => Sep::And,
                    ('&', false) => Sep::Amp,
                    ('|', true) => Sep::Or,
                    ('|', false) => Sep::Pipe,
                    _ => Sep::Semi,
                };
                if started {
                    words.push(std::mem::take(&mut word));
                    started = false;
                }
                if !words.is_empty() {
                    out.push((std::mem::take(&mut words), sep));
                }
                i += if doubled && c != ';' { 2 } else { 1 };
            }
            c if c.is_whitespace() => {
                if started {
                    words.push(std::mem::take(&mut word));
                    started = false;
                }
                i += 1;
            }
            _ => {
                word.push(c);
                started = true;
                i += 1;
            }
        }
    }
    if started {
        words.push(word);
    }
    if !words.is_empty() {
        out.push((words, Sep::End));
    }
    out
}

fn cargo_test_arguments(words: &[String]) -> Option<Vec<&str>> {
    let mut words = words
        .iter()
        .map(String::as_str)
        .skip_while(|w| *w == "env" || (!w.starts_with('-') && w.contains('=')));
    let program = words.next()?;
    if program != "cargo" && !program.ends_with("/cargo") {
        return None;
    }
    let mut rest = words.skip_while(|w| w.starts_with('+'));
    if rest.next()? != "test" {
        return None;
    }
    let mut arguments = Vec::new();
    let mut argument_is_a_redirection_target = false;
    for word in rest {
        if argument_is_a_redirection_target {
            argument_is_a_redirection_target = false;
            continue;
        }
        if word.contains('>') || word.contains('<') {
            argument_is_a_redirection_target = word.ends_with('>') || word.ends_with('<');
            continue;
        }
        arguments.push(word);
    }
    Some(arguments)
}

const OPTIONS_TAKING_A_VALUE: [&str; 18] = [
    "-p",
    "--package",
    "--exclude",
    "-F",
    "--features",
    "--target",
    "--target-dir",
    "--manifest-path",
    "--profile",
    "--test",
    "--bin",
    "--example",
    "--bench",
    "-j",
    "--jobs",
    "--message-format",
    "--color",
    "--config",
];

fn omits_the_library_unit_tests(arguments: &[&str]) -> bool {
    let cargo_arguments = arguments.iter().take_while(|a| **a != "--");
    let mut expecting_a_value = false;
    for argument in cargo_arguments {
        if expecting_a_value {
            expecting_a_value = false;
            continue;
        }
        if OPTIONS_TAKING_A_VALUE.contains(argument) {
            expecting_a_value = true;
        }
        let selects_elsewhere = [
            "--test",
            "--doc",
            "--no-run",
            "--bin",
            "--example",
            "--bench",
        ]
        .iter()
        .any(|o| *argument == *o || argument.starts_with(&format!("{o}=")))
            || ["--bins", "--examples", "--benches"].contains(argument);
        if selects_elsewhere {
            return true;
        }
        if !argument.starts_with('-') {
            return true;
        }
    }
    false
}

fn status_is_read(
    commands: &[(Vec<String>, Sep)],
    index: usize,
    is_last_command_line: bool,
) -> bool {
    let tail = &commands[index..];
    if !tail
        .iter()
        .all(|(_, sep)| matches!(sep, Sep::End | Sep::And | Sep::Semi))
    {
        return false;
    }
    if tail[0].1 == Sep::And {
        return is_last_command_line
            && tail
                .iter()
                .all(|(_, sep)| matches!(sep, Sep::And | Sep::End));
    }
    true
}

fn runs_with_overflow_checks(script: &str) -> Vec<String> {
    let lines = command_lines(script);
    if lines.iter().any(|line| disables_errexit(line)) {
        return Vec::new();
    }
    let mut out = Vec::new();
    let last_line = lines.len().saturating_sub(1);
    for (line_index, line) in lines.iter().enumerate() {
        if line.contains("--release") || line.contains("--profile") {
            continue;
        }
        if line.contains("CARGO_PROFILE_") {
            continue;
        }
        let commands = shell_commands(line);
        for (index, (words, _)) in commands.iter().enumerate() {
            let Some(arguments) = cargo_test_arguments(words) else {
                continue;
            };
            if omits_the_library_unit_tests(&arguments) {
                continue;
            }
            if !status_is_read(&commands, index, line_index == last_line) {
                continue;
            }
            out.push(line.to_string());
            break;
        }
    }
    out
}

#[derive(Debug)]
struct Step {
    keys: Vec<String>,
    run: String,
    env: Vec<String>,
}

#[derive(Debug)]
struct Job {
    keys: Vec<String>,
    steps: Vec<Step>,
}

#[derive(Debug)]
struct Workflow {
    triggers: Vec<String>,
    jobs: Vec<Job>,
}

fn field<'a, 'b>(node: &'a Yaml<'b>, name: &str) -> Option<&'a Yaml<'b>> {
    node.as_mapping()?
        .iter()
        .find(|(key, _)| key.as_str() == Some(name))
        .map(|(_, value)| value)
}

fn scalar_text(node: &Yaml) -> Option<String> {
    if let Some(text) = node.as_str() {
        return Some(text.to_string());
    }
    if let Some(i) = node.as_integer() {
        return Some(i.to_string());
    }
    node.as_bool().map(|b| b.to_string())
}

fn keys_of(node: &Yaml) -> Vec<String> {
    node.as_mapping()
        .map(|mapping| {
            mapping
                .iter()
                .filter_map(|(key, _)| key.as_str().map(str::to_string))
                .collect()
        })
        .unwrap_or_default()
}

fn parse_workflow(text: &str) -> Workflow {
    let documents = Yaml::load_from_str(text).unwrap_or_else(|e| {
        panic!(
            "workflow is not valid YAML: {e}. This guard reads the workflow \
             rather than scanning its text, so a file it cannot parse is a \
             failure and never a pass."
        )
    });
    let Some(document) = documents.first() else {
        return Workflow {
            triggers: Vec::new(),
            jobs: Vec::new(),
        };
    };

    let triggers = match field(document, "on") {
        Some(on) if on.as_mapping().is_some() => keys_of(on),
        Some(on) if on.as_sequence().is_some() => on
            .as_sequence()
            .into_iter()
            .flatten()
            .filter_map(|item| item.as_str().map(str::to_string))
            .collect(),
        Some(on) => on.as_str().map(str::to_string).into_iter().collect(),
        None => Vec::new(),
    };

    let mut jobs = Vec::new();
    if let Some(mapping) = field(document, "jobs").and_then(Yaml::as_mapping) {
        for (_, body) in mapping.iter() {
            let steps = field(body, "steps")
                .and_then(Yaml::as_sequence)
                .into_iter()
                .flatten()
                .map(|step| Step {
                    keys: keys_of(step),
                    env: field(step, "env")
                        .and_then(Yaml::as_mapping)
                        .map(|m| {
                            m.iter()
                                .filter_map(|(k, v)| {
                                    Some(format!("{}={}", k.as_str()?, scalar_text(v)?))
                                })
                                .collect()
                        })
                        .unwrap_or_default(),
                    run: field(step, "run")
                        .and_then(Yaml::as_str)
                        .unwrap_or_default()
                        .to_string(),
                })
                .collect();
            jobs.push(Job {
                keys: keys_of(body),
                steps,
            });
        }
    }

    Workflow { triggers, jobs }
}

fn runs_on_pull_request(wf: &Workflow) -> bool {
    wf.triggers.iter().any(|t| t == "pull_request")
}

const NON_GATING_KEYS: [&str; 2] = ["if", "continue-on-error"];

fn collect_steps(workflow: &str, gating: bool) -> Vec<Step> {
    let wf = parse_workflow(workflow);
    if gating && !runs_on_pull_request(&wf) {
        return Vec::new();
    }
    let carries_a_non_gating_key =
        |keys: &[String]| keys.iter().any(|k| NON_GATING_KEYS.contains(&k.as_str()));

    let mut out = Vec::new();
    for job in wf.jobs {
        if gating && carries_a_non_gating_key(&job.keys) {
            continue;
        }
        for step in job.steps {
            if gating && carries_a_non_gating_key(&step.keys) {
                continue;
            }
            out.push(step);
        }
    }
    out
}

fn scan_steps(workflow: &str, gating: bool, select: fn(&str) -> Vec<String>) -> Vec<String> {
    collect_steps(workflow, gating)
        .iter()
        .flat_map(|step| select(&step.run))
        .collect()
}

fn step_declares_the_handshake(step: &Step) -> bool {
    command_lines(&step.run)
        .iter()
        .any(|line| line_assigns_the_handshake(line))
        || step
            .env
            .iter()
            .any(|entry| entry == "EXPECT_OVERFLOW_CHECKS=1")
}

fn line_assigns_the_handshake(line: &str) -> bool {
    shell_commands(line)
        .iter()
        .any(|(words, _)| command_assigns_the_handshake(words))
}

const HANDSHAKE: &str = "EXPECT_OVERFLOW_CHECKS=1";

fn command_assigns_the_handshake(words: &[String]) -> bool {
    if words.first().map(String::as_str) == Some("export") {
        return words[1..].iter().any(|word| word == HANDSHAKE);
    }

    let mut saw = false;
    let mut at = 0;
    while at < words.len() {
        let word = words[at].as_str();
        if word == "env" {
            at += 1;
            continue;
        }
        if is_assignment(word) {
            if word == HANDSHAKE {
                saw = true;
            }
            at += 1;
            continue;
        }
        break;
    }
    saw && at < words.len()
}

fn is_assignment(word: &str) -> bool {
    match word.split_once('=') {
        Some((name, _)) => {
            !name.is_empty()
                && name.chars().all(|c| c.is_ascii_alphanumeric() || c == '_')
                && !name.starts_with(|c: char| c.is_ascii_digit())
        }
        None => false,
    }
}

fn gating_runs_with_overflow_checks(workflow: &str) -> Vec<String> {
    scan_steps(workflow, true, runs_with_overflow_checks)
}

fn gating_runs_that_prove_the_build_traps(workflow: &str) -> Vec<String> {
    collect_steps(workflow, true)
        .into_iter()
        .filter(step_declares_the_handshake)
        .flat_map(|step| runs_with_overflow_checks(&step.run))
        .collect()
}

fn debug_runs_that_prove_the_build_traps(script: &str) -> Vec<String> {
    runs_with_overflow_checks(script)
        .into_iter()
        .filter(|command| line_assigns_the_handshake(command))
        .collect()
}

fn profiles_disabling_overflow_checks(manifest: &str) -> Vec<String> {
    fn normalise(path: &str) -> String {
        path.split('.')
            .map(|segment| {
                segment
                    .trim()
                    .trim_matches(|c| c == '"' || c == '\'')
                    .trim()
            })
            .collect::<Vec<_>>()
            .join(".")
    }

    const DISABLED: [&str; 2] = [
        "profile.dev.overflow-checks",
        "profile.test.overflow-checks",
    ];

    let mut section = String::new();
    let mut found = Vec::new();
    for raw in manifest.lines() {
        let line = raw.split('#').next().unwrap_or(raw).trim();
        if line.starts_with('[') {
            section = normalise(line.trim_matches(|c| c == '[' || c == ']'));
            continue;
        }
        let Some((key, value)) = line.split_once('=') else {
            continue;
        };
        if value.trim() != "false" {
            continue;
        }
        let key = normalise(key);
        let path = if section.is_empty() {
            key
        } else {
            format!("{section}.{key}")
        };
        if DISABLED.contains(&path.as_str()) {
            found.push(path);
        }
    }
    found
}

fn selects_away_from_the_library(line: &str) -> bool {
    shell_commands(line)
        .iter()
        .filter_map(|(words, _)| cargo_test_arguments(words))
        .any(|arguments| omits_the_library_unit_tests(&arguments))
}

#[test]
fn an_echoed_command_is_not_a_run() {
    for line in [
        "echo \"EXPECT_OVERFLOW_CHECKS=1 cargo test --locked --lib\"",
        "echo 'cargo test --locked --all-targets'",
        "echo cargo test --locked --lib",
        "printf '%s\\n' \"cargo test --locked --lib\"",
        "echo \"running: cargo test\" && cargo build --locked",
    ] {
        assert_eq!(
            runs_with_overflow_checks(line),
            Vec::<String>::new(),
            "{line} prints the command; it does not run it"
        );
    }
}

#[test]
fn the_spellings_that_do_invoke_cargo_test_still_count() {
    for line in [
        "cargo test --locked --all-targets",
        "EXPECT_OVERFLOW_CHECKS=1 cargo test --locked --lib",
        "cd .. && cargo test --locked --lib",
        "cargo test --locked --lib 2>&1",
        "cargo test --locked --lib > test.log",
        "cargo +stable test --locked --lib",
        "env EXPECT_OVERFLOW_CHECKS=1 cargo test --locked --lib",
    ] {
        assert_eq!(
            runs_with_overflow_checks(line).len(),
            1,
            "{line} runs the suite in debug and must be counted"
        );
    }
}

#[test]
fn a_debug_run_quoted_in_a_shell_comment_does_not_count() {
    let block = "\
set -euo pipefail
# Measured on this branch:
#     cargo test --locked --release --lib   ->  EXIT=0
#     EXPECT_OVERFLOW_CHECKS=1 cargo test --locked --lib   ->  EXIT=101
cargo test --locked --release
";
    assert_eq!(
        runs_with_overflow_checks(block),
        Vec::<String>::new(),
        "a debug command quoted inside a comment is documentation, not a run"
    );
}

#[test]
fn a_real_debug_run_counts() {
    let block = "\
cargo test --locked --release
EXPECT_OVERFLOW_CHECKS=1 cargo test --locked --lib
";
    assert_eq!(
        runs_with_overflow_checks(block),
        vec!["EXPECT_OVERFLOW_CHECKS=1 cargo test --locked --lib".to_string()],
    );
}

#[test]
fn a_trailing_comment_does_not_promote_a_release_run() {
    let inline = "cargo test --locked --release  # not cargo test --lib\n";
    assert_eq!(
        runs_with_overflow_checks(inline),
        Vec::<String>::new(),
        "the command is --release; the comment after it is not a second run"
    );
}

#[test]
fn a_hash_that_does_not_begin_a_word_is_not_a_comment() {
    for line in [
        "cargo test --locked --features a#b --all-targets",
        "cargo test --locked --all-targets && echo \"done #1\"",
    ] {
        assert_eq!(
            runs_with_overflow_checks(line).len(),
            1,
            "{line:?} has no comment on it: the `#` is inside a word or a quoted span"
        );
    }
}

#[test]
fn a_quoted_hash_before_the_run_does_not_cut_the_line_short() {
    for line in [
        "echo \"step # 1\"; cargo test --locked --all-targets",
        "echo 'step # 1' && cargo test --locked --all-targets",
        "printf '%s\\n' \"# not a comment\"; cargo test --locked --lib",
    ] {
        assert_eq!(
            runs_with_overflow_checks(line).len(),
            1,
            "{line:?} runs the suite: the `#` is inside quotes and ends nothing"
        );
    }
}

#[test]
fn a_trailing_comment_naming_release_does_not_disqualify_a_debug_run() {
    let line = "cargo test --locked --lib  # deliberately not --release\n";
    assert_eq!(
        runs_with_overflow_checks(line),
        vec!["cargo test --locked --lib".to_string()],
        "the command is a debug run; --release appears only in its comment"
    );
}

#[test]
fn a_profile_named_another_way_does_not_count() {
    let lines = [
        "cargo test --locked --profile release-with-debug --lib",
        "CARGO_PROFILE_TEST_OVERFLOW_CHECKS=false cargo test --locked --lib",
        "CARGO_PROFILE_DEV_OVERFLOW_CHECKS=false cargo test --locked --lib",
    ];
    for line in lines {
        assert_eq!(
            runs_with_overflow_checks(line),
            Vec::<String>::new(),
            "{line} does not compile the overflow checks"
        );
    }
    assert_eq!(
        lines.len(),
        3,
        "the loop above must have examined every shape"
    );
}

#[test]
fn a_cargo_build_step_is_not_a_test_run() {
    let validate_job = "\
cargo build --locked --release
./target/release/some-tool --check /tmp/image
";
    assert_eq!(
        runs_with_overflow_checks(validate_job),
        Vec::<String>::new(),
        "building a binary is not running a test suite"
    );
}

#[test]
fn a_run_whose_status_is_discarded_does_not_count() {
    for line in [
        "cargo test --locked --all-targets || true",
        "cargo test --locked --all-targets || echo 'ignored'",
        "cargo test --locked --all-targets | tee test.log",
        "cargo test --locked --all-targets &",
        "set +e\ncargo test --locked --all-targets\n",
        "set +o errexit\ncargo test --locked --all-targets\n",
        "set +ex\ncargo test --locked --all-targets\n",
        "set +o errexit; cargo test --locked --all-targets\n",
        "set +o errexit&& cargo test --locked --all-targets\n",
        "set +o errexit\ncargo test --locked --all-targets | tee log\n",
    ] {
        assert_eq!(
            runs_with_overflow_checks(line),
            Vec::<String>::new(),
            "{line:?} runs the suite and throws the answer away"
        );
    }
}

#[test]
fn a_run_whose_failure_still_ends_the_step_counts() {
    for line in [
        "cargo test --locked --all-targets",
        "cargo test --locked --all-targets && echo ok",
        "cd .. && cargo test --locked --all-targets && echo ok",
        "cargo test --locked --all-targets 2>&1",
        "cargo test --locked --all-targets; echo done",
        "cargo test --locked --all-targets ; true",
        "set -euo pipefail\ncargo test --locked --all-targets\n",
        "set -o errexit; cargo test --locked --all-targets\n",
        "echo \"set +o errexit\"\ncargo test --locked --all-targets\n",
    ] {
        assert_eq!(
            runs_with_overflow_checks(line).len(),
            1,
            "{line:?} fails the step when the suite fails"
        );
    }
}

#[test]
fn a_selection_that_leaves_the_library_unit_tests_out_does_not_count() {
    for line in [
        "cargo test --locked --doc",
        "cargo test --locked --no-run",
        "cargo test --locked --bins",
        "cargo test --locked --examples",
        "cargo test --locked --bin some_tool",
        "cargo test --locked --example inspect",
        "cargo test --locked some_filter",
        "EXPECT_OVERFLOW_CHECKS=1 cargo test --locked --features qemu-validation qemu",
    ] {
        assert!(
            selects_away_from_the_library(line),
            "{line} selects something other than the library unit tests"
        );
        assert_eq!(
            runs_with_overflow_checks(line),
            Vec::<String>::new(),
            "{line} does not build and run the library unit tests"
        );
    }
}

#[test]
fn an_equals_spelled_single_target_does_not_count_either() {
    for line in [
        "cargo test --locked --features qemu-validation --test=qemu_validation",
        "EXPECT_OVERFLOW_CHECKS=1 cargo test --locked --test=some_oracle",
        "cargo test --locked --test=\"qemu_validation\"",
    ] {
        assert_eq!(
            runs_with_overflow_checks(line),
            Vec::<String>::new(),
            "{line} builds one integration target and no library unit tests"
        );
        assert!(
            selects_away_from_the_library(line),
            "{line} names a single integration target"
        );
    }
}

#[test]
fn options_that_only_look_like_test_do_not_disqualify_a_run() {
    for line in [
        "cargo test --locked --tests",
        "cargo test --locked --all-targets",
        "cargo test --locked --lib -- --test-threads=1",
    ] {
        assert!(
            !selects_away_from_the_library(line),
            "{line} does not restrict the run to one integration target"
        );
        assert_eq!(
            runs_with_overflow_checks(line).len(),
            1,
            "{line} builds the library unit tests and must be counted"
        );
    }
}

#[test]
fn a_single_integration_target_does_not_count() {
    for line in [
        "cargo test --locked --features qemu-validation --test qemu_validation",
        "EXPECT_OVERFLOW_CHECKS=1 cargo test --locked --test some_oracle",
    ] {
        assert_eq!(
            runs_with_overflow_checks(line),
            Vec::<String>::new(),
            "{line} builds one integration target and no library unit tests"
        );
    }
}

#[test]
fn a_nested_backtick_does_not_close_the_outer_substitution() {
    let line = "echo $(echo `echo x)`) ; cargo test --locked --lib";
    assert_eq!(
        runs_with_overflow_checks(line),
        vec![line.to_string()],
        "{line}: the `)` is inside a nested backtick span, so the substitution runs on \
             and the cargo test after it is top-level"
    );
}

#[test]
fn a_brace_expansion_does_not_close_the_outer_substitution() {
    assert_eq!(
        runs_with_overflow_checks("$(echo ${x:+)} ; cargo test --locked --lib)"),
        Vec::<String>::new(),
        "the whole thing is inside `$( )`; the `)` belongs to the brace expansion"
    );
    let line = "echo $(echo ${x:+)}) ; cargo test --locked --lib";
    assert_eq!(
        runs_with_overflow_checks(line),
        vec![line.to_string()],
        "{line}: the substitution closes and the cargo test after it is top-level"
    );
    let line = "cargo test --locked --lib && echo ${x:+)}";
    assert_eq!(
        runs_with_overflow_checks(line),
        vec![line.to_string()],
        "{line}: the `)` belongs to the expansion, so the && list still ends the step"
    );

    assert_eq!(
        runs_with_overflow_checks("cargo test --locked --lib && echo ${x:-$(echo {)} ; true"),
        Vec::<String>::new(),
        "the `; true` swallows the failure; the brace inside the substitution is data"
    );
    let line = "cargo test --locked --lib && echo ${x:-$(echo {)}";
    assert_eq!(
        runs_with_overflow_checks(line),
        vec![line.to_string()],
        "{line}: the && chain ends the step, so the suite's failure is read"
    );
    for expansion in [
        "${x:-{}",
        "${x:-$(echo })}",
        "${x:-`echo }`}",
        "${x:-$(echo ${y})}",
    ] {
        let line = format!("cargo test --locked --lib && echo {expansion} ; true");
        assert_eq!(
            runs_with_overflow_checks(&line),
            Vec::<String>::new(),
            "{line}: the `; true` swallows the failure, so nothing reads it"
        );
    }

    for expansion in ["${x:-$(echo })}", "${x:-$(echo ${y})}"] {
        let line = format!("cargo test --locked --lib && echo {expansion}");
        assert_eq!(
            runs_with_overflow_checks(&line),
            vec![line.clone()],
            "{line}: the && chain ends the step, so the suite's failure is read"
        );
    }

    assert_eq!(
        runs_with_overflow_checks("cargo test --locked --lib && echo $(echo {) ; true"),
        Vec::<String>::new(),
        "a literal brace in a substitution does not change where the line ends"
    );

    let line = "cargo test --locked --lib && echo ${x:-${y}z)}";
    assert_eq!(
        runs_with_overflow_checks(line),
        vec![line.to_string()],
        "{line}: the nested expansion owns both braces and the `)`, so the && list              still ends the step"
    );
    assert_eq!(
        runs_with_overflow_checks("$(echo ${x:-${y:+)}} ; cargo test --locked --lib)"),
        Vec::<String>::new(),
        "a nested brace expansion's braces are its own inside a substitution too"
    );
}

#[test]
fn a_paren_the_shell_reads_as_data_does_not_end_a_substitution() {
    for line in [
        "cat <(echo a\\) ; cargo test --locked --lib)",
        "cat <(echo \"a)\" ; cargo test --locked --lib)",
        "cat <(echo 'a\\)' ; cargo test --locked --lib)",
        "echo $(echo a\\) ; cargo test --locked --lib)",
        "echo $(echo \"a)\" ; cargo test --locked --lib)",
        "cat <(echo 'a\\' ; cargo test --locked --lib)",
    ] {
        assert_eq!(
            runs_with_overflow_checks(line),
            Vec::<String>::new(),
            "{line}: bash keeps the cargo test inside the substitution and discards \
                 its status, so counting it would count a probe that does not gate the step"
        );
    }
}

#[test]
fn an_escaped_backtick_does_not_end_a_backtick_substitution() {
    let line = "echo `echo a\\` ; cargo test --locked --lib`";
    assert_eq!(
        runs_with_overflow_checks(line),
        Vec::<String>::new(),
        "{line}: the escaped backtick keeps the cargo test inside the substitution"
    );
}

#[test]
fn a_substitution_that_really_closes_still_leaves_a_gate() {
    for line in [
        "cat <(echo \"a)\") ; cargo test --locked --lib",
        "cat <(echo 'a)') ; cargo test --locked --lib",
        "cat <(echo a\\\\) ; cargo test --locked --lib",
        "cat <(echo 'a\\') ; cargo test --locked --lib",
        "cat <(echo a) ; cargo test --locked --lib",
    ] {
        assert_eq!(
            runs_with_overflow_checks(line),
            vec![line.to_string()],
            "{line}: the substitution closes and the cargo test after it is top-level, \
                 so its failure ends the step and it must still count"
        );
    }
}

#[test]
fn a_cargo_test_inside_a_command_substitution_is_not_a_gate() {
    for line in [
        "echo $(cargo test --locked --lib)",
        "OUT=$(cargo test --locked --lib)",
        "echo `cargo test --locked --lib`",
        "echo \"result: $(cargo test --locked --all-targets)\"",
        "cat <(cargo test --locked --all-targets)",
        "diff <(cargo test --locked --lib) expected.txt",
        "echo x > >(cargo test --locked --all-targets)",
    ] {
        assert_eq!(
            runs_with_overflow_checks(line),
            Vec::<String>::new(),
            "{line}: the substitution swallows the status, only the outer command's is read"
        );
    }
}

#[test]
fn a_substitution_in_an_argument_leaves_the_run_counted() {
    assert_eq!(
        runs_with_overflow_checks("cargo test --locked --lib -- --test-threads=$(nproc)").len(),
        1,
        "the run is `cargo test`; the substitution is one of its arguments"
    );
    assert_eq!(
        runs_with_overflow_checks("cargo test --locked --lib").len(),
        1,
    );
}

#[test]
fn an_escaped_quote_does_not_end_the_quoted_span() {
    for line in [
        "echo \"a \\\" && cargo test --locked --lib\"",
        "echo \"quoted \\\" cargo test --locked --all-targets\"",
    ] {
        assert_eq!(
            runs_with_overflow_checks(line),
            Vec::<String>::new(),
            "{line} is one `echo`; the escaped quote is data, not the end of the span"
        );
    }
    assert_eq!(
        runs_with_overflow_checks("echo 'a \\' && cargo test --locked --lib").len(),
        1,
        "single quotes have no escapes: the span ends and a real run follows"
    );
}

#[test]
fn an_and_list_that_does_not_end_the_line_has_its_failure_swallowed() {
    for line in [
        "cargo test --locked --lib && echo ok; echo done",
        "cargo test --locked --all-targets && echo ok; ls",
        "cargo test --locked --all-targets && echo done\necho \"second line\"\n",
        "cargo test --locked --lib && echo ok\ncargo build --locked\n",
    ] {
        assert_eq!(
            runs_with_overflow_checks(line),
            Vec::<String>::new(),
            "{line}: the && list is followed by another command, so its status is replaced"
        );
    }
}

#[test]
fn an_and_list_that_ends_the_line_still_counts() {
    for line in [
        "cargo test --locked --lib && echo ok",
        "cargo test --locked --lib && echo ok && echo done",
        "cd .. && cargo test --locked --lib",
        "set -euo pipefail\ncargo test --locked --all-targets && echo ok\n",
        "cd ..\ncargo test --locked --lib && echo ok\n",
    ] {
        assert_eq!(
            runs_with_overflow_checks(line).len(),
            1,
            "{line}: exit 1 propagates, measured with bash -e"
        );
    }
}

#[test]
fn a_same_line_set_plus_e_still_disqualifies_the_script() {
    for line in [
        "set +o errexit; cargo test --locked --lib",
        "set +e; cargo test --locked --lib",
        "set +ex; cargo test --locked --lib",
    ] {
        assert_eq!(
            runs_with_overflow_checks(line),
            Vec::<String>::new(),
            "{line}: measured -- bash -e -c 'set +o errexit; false; echo R' exits 0"
        );
    }
}

#[test]
fn errexit_restored_later_is_still_refused_and_that_is_deliberate() {
    let script = "set +e\nsomething || true\nset -e\ncargo test --locked --lib\n";
    assert_eq!(
        runs_with_overflow_checks(script),
        Vec::<String>::new(),
        "over-strict on purpose: the guard does not track where `set -e` is live"
    );
}

#[test]
fn a_tests_flag_run_counts_which_is_what_the_trailing_space_protects() {
    assert_eq!(
        runs_with_overflow_checks("cargo test --locked --tests"),
        vec!["cargo test --locked --tests".to_string()],
    );
    assert_eq!(
        runs_with_overflow_checks("cargo test --locked --all-targets").len(),
        1,
        "`--all-targets` builds the library too"
    );
}

#[test]
fn a_debug_run_carrying_the_handshake_counts() {
    let script = "EXPECT_OVERFLOW_CHECKS=1 cargo test --locked --lib\n";
    assert_eq!(
        debug_runs_that_prove_the_build_traps(script),
        vec!["EXPECT_OVERFLOW_CHECKS=1 cargo test --locked --lib".to_string()],
    );
}

#[test]
fn a_debug_run_without_the_handshake_does_not_count() {
    let script = "cargo test --locked --lib\n";
    assert_eq!(
        debug_runs_that_prove_the_build_traps(script),
        Vec::<String>::new(),
        "the step is there but nothing checks the build it produced"
    );
}

#[test]
fn the_handshake_on_a_release_run_does_not_count() {
    let script = "EXPECT_OVERFLOW_CHECKS=1 cargo test --locked --release\n";
    assert_eq!(
        debug_runs_that_prove_the_build_traps(script),
        Vec::<String>::new(),
    );
}

#[test]
fn the_handshake_quoted_in_a_comment_does_not_count() {
    let script = "#     EXPECT_OVERFLOW_CHECKS=1 cargo test --locked --lib\n";
    assert_eq!(
        debug_runs_that_prove_the_build_traps(script),
        Vec::<String>::new(),
    );
}

#[test]
fn an_assignment_with_no_command_after_it_arms_nothing() {
    for line in [
        "EXPECT_OVERFLOW_CHECKS=1",
        "  EXPECT_OVERFLOW_CHECKS=1  ",
        "env EXPECT_OVERFLOW_CHECKS=1",
        "EXPECT_OVERFLOW_CHECKS=1 OTHER=2",
        "export",
    ] {
        assert!(
            !line_assigns_the_handshake(line),
            "{line}: nothing is exported, so no later cargo test can see the handshake"
        );
    }

    let block = "EXPECT_OVERFLOW_CHECKS=1\ncargo test --locked --lib\n";
    assert_eq!(
        debug_runs_that_prove_the_build_traps(block),
        Vec::<String>::new(),
        "the assignment is on its own line, so the cargo test runs without it"
    );
}

#[test]
fn the_spellings_that_really_export_it_still_arm_the_step() {
    for line in [
        "EXPECT_OVERFLOW_CHECKS=1 cargo test --locked --lib",
        "env EXPECT_OVERFLOW_CHECKS=1 cargo test --locked --lib",
        "EXPECT_OVERFLOW_CHECKS=1 RUST_BACKTRACE=1 cargo test --locked --lib",
        "RUST_BACKTRACE=1 EXPECT_OVERFLOW_CHECKS=1 cargo test --locked --lib",
        "export EXPECT_OVERFLOW_CHECKS=1",
        "export RUST_BACKTRACE=1 EXPECT_OVERFLOW_CHECKS=1",
    ] {
        assert!(
            line_assigns_the_handshake(line),
            "{line} really does put the handshake in an environment a child receives"
        );
    }

    assert!(
        !line_assigns_the_handshake("echo EXPECT_OVERFLOW_CHECKS=1"),
        "a printed handshake still arms nothing"
    );
}

#[test]
fn a_printed_handshake_does_not_arm_the_step() {
    for line in [
        "echo \"EXPECT_OVERFLOW_CHECKS=1\"",
        "echo EXPECT_OVERFLOW_CHECKS=1",
        "printf '%s\\n' EXPECT_OVERFLOW_CHECKS=1",
        "echo \"setting EXPECT_OVERFLOW_CHECKS=1 for this step\"",
        "grep -q EXPECT_OVERFLOW_CHECKS=1 ci.yml",
    ] {
        assert!(
            !line_assigns_the_handshake(line),
            "{line} mentions the handshake; it does not set it"
        );
    }
}

#[test]
fn every_spelling_that_really_assigns_it_still_arms_the_step() {
    for line in [
        "EXPECT_OVERFLOW_CHECKS=1 cargo test --locked --lib",
        "env EXPECT_OVERFLOW_CHECKS=1 cargo test --locked --lib",
        "RUST_BACKTRACE=1 EXPECT_OVERFLOW_CHECKS=1 cargo test --locked --lib",
        "export EXPECT_OVERFLOW_CHECKS=1",
        "EXPECT_OVERFLOW_CHECKS=1 cargo +stable test --locked --lib",
    ] {
        assert!(
            line_assigns_the_handshake(line),
            "{line} assigns the handshake and must arm the step"
        );
    }
}

#[test]
fn a_printed_handshake_beside_a_real_run_does_not_prove_anything() {
    for script in [
        "echo \"EXPECT_OVERFLOW_CHECKS=1\" && cargo test --locked --lib\n",
        "cargo test --locked --lib -- --skip EXPECT_OVERFLOW_CHECKS=1\n",
    ] {
        assert_eq!(
            debug_runs_that_prove_the_build_traps(script),
            Vec::<String>::new(),
            "{script:?}: the handshake is mentioned, not assigned, so the process \
                 gets no variable and the runtime probe asserts nothing"
        );
    }
}

#[test]
fn a_real_assignment_beside_a_run_on_one_line_still_counts() {
    let script = "export EXPECT_OVERFLOW_CHECKS=1 && cargo test --locked --lib\n";
    assert_eq!(debug_runs_that_prove_the_build_traps(script).len(), 1);
}

#[test]
fn the_env_mapping_still_arms_the_step() {
    let step = Step {
        keys: vec!["run".to_string(), "env".to_string()],
        run: "cargo test --locked --lib\n".to_string(),
        env: vec!["EXPECT_OVERFLOW_CHECKS=1".to_string()],
    };
    assert!(step_declares_the_handshake(&step));

    let printed = Step {
        keys: vec!["run".to_string()],
        run: "echo \"EXPECT_OVERFLOW_CHECKS=1\"\ncargo test --locked --lib\n".to_string(),
        env: Vec::new(),
    };
    assert!(
        !step_declares_the_handshake(&printed),
        "a step whose only mention is printed is not armed"
    );
}

#[test]
fn the_test_profile_disabling_the_checks_is_caught() {
    let manifest = "\
[profile.release]
lto = true

[profile.test]
overflow-checks = false
";
    assert_eq!(
        profiles_disabling_overflow_checks(manifest),
        vec!["profile.test.overflow-checks".to_string()],
    );
}

#[test]
fn the_dev_profile_disabling_the_checks_is_caught() {
    let manifest = "[profile.dev]\nopt-level = 1\noverflow-checks   =   false\n";
    assert_eq!(
        profiles_disabling_overflow_checks(manifest),
        vec!["profile.dev.overflow-checks".to_string()],
    );
}

#[test]
fn the_release_profile_disabling_the_checks_is_not_flagged() {
    let manifest = "[profile.release]\noverflow-checks = false\n";
    assert_eq!(
        profiles_disabling_overflow_checks(manifest),
        Vec::<String>::new(),
    );
}

#[test]
fn a_commented_out_setting_is_not_a_setting() {
    let manifest = "[profile.test]\n# overflow-checks = false\nopt-level = 1\n";
    assert_eq!(
        profiles_disabling_overflow_checks(manifest),
        Vec::<String>::new(),
    );
}

#[test]
fn a_disabling_line_with_a_trailing_comment_is_still_caught() {
    let manifest = "[profile.test]\noverflow-checks = false  # speeds the suite up\n";
    assert_eq!(
        profiles_disabling_overflow_checks(manifest),
        vec!["profile.test.overflow-checks".to_string()],
    );
}

#[test]
fn another_setting_being_false_is_not_this_one() {
    let manifest = "[profile.test]\ndebug-assertions = false\nopt-level = 1\n";
    assert_eq!(
        profiles_disabling_overflow_checks(manifest),
        Vec::<String>::new(),
    );
}

#[test]
fn a_double_quoted_key_is_the_same_key() {
    let manifest = "[profile.test]\n\"overflow-checks\" = false\n";
    assert_eq!(
        profiles_disabling_overflow_checks(manifest),
        vec!["profile.test.overflow-checks".to_string()],
    );
}

#[test]
fn a_literal_quoted_key_is_the_same_key() {
    let manifest = "[profile.dev]\n'overflow-checks' = false\n";
    assert_eq!(
        profiles_disabling_overflow_checks(manifest),
        vec!["profile.dev.overflow-checks".to_string()],
    );
}

#[test]
fn a_dotted_key_putting_the_profile_on_the_key_side_is_caught() {
    let manifest = "[profile]\ntest.overflow-checks = false\n";
    assert_eq!(
        profiles_disabling_overflow_checks(manifest),
        vec!["profile.test.overflow-checks".to_string()],
    );
}

#[test]
fn a_top_level_dotted_key_is_caught() {
    let manifest = "profile.test.overflow-checks = false\n";
    assert_eq!(
        profiles_disabling_overflow_checks(manifest),
        vec!["profile.test.overflow-checks".to_string()],
    );
}

#[test]
fn a_quoted_section_is_the_same_section() {
    let manifest = "[\"profile\".'test']\noverflow-checks = false\n";
    assert_eq!(
        profiles_disabling_overflow_checks(manifest),
        vec!["profile.test.overflow-checks".to_string()],
    );
}

#[test]
fn the_release_profile_is_exempt_in_the_dotted_spelling_too() {
    let manifest = "[profile]\nrelease.overflow-checks = false\n";
    assert_eq!(
        profiles_disabling_overflow_checks(manifest),
        Vec::<String>::new(),
    );
}

#[test]
fn enabling_the_checks_explicitly_is_not_flagged() {
    let manifest = "[profile.test]\noverflow-checks = true\n";
    assert_eq!(
        profiles_disabling_overflow_checks(manifest),
        Vec::<String>::new(),
    );
}

#[test]
fn a_handshake_in_a_shell_comment_does_not_arm_a_step() {
    for block in [
        "      - run: |\n          # EXPECT_OVERFLOW_CHECKS=1 -- see ci_profile.rs\n          cargo test --locked --lib\n",
        "      - run: |\n          cargo test --locked --lib  # EXPECT_OVERFLOW_CHECKS=1 is set in CI\n",
    ] {
        let yaml = GATING.replace(
            "      - run: EXPECT_OVERFLOW_CHECKS=1 cargo test --locked --lib\n",
            block,
        );
        assert!(
            gating_runs_that_prove_the_build_traps(&yaml).is_empty(),
            "the variable is named in a comment, so the process never receives \
                 it and the runtime probe asserts nothing: {block:?}"
        );
    }
}

#[test]
fn a_handshake_glued_to_a_terminator_does_not_arm_a_step() {
    for block in [
        "      - run: |\n          cargo test --locked --lib;# EXPECT_OVERFLOW_CHECKS=1 is set in CI\n",
        "      - run: |\n          (cargo test --locked --lib)# EXPECT_OVERFLOW_CHECKS=1 is set in CI\n",
        "      - run: |\n          cargo test --locked --lib && echo ok&&# EXPECT_OVERFLOW_CHECKS=1 is set in CI\n",
    ] {
        let yaml = GATING.replace(
            "      - run: EXPECT_OVERFLOW_CHECKS=1 cargo test --locked --lib\n",
            block,
        );
        assert!(
            gating_runs_that_prove_the_build_traps(&yaml).is_empty(),
            "the variable is named in a comment, so the process never receives \
                 it and the runtime probe asserts nothing: {block:?}"
        );
    }
}

#[test]
fn both_real_spellings_of_the_handshake_still_arm_a_step() {
    for block in [
        "      - run: EXPECT_OVERFLOW_CHECKS=1 cargo test --locked --lib\n",
        "      - run: cargo test --locked --lib\n        env:\n          EXPECT_OVERFLOW_CHECKS: \"1\"\n",
        "      - run: |\n          # the guard is armed below, not here\n          EXPECT_OVERFLOW_CHECKS=1 cargo test --locked --lib\n",
    ] {
        let yaml = GATING.replace(
            "      - run: EXPECT_OVERFLOW_CHECKS=1 cargo test --locked --lib\n",
            block,
        );
        assert_eq!(
            gating_runs_that_prove_the_build_traps(&yaml).len(),
            1,
            "this step really does ask the build to prove it traps: {block:?}"
        );
    }
}

const GATING: &str = "\
on:
  pull_request:
    branches: [main]
jobs:
  test:
    steps:
      - run: EXPECT_OVERFLOW_CHECKS=1 cargo test --locked --lib
";

#[test]
fn the_control_shape_gates() {
    assert_eq!(
        gating_runs_that_prove_the_build_traps(GATING).len(),
        1,
        "the control must be counted, or every test below passes for the wrong reason"
    );
}

#[test]
fn a_step_carrying_if_does_not_gate() {
    for condition in [
        "if: false",
        "if: ${{ false }}",
        "if: github.event_name == 'push'",
        "if: ${{ env.SOMETHING == 'yes' }}",
    ] {
        let yaml = GATING.replace(
            "      - run: EXPECT_OVERFLOW_CHECKS=1 cargo test --locked --lib\n",
            &format!(
                "      - run: EXPECT_OVERFLOW_CHECKS=1 cargo test --locked --lib\n        {condition}\n"
            ),
        );
        assert!(
            gating_runs_that_prove_the_build_traps(&yaml).is_empty(),
            "a step carrying `{condition}` may or may not run, so it cannot be what \
                 makes an overflow visible. Rejected on the key's presence \
                 rather than by evaluating it -- the spellings are open-ended."
        );
    }
}

#[test]
fn a_step_carrying_continue_on_error_does_not_gate() {
    let yaml = GATING.replace(
        "      - run: EXPECT_OVERFLOW_CHECKS=1 cargo test --locked --lib\n",
        "      - run: EXPECT_OVERFLOW_CHECKS=1 cargo test --locked --lib\n        continue-on-error: true\n",
    );
    assert!(
        gating_runs_that_prove_the_build_traps(&yaml).is_empty(),
        "the step runs and its failure is discarded, which is the project's own named \
             defect: a step that runs and whose result nothing reads"
    );
}

#[test]
fn a_job_carrying_if_does_not_gate() {
    let yaml = GATING.replace("  test:\n", "  test:\n    if: false\n");
    assert!(
        gating_runs_that_prove_the_build_traps(&yaml).is_empty(),
        "the same reasoning one level up: a job that may not run cannot gate"
    );
}

#[test]
fn a_job_carrying_continue_on_error_does_not_gate() {
    let yaml = GATING.replace("  test:\n", "  test:\n    continue-on-error: true\n");
    assert!(
        gating_runs_that_prove_the_build_traps(&yaml).is_empty(),
        "a job whose failure is discarded cannot gate, however sound its steps"
    );
}

#[test]
fn a_workflow_that_no_longer_runs_on_pull_request_does_not_gate() {
    let yaml = GATING.replace(
        "  pull_request:\n    branches: [main]\n",
        "  push:\n    branches: [main]\n",
    );
    assert!(
        gating_runs_that_prove_the_build_traps(&yaml).is_empty(),
        "scoping the scan to ci.yml assumes ci.yml is what runs on a pull request; if its \
             triggers stop including pull_request, the step gates nothing no matter how it looks"
    );
}

#[test]
fn a_run_block_is_read_whole() {
    let yaml = "\
on:
  pull_request:
    branches: [main]
jobs:
  test:
    steps:
      - name: a block
        run: |
          set -euo pipefail
          EXPECT_OVERFLOW_CHECKS=1 cargo test --locked --lib
";
    assert_eq!(
        gating_runs_that_prove_the_build_traps(yaml).len(),
        1,
        "a command inside a `run: |` block must be seen; the kernel-gate loops live in \
             blocks like this one"
    );
}

#[test]
fn a_quoted_key_is_the_same_key() {
    for spelling in [
        "\"if\": false",
        "'if': false",
        "\"continue-on-error\": true",
        "'continue-on-error': true",
    ] {
        let yaml = GATING.replace(
            "      - run: EXPECT_OVERFLOW_CHECKS=1 cargo test --locked --lib\n",
            &format!(
                "      - run: EXPECT_OVERFLOW_CHECKS=1 cargo test --locked --lib\n        {spelling}\n"
            ),
        );
        assert!(
            gating_runs_that_prove_the_build_traps(&yaml).is_empty(),
            "`{spelling}` is the same key as its bare spelling; quoting it must not \
                 make a skipped step count as the thing gating the merge"
        );
    }
}

#[test]
fn a_quoted_key_on_the_job_is_the_same_key() {
    for spelling in ["\"if\": false", "\"continue-on-error\": true"] {
        let yaml = GATING.replace("  test:\n", &format!("  test:\n    {spelling}\n"));
        assert!(
            gating_runs_that_prove_the_build_traps(&yaml).is_empty(),
            "`{spelling}` on the job is the same key as its bare spelling"
        );
    }
}

#[test]
fn a_commented_out_pull_request_trigger_does_not_gate() {
    let commented_with_another_trigger_left = GATING.replace(
        "  pull_request:\n    branches: [main]\n",
        "  # pull_request:\n  #   branches: [main]\n  push:\n    branches: [main]\n",
    );
    let only_a_comment_naming_it = GATING.replace(
        "  pull_request:\n    branches: [main]\n",
        "  # pull_request disabled while we investigate flaky runners\n  push:\n    branches: [main]\n",
    );
    for yaml in [
        &commented_with_another_trigger_left,
        &only_a_comment_naming_it,
    ] {
        assert!(
            gating_runs_that_prove_the_build_traps(yaml).is_empty(),
            "a trigger named only in a comment is not a trigger; the parser drops \
                 comments before anything compares a name, so there is no `#` to strip \
                 and none to forget:\n{yaml}"
        );
    }
}

#[test]
fn a_trigger_that_merely_begins_with_pull_request_does_not_gate() {
    let yaml = GATING.replace(
        "  pull_request:\n    branches: [main]\n",
        "  pull_request_review:\n    types: [submitted]\n",
    );
    assert!(
        gating_runs_that_prove_the_build_traps(&yaml).is_empty(),
        "pull_request_review is not pull_request; a substring match cannot tell \
             them apart and this comparison must"
    );
}

#[test]
fn pull_request_target_does_not_gate() {
    let yaml = GATING.replace(
        "  pull_request:\n    branches: [main]\n",
        "  pull_request_target:\n    branches: [main]\n",
    );
    assert!(
        gating_runs_that_prove_the_build_traps(&yaml).is_empty(),
        "pull_request_target runs with the base repository's token and secrets \
             and checks out the base ref; it is not proof that the merge is gated"
    );
}

#[test]
fn a_sequence_of_triggers_is_read() {
    for spelling in [
        "on: [push, pull_request]\n",
        "on:\n  - push\n  - pull_request\n",
    ] {
        let yaml = GATING.replace("on:\n  pull_request:\n    branches: [main]\n", spelling);
        assert_eq!(
            gating_runs_that_prove_the_build_traps(&yaml).len(),
            1,
            "this workflow triggers on a pull request as surely as the mapping \
                 spelling does:\n{yaml}"
        );
    }
}

#[test]
fn every_block_scalar_style_is_read_whole() {
    for style in ["|", "|-", "|+", ">", ">-", "|2"] {
        let yaml = GATING.replace(
            "      - run: EXPECT_OVERFLOW_CHECKS=1 cargo test --locked --lib\n",
            &format!(
                "      - name: a block\n        run: {style}\n          EXPECT_OVERFLOW_CHECKS=1 cargo test --locked --lib\n"
            ),
        );
        assert_eq!(
            gating_runs_that_prove_the_build_traps(&yaml).len(),
            1,
            "`run: {style}` is a legal block scalar carrying the gating command; \
                 failing here is the guard refusing a correct workflow:\n{yaml}"
        );
    }
}

#[test]
fn a_debug_run_quoted_in_a_yaml_comment_does_not_gate() {
    let yaml = "\
on:
  pull_request:
    branches: [main]
jobs:
  test:
    steps:
      # Do not remove this as a duplicate of the runs above it:
      #     - run: EXPECT_OVERFLOW_CHECKS=1 cargo test --locked --lib
      - run: cargo test --locked --release
";
    assert!(
        gating_runs_that_prove_the_build_traps(yaml).is_empty(),
        "the gating command appears only inside a comment, and the step that \
             remains is a release run"
    );
}

#[test]
#[should_panic(expected = "not valid YAML")]
fn a_workflow_that_does_not_parse_is_a_failure() {
    parse_workflow("jobs:\n  test:\n   - broken: [unclosed\n");
}

#[test]
fn a_workflow_carrying_both_triggers_still_gates() {
    let yaml = GATING.replace(
        "  pull_request:\n    branches: [main]\n",
        "  pull_request:\n    branches: [main]\n  pull_request_target:\n    branches: [main]\n",
    );
    assert_ne!(yaml, GATING, "the mutation must actually apply");
    assert_eq!(
        gating_runs_that_prove_the_build_traps(&yaml).len(),
        1,
        "the workflow still triggers on pull_request, so it still gates; refusing it \
             because pull_request_target is also present would be the over-correction"
    );
}

#[test]
fn the_handshake_declared_in_an_env_mapping_counts() {
    for value in ["\"1\"", "1", "'1'"] {
        let yaml = GATING.replace(
            "      - run: EXPECT_OVERFLOW_CHECKS=1 cargo test --locked --lib\n",
            &format!(
                "      - run: cargo test --locked --lib\n        env:\n          EXPECT_OVERFLOW_CHECKS: {value}\n"
            ),
        );
        assert_eq!(
            gating_runs_that_prove_the_build_traps(&yaml).len(),
            1,
            "`EXPECT_OVERFLOW_CHECKS: {value}` in an env mapping is the same \
                 instruction to Actions as the inline prefix, and on a Windows \
                 matrix it is the only one that works:\n{yaml}"
        );
    }
}

#[test]
fn the_handshake_in_an_env_mapping_does_not_count_on_a_release_run() {
    let yaml = GATING.replace(
        "      - run: EXPECT_OVERFLOW_CHECKS=1 cargo test --locked --lib\n",
        "      - run: cargo test --locked --release --lib\n        env:\n          EXPECT_OVERFLOW_CHECKS: \"1\"\n",
    );
    assert!(
        gating_runs_that_prove_the_build_traps(&yaml).is_empty(),
        "a release run cannot prove the build traps, however it is labelled"
    );
}

#[test]
fn a_step_carrying_an_env_mapping_still_gates() {
    let yaml = GATING.replace(
        "      - run: EXPECT_OVERFLOW_CHECKS=1 cargo test --locked --lib\n",
        "      - run: EXPECT_OVERFLOW_CHECKS=1 cargo test --locked --lib\n        env:\n          SOMETHING_ELSE: \"1\"\n",
    );
    assert_eq!(
        gating_runs_that_prove_the_build_traps(&yaml).len(),
        1,
        "`env:` says nothing about whether the step's result is read"
    );
}
