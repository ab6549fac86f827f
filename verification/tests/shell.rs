use span_circuit_info::shell::prepare_and_quote;

fn quoted(s: &str) -> String {
    prepare_and_quote(s.to_string(), true)
}

#[test]
fn values_without_quoting_are_kept() {
    assert_eq!(prepare_and_quote("-it's".to_string(), false), "-it's");
    assert_eq!(prepare_and_quote("".to_string(), false), "");
}

#[test]
fn quoted_values() {
    assert_eq!(quoted("Kitchen"), "'Kitchen'");
    assert_eq!(quoted(""), "''");
    assert_eq!(quoted("a b"), "'a b'");
    assert_eq!(quoted("$(rm) `x` \"y\" \\"), "'$(rm) `x` \"y\" \\'");
}

#[test]
fn single_quotes_are_escaped() {
    assert_eq!(quoted("Bob's room"), r#"'Bob'\''s room'"#);
    assert_eq!(quoted("'"), r#"''\'''"#);
    assert_eq!(quoted("''"), r#"''\'''\'''"#);
}

#[test]
fn a_leading_hyphen_gets_a_space() {
    assert_eq!(quoted("-12.5"), "' -12.5'");
    assert_eq!(quoted("-"), "' -'");
    assert_eq!(quoted(" -1"), "' -1'");
    assert_eq!(quoted("1-2"), "'1-2'");
    assert_eq!(quoted("-'"), r#"' -'\'''"#);
}

/// Reads a line as a POSIX shell splits it into words.
fn words(line: &str) -> Vec<String> {
    let mut words = Vec::new();
    let mut word: Option<String> = None;
    let mut chars = line.chars();
    let mut inside = false;
    while let Some(c) = chars.next() {
        if inside {
            if c == '\'' {
                inside = false;
            } else {
                word.get_or_insert_with(String::new).push(c);
            }
        } else if c == '\'' {
            inside = true;
            word.get_or_insert_with(String::new);
        } else if c == '\\' {
            let next = chars.next().expect("a character after the backslash");
            word.get_or_insert_with(String::new).push(next);
        } else if c == ' ' {
            words.extend(word.take());
        } else {
            word.get_or_insert_with(String::new).push(c);
        }
    }
    assert!(!inside);
    words.extend(word);
    words
}

#[test]
fn a_shell_reads_quoted_values_back() {
    let values = ["Bob's room", "", "a  b", "-5", "''", "x\ny", "$HOME"];
    let line = values.map(quoted).join(" ");
    assert_eq!(words(&line), ["Bob's room", "", "a  b", " -5", "''", "x\ny", "$HOME"]);
}
