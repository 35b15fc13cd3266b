use flow::commands::{
    can_list, chosen_alias, fits_row, list, pad, search_input, shorten, use_prompt, UseError,
};
use flow::draft::{clean_template, compose, draft, parse_tags, DraftError};
use flow::storage::{find_prompt, Prompt, PromptFile};

fn prompt(alias: &str, description: &str, tags: &[&str], template: &str) -> Prompt {
    Prompt {
        id: "0".to_string(),
        alias: alias.to_string(),
        description: description.to_string(),
        tags: tags.iter().map(|t| t.to_string()).collect(),
        template: template.to_string(),
    }
}

#[test]
fn pad_fills_up_to_the_width() {
    assert_eq!(pad("ab", 5), "ab   ");
    assert_eq!(pad("abcde", 5), "abcde");
    assert_eq!(pad("abcdef", 5), "abcdef");
    assert_eq!(pad("", 3), "   ");
    assert_eq!(pad("\u{e9}t\u{e9}", 5), format!("{:<5}", "\u{e9}t\u{e9}"));
    assert_eq!(pad("x", 0), "x");
}

#[test]
fn shorten_cuts_after_37_bytes() {
    let exact = "a".repeat(37);
    assert_eq!(shorten(&exact), exact);
    let long = "b".repeat(38);
    assert_eq!(shorten(&long), format!("{}...", "b".repeat(37)));
    assert_eq!(shorten("short"), "short");
    assert_eq!(shorten(""), "");
    let accents = format!("{}{}", "c".repeat(35), "\u{e9}\u{e9}");
    assert_eq!(shorten(&accents), format!("{}\u{e9}...", "c".repeat(35)));
}

#[test]
fn fits_row_tells_where_the_cut_would_split_a_character() {
    assert!(fits_row("short"));
    assert!(fits_row(&"a".repeat(100)));
    assert!(fits_row(&format!("{}\u{e9}", "a".repeat(35))));
    assert!(!fits_row(&format!("{}\u{e9}x", "a".repeat(36))));
    assert!(!fits_row(&format!("{}\u{e9}", "a".repeat(36))));
    assert!(fits_row(&format!("{}\u{e9}x", "a".repeat(35))));
}

#[test]
fn list_gives_header_rule_and_rows() {
    let prompts = vec![
        prompt("greet", "Says hello", &["a", "b"], "Hello {{name}}"),
        prompt("long", &"d".repeat(50), &[], ""),
    ];
    assert!(can_list(&prompts));
    let lines = list(&prompts);
    assert_eq!(lines.len(), 4);
    assert_eq!(lines[0], format!("{:<15} {:<40} {:<20}", "ALIAS", "DESCRIPTION", "TAGS"));
    assert_eq!(lines[1], "-".repeat(80));
    assert_eq!(lines[2], format!("{:<15} {:<40} {:<20}", "greet", "Says hello", "a, b"));
    assert_eq!(
        lines[3],
        format!("{:<15} {:<40} {:<20}", "long", format!("{}...", "d".repeat(37)), "")
    );
    assert_eq!(
        lines[2],
        "greet           Says hello                               a, b                "
    );
}

#[test]
fn list_of_an_empty_store_is_a_notice() {
    assert_eq!(list(&Vec::new()), vec!["No prompts found. Run `flow add` to create one."]);
    assert!(can_list(&Vec::new()));
    let split = vec![prompt("x", &format!("{}\u{e9}x", "a".repeat(36)), &[], "")];
    assert!(!can_list(&split));
}

#[test]
fn search_input_has_one_line_for_each_record() {
    let prompts = vec![prompt("a", "first", &[], ""), prompt("b", "second | more", &[], "")];
    assert_eq!(search_input(&prompts), "a | first\nb | second | more");
    assert_eq!(search_input(&Vec::new()), "");
    assert_eq!(search_input(&prompts[..1].to_vec()), "a | first");
}

#[test]
fn chosen_alias_is_what_stands_before_the_first_separator() {
    assert_eq!(chosen_alias("a | first"), Some("a".to_string()));
    assert_eq!(chosen_alias("b | second | more"), Some("b".to_string()));
    assert_eq!(chosen_alias("no separator"), Some("no separator".to_string()));
    assert_eq!(chosen_alias("a |b"), Some("a |b".to_string()));
    assert_eq!(chosen_alias("a | "), Some("a".to_string()));
    assert_eq!(chosen_alias(" | only description"), None);
    assert_eq!(chosen_alias(""), None);
    for line in ["x | y", " | ", "a|b | c", "  |  | ", "tail | "] {
        let expected = line.split(" | ").next().unwrap_or("").to_string();
        let expected = if expected.is_empty() { None } else { Some(expected) };
        assert_eq!(chosen_alias(line), expected);
    }
}

#[test]
fn find_prompt_gives_the_first_record_of_that_alias() {
    let prompts = vec![
        prompt("a", "1", &[], ""),
        prompt("b", "2", &[], ""),
        prompt("a", "3", &[], ""),
    ];
    assert_eq!(find_prompt(&prompts, "a"), Some(0));
    assert_eq!(find_prompt(&prompts, "b"), Some(1));
    assert_eq!(find_prompt(&prompts, "c"), None);
    assert_eq!(find_prompt(&prompts, "A"), None);
    assert_eq!(find_prompt(&Vec::new(), "a"), None);
}

#[test]
fn prompt_file_keeps_the_order_of_saving() {
    let mut file = PromptFile::new();
    assert!(file.prompts.is_empty());
    file.push(prompt("a", "1", &[], ""));
    file.push(prompt("b", "2", &[], ""));
    assert_eq!(file.prompts.len(), 2);
    assert_eq!(file.prompts[0].alias, "a");
    assert_eq!(file.prompts[1].alias, "b");
}

#[test]
fn use_prompt_renders_the_record_of_that_alias() {
    let prompts = vec![
        prompt("greet", "", &[], "Hello {{name}}"),
        prompt("pipe", "", &[], "{{input}} processed"),
    ];
    let out = use_prompt(&prompts, "greet", None, &vec!["World".to_string()]);
    assert_eq!(out.unwrap(), "Hello World");
    let out = use_prompt(&prompts, "pipe", Some("abc\n"), &Vec::new());
    assert_eq!(out.unwrap(), "abc processed");
}

#[test]
fn use_prompt_fails_on_an_unknown_alias_and_on_a_missing_answer() {
    let prompts = vec![prompt("greet", "", &[], "Hello {{name}}")];
    assert!(matches!(use_prompt(&prompts, "other", None, &Vec::new()), Err(UseError::NotFound)));
    match use_prompt(&prompts, "greet", None, &Vec::new()) {
        Err(UseError::Unresolved(e)) => assert_eq!(e.variable, "name"),
        other => panic!("unexpected {:?}", other),
    }
}

#[test]
fn parse_tags_splits_trims_and_drops_empty_tags() {
    assert_eq!(parse_tags("a, b ,c"), vec!["a", "b", "c"]);
    assert_eq!(parse_tags(""), Vec::<String>::new());
    assert_eq!(parse_tags(" , ,,"), Vec::<String>::new());
    assert_eq!(parse_tags("one tag"), vec!["one tag"]);
    assert_eq!(parse_tags(",x,"), vec!["x"]);
    assert_eq!(parse_tags("\u{a0}a\u{3000},\tb\n"), vec!["a", "b"]);
    for input in ["a,b", " a , , b ", ",", "x", "  ", "a,,b,", "a b , c"] {
        let expected: Vec<String> = input
            .split(',')
            .map(|s| s.trim().to_string())
            .filter(|s| !s.is_empty())
            .collect();
        assert_eq!(parse_tags(input), expected);
    }
}

fn cleaned_by_std(text: &str) -> String {
    text.lines()
        .filter(|l| !l.trim().starts_with('#'))
        .collect::<Vec<&str>>()
        .join("\n")
        .trim()
        .to_string()
}

#[test]
fn clean_template_drops_comments_and_surrounding_white_space() {
    let edited = "# Enter your prompt template here. Lines starting with # are ignored.\nHello {{name}}\n  # note\n\nbye\n\n";
    assert_eq!(clean_template(edited), "Hello {{name}}\n\nbye");
    assert_eq!(clean_template("# only a comment\n"), "");
    assert_eq!(clean_template(""), "");
    assert_eq!(clean_template("  a #b  \r\n c"), "a #b  \n c");
    for text in [
        "",
        "#",
        "a",
        "a\n#b\nc",
        "\n\n a \n\n",
        " \t# x\ny\r\n#z\r\n",
        "x\r",
        "a\n\u{a0}#b\n c ",
        "#a\n#b",
    ] {
        assert_eq!(clean_template(text), cleaned_by_std(text), "text {:?}", text);
    }
}

#[test]
fn compose_makes_the_record() {
    let made = compose(
        "id-1".to_string(),
        "greet".to_string(),
        "Says hello".to_string(),
        "a, b",
        Some("# hint\nHello {{name}}\n"),
    )
    .unwrap();
    assert_eq!(made.id, "id-1");
    assert_eq!(made.alias, "greet");
    assert_eq!(made.description, "Says hello");
    assert_eq!(made.tags, vec!["a", "b"]);
    assert_eq!(made.template, "Hello {{name}}");
}

#[test]
fn compose_fails_without_a_template() {
    let none = compose("i".to_string(), "a".to_string(), "d".to_string(), "", None);
    assert_eq!(none.unwrap_err(), DraftError::NoTemplate);
    let empty = compose("i".to_string(), "a".to_string(), "d".to_string(), "", Some("# x\n  \n"));
    assert_eq!(empty.unwrap_err(), DraftError::EmptyTemplate);
    assert_eq!(DraftError::NoTemplate.message(), "Aborted: No template provided.");
    assert_eq!(DraftError::EmptyTemplate.message(), "Aborted: Empty template.");
}

#[test]
fn draft_gives_each_record_a_fresh_identifier() {
    let first = draft("a".to_string(), "d".to_string(), "t", Some("body")).unwrap();
    let second = draft("a".to_string(), "d".to_string(), "t", Some("body")).unwrap();
    assert_ne!(first.id, second.id);
    for id in [&first.id, &second.id] {
        let chars: Vec<char> = id.chars().collect();
        assert_eq!(chars.len(), 36);
        for (i, c) in chars.iter().enumerate() {
            if i == 8 || i == 13 || i == 18 || i == 23 {
                assert_eq!(*c, '-');
            } else {
                assert!(c.is_ascii_digit() || ('a'..='f').contains(c));
            }
        }
        assert_eq!(chars[14], '4');
    }
    assert_eq!(first.alias, "a");
    assert_eq!(first.tags, vec!["t"]);
    assert_eq!(first.template, "body");
    assert_eq!(draft("a".to_string(), "d".to_string(), "", None).unwrap_err(), DraftError::NoTemplate);
}
