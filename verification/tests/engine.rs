use flow::binding::ValueBinding;
use flow::render::{is_total, render};
use flow::engine::process;
use flow::resolver::{piped_value, prompt_text, wants_piped_input, Resolver};
use flow::scan::{match_token, variables};
use flow::text::chars_of;

fn names(template: &str) -> Vec<String> {
    variables(template)
}

fn bind(pairs: &[(&str, &str)]) -> ValueBinding {
    let mut binding = ValueBinding::new();
    for (name, value) in pairs {
        binding.bind(name.to_string(), value.to_string());
    }
    binding
}

fn answers(values: &[&str]) -> Vec<String> {
    values.iter().map(|v| v.to_string()).collect()
}

#[test]
fn test_variable_replacement_logic() {
    let template = "Hello {{name}}";
    let found = match_token(&chars_of(template), 6);
    assert!(found.is_some());
    let names = variables(template);
    assert!(!names.is_empty());
    assert_eq!(&names[0], "name");
}

#[test]
fn test_variable_detection() {
    let template = "Hello {{name}}, welcome to {{place}}!";
    let variables = variables(template);
    assert!(variables.contains(&"name".to_string()));
    assert!(variables.contains(&"place".to_string()));
}

#[test]
fn scan_ignores_white_space_inside_a_placeholder() {
    assert_eq!(names("{{x}}"), vec!["x"]);
    assert_eq!(names("{{ x }}"), vec!["x"]);
    assert_eq!(names("{{  x  }}"), vec!["x"]);
    assert_eq!(names("{{\tx\n}}"), vec!["x"]);
    assert_eq!(names("a {{\u{a0}x\u{3000}}} b"), vec!["x"]);
    assert_eq!(names("pre {{  long_name_1  }} post"), names("pre {{long_name_1}} post"));
}

#[test]
fn scan_collapses_duplicates_and_sorts() {
    assert_eq!(names("{{b}} {{a}} {{c}} {{a}} {{ b }}"), vec!["a", "b", "c"]);
    assert_eq!(names("{{x}} {{X}} {{_}} {{9}} {{x1}}"), vec!["9", "X", "_", "x", "x1"]);
    assert_eq!(names("{{ab}} {{a}} {{abc}}"), vec!["a", "ab", "abc"]);
}

#[test]
fn scan_passes_over_what_is_no_placeholder() {
    assert_eq!(names(""), Vec::<String>::new());
    assert_eq!(names("no placeholders here"), Vec::<String>::new());
    assert_eq!(names("{{}}"), Vec::<String>::new());
    assert_eq!(names("{{ }}"), Vec::<String>::new());
    assert_eq!(names("{{a b}}"), Vec::<String>::new());
    assert_eq!(names("{{a-b}}"), Vec::<String>::new());
    assert_eq!(names("{{a}"), Vec::<String>::new());
    assert_eq!(names("{a}}"), Vec::<String>::new());
    assert_eq!(names("{ {a}}"), Vec::<String>::new());
    assert_eq!(names("{{\u{e9}}}"), Vec::<String>::new());
    assert_eq!(names("{{x\u{200b}}}"), Vec::<String>::new());
    assert_eq!(names("{{"), Vec::<String>::new());
    assert_eq!(names("{{x}"), Vec::<String>::new());
}

#[test]
fn scan_finds_the_leftmost_placeholder_and_goes_on_behind_it() {
    assert_eq!(names("{{{x}}"), vec!["x"]);
    assert_eq!(names("{{x}}}"), vec!["x"]);
    assert_eq!(names("{{ {{a}} }}"), vec!["a"]);
    assert_eq!(names("{{a}}{{b}}"), vec!["a", "b"]);
    assert_eq!(names("{{a {{b}}"), vec!["b"]);
    assert_eq!(names("{{a}}b}}"), vec!["a"]);
}

#[test]
fn match_token_gives_the_bounds_of_name_and_token() {
    let chars = chars_of("ab{{  name }}cd");
    assert_eq!(match_token(&chars, 2), Some((6, 10, 13)));
    assert_eq!(match_token(&chars, 0), None);
    assert_eq!(match_token(&chars, 3), None);
    assert_eq!(match_token(&chars, chars.len()), None);
}

#[test]
fn scan_agrees_with_the_regular_expression() {
    let re = regex::Regex::new(r"\{\{\s*([a-zA-Z0-9_]+)\s*\}\}").unwrap();
    let templates = [
        "",
        "Hello {{name}}",
        "{{ a }}{{b}} {{  c\t}}",
        "{{{x}}",
        "{{x}}}",
        "{{ {{a}} }}",
        "{{a b}} {{c}}",
        "{{}} {{ }} {{_}}",
        "{{a}",
        "{{a}}{{",
        "{{\u{a0}x\u{3000}}} {{\u{2003}y}} {{z\u{85}}}",
        "{{\u{e9}}} {{x\u{200b}}} {{\u{180e}w}} {{\u{1c}v}}",
        "{ {a}} {{b} } {{c}}",
        "text {{input}} more {{ input }} and {{other_1}}",
        "{{A}}{{a}}{{0}}",
        "}}{{x}}{{",
        "{{\n\nx\r\n}}",
    ];
    for template in templates {
        let mut expected: Vec<String> =
            re.captures_iter(template).map(|cap| cap[1].to_string()).collect();
        expected.sort();
        expected.dedup();
        assert_eq!(variables(template), expected, "template {:?}", template);
    }
}

#[test]
fn white_space_is_what_the_regular_expression_takes_for_it() {
    let re = regex::Regex::new(r"\{\{\s*([a-zA-Z0-9_]+)\s*\}\}").unwrap();
    let mut code: u32 = 0;
    while code < 0x3100 {
        if let Some(c) = char::from_u32(code) {
            let template = format!("{{{{{}x{}}}}}", c, c);
            let expected: Vec<String> =
                re.captures_iter(&template).map(|cap| cap[1].to_string()).collect();
            assert_eq!(variables(&template), expected, "character {:#x}", code);
        }
        code += 1;
    }
}

#[test]
fn render_greets_the_world() {
    let binding = bind(&[("name", "World")]);
    assert_eq!(render("Hello {{name}}", &binding), "Hello World");
}

#[test]
fn render_replaces_both_occurrences() {
    let binding = bind(&[("a", "X")]);
    assert_eq!(render("{{a}} and {{a}}", &binding), "X and X");
}

#[test]
fn render_replaces_every_form_of_a_placeholder() {
    let binding = bind(&[("a", "1"), ("b", "")]);
    assert_eq!(render("{{a}}|{{ a }}|{{\ta\n}}|{{b}}|{{ b}}.", &binding), "1|1|1||.");
    assert_eq!(render("", &binding), "");
    assert_eq!(render("plain", &binding), "plain");
}

#[test]
fn render_puts_values_in_as_they_are_and_does_not_read_them_again() {
    let binding = bind(&[("a", "{{b}}"), ("b", "$0 {{a}} \\1")]);
    assert_eq!(render("{{a}} {{b}}", &binding), "{{b}} $0 {{a}} \\1");
    let binding = bind(&[("b", "y"), ("a", "{{b}}")]);
    assert_eq!(render("{{a}}{{b}}", &binding), "{{b}}y");
}

#[test]
fn render_leaves_what_is_no_placeholder() {
    let binding = bind(&[("a", "v")]);
    assert_eq!(render("{{a b}} {{}} {{a} {a}} {{{a}}}", &binding), "{{a b}} {{}} {{a} {a}} {v}");
    assert_eq!(render("{{ {{a}} }}", &binding), "{{ v }}");
}

#[test]
fn render_agrees_with_the_regular_expression_on_one_variable() {
    let re = regex::Regex::new(r"\{\{\s*x\s*\}\}").unwrap();
    let binding = bind(&[("x", "<v>")]);
    let templates = ["{{x}}", "a{{ x }}b{{x}}", "{{{x}}}", "{{x}}{{ x}}{{x }}", "{{x} {{ x\n}}", ""];
    for template in templates {
        let expected = re.replace_all(template, regex::NoExpand("<v>")).to_string();
        assert_eq!(render(template, &binding), expected, "template {:?}", template);
    }
}

#[test]
fn render_is_the_same_on_every_call() {
    let binding = bind(&[("a", "1"), ("b", "2")]);
    let template = "{{b}}-{{a}}-{{ b }}";
    let first = render(template, &binding);
    assert_eq!(first, "2-1-2");
    assert_eq!(render(template, &binding), first);
    let other = bind(&[("b", "2"), ("a", "1")]);
    assert_eq!(render(template, &other), first);
}

#[test]
fn rendered_text_has_no_variables_left() {
    let binding = bind(&[("a", "one"), ("b", "two words")]);
    let out = render("x {{a}} y {{ b }} z {{a}}", &binding);
    assert_eq!(out, "x one y two words z one");
    assert_eq!(variables(&out), Vec::<String>::new());
}

#[test]
fn is_total_tells_whether_every_variable_is_bound() {
    let binding = bind(&[("a", "1")]);
    assert!(is_total(&binding, "{{a}} {{ a }}"));
    assert!(is_total(&binding, "nothing"));
    assert!(!is_total(&binding, "{{a}} {{b}}"));
    assert!(is_total(&ValueBinding::new(), "{{a b}}"));
}

#[test]
fn binding_keeps_the_last_value_of_a_name() {
    let mut binding = ValueBinding::new();
    assert!(!binding.contains("a"));
    assert_eq!(binding.get("a"), None);
    binding.bind("a".to_string(), "1".to_string());
    binding.bind("b".to_string(), "2".to_string());
    binding.bind("a".to_string(), "3".to_string());
    assert_eq!(binding.get("a"), Some(&"3".to_string()));
    assert_eq!(binding.get("b"), Some(&"2".to_string()));
    assert!(binding.contains("b"));
    assert!(!binding.contains("c"));
    assert!(binding.covers(&vec!["a".to_string(), "b".to_string()]));
    assert!(!binding.covers(&vec!["a".to_string(), "c".to_string()]));
    assert!(binding.covers(&Vec::new()));
}

#[test]
fn piped_value_strips_one_trailing_line_feed() {
    assert_eq!(piped_value("abc\n"), Some("abc".to_string()));
    assert_eq!(piped_value("abc"), Some("abc".to_string()));
    assert_eq!(piped_value("abc\n\n"), Some("abc\n".to_string()));
    assert_eq!(piped_value("a b \n"), Some("a b ".to_string()));
    assert_eq!(piped_value("\n"), None);
    assert_eq!(piped_value(""), None);
}

#[test]
fn wants_piped_input_looks_for_the_reserved_variable() {
    assert!(wants_piped_input("{{input}} processed"));
    assert!(wants_piped_input("{{a}} {{ input }}"));
    assert!(!wants_piped_input("{{Input}} {{inputs}} input"));
    assert!(!wants_piped_input(""));
}

#[test]
fn prompt_text_names_the_variable() {
    assert_eq!(prompt_text("name"), "Enter value for 'name'");
    assert_eq!(prompt_text(""), "Enter value for ''");
}

#[test]
fn process_takes_input_from_the_pipe_without_a_query() {
    let out = process("{{input}} processed", Some("abc\n"), &Vec::new());
    assert_eq!(out.unwrap(), "abc processed");
    let mut resolver = Resolver::new("{{input}} processed", Some("abc\n"));
    assert_eq!(resolver.pending(), None);
    resolver.answer("ignored".to_string());
    let binding = resolver.finish().unwrap();
    assert_eq!(binding.get("input"), Some(&"abc".to_string()));
}

#[test]
fn process_asks_in_ascending_order_and_takes_answers_as_they_are() {
    let out = process("{{b}}{{a}}{{c}}", None, &answers(&["1", "", " 3 "]));
    assert_eq!(out.unwrap(), "1 3 ");
    let out = process("{{b}}|{{a}}|{{c}}", None, &answers(&["A", "B", "C"]));
    assert_eq!(out.unwrap(), "B|A|C");
    let out = process("{{b}}|{{a}}", None, &answers(&["A", "B", "unused"]));
    assert_eq!(out.unwrap(), "B|A");
}

#[test]
fn process_prefers_piped_input_to_a_query() {
    let out = process("{{a}} {{input}} {{z}}", Some("piped"), &answers(&["A", "Z"]));
    assert_eq!(out.unwrap(), "A piped Z");
    let out = process("{{a}} {{input}} {{z}}", None, &answers(&["A", "I", "Z"]));
    assert_eq!(out.unwrap(), "A I Z");
    let out = process("{{a}} {{input}}", Some("\n"), &answers(&["A", "I"]));
    assert_eq!(out.unwrap(), "A I");
    let out = process("{{a}}", Some("piped"), &answers(&["A"]));
    assert_eq!(out.unwrap(), "A");
}

#[test]
fn process_fails_where_a_query_has_no_answer() {
    let err = process("{{b}} {{a}}", None, &answers(&["A"])).unwrap_err();
    assert_eq!(err.variable, "b");
    let err = process("{{x}}", None, &Vec::new()).unwrap_err();
    assert_eq!(err.variable, "x");
    let err = process("{{input}} {{x}}", Some("p"), &Vec::new()).unwrap_err();
    assert_eq!(err.variable, "x");
    assert_eq!(process("no variables", None, &Vec::new()).unwrap(), "no variables");
}

#[test]
fn resolver_hands_out_one_query_after_the_other() {
    let mut resolver = Resolver::new("{{c}} {{a}} {{ a }} {{b}}", None);
    assert!(resolver.pending() == Some("a".to_string()));
    assert!(resolver.pending() == Some("a".to_string()));
    resolver.answer("1".to_string());
    assert!(resolver.pending() == Some("b".to_string()));
    resolver.answer("".to_string());
    assert!(resolver.pending() == Some("c".to_string()));
    resolver.answer("3".to_string());
    assert!(resolver.pending().is_none());
    let binding = resolver.finish().unwrap();
    assert_eq!(render("{{c}} {{a}} {{ a }} {{b}}", &binding), "3 1 1 ");
}

#[test]
fn resolver_gives_no_binding_while_a_query_is_pending() {
    let mut resolver = Resolver::new("{{a}} {{b}}", None);
    resolver.answer("1".to_string());
    assert!(resolver.finish().is_none());
    let resolver = Resolver::new("plain", Some("x"));
    let binding = resolver.finish().unwrap();
    assert!(!binding.contains("input"));
}
