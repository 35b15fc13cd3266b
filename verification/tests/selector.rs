use flow::selector::{detail_of, run_app, App, DetailLine, Key, Outcome, Role};
use flow::storage::Prompt;

fn prompt(alias: &str) -> Prompt {
    Prompt {
        id: format!("id-{}", alias),
        alias: alias.to_string(),
        description: format!("about {}", alias),
        tags: vec!["t1".to_string(), "t2".to_string()],
        template: format!("first {{{{x}}}}\nsecond of {}\n", alias),
    }
}

fn three() -> Vec<Prompt> {
    vec![prompt("p1"), prompt("p2"), prompt("p3")]
}

#[test]
fn selector_starts_on_the_first_record() {
    let app = App::new(three());
    assert_eq!(app.selected(), Some(0));
    assert_eq!(app.len(), 3);
    let empty = App::new(Vec::new());
    assert_eq!(empty.selected(), None);
    assert_eq!(empty.len(), 0);
}

#[test]
fn up_from_the_first_wraps_and_enter_selects() {
    let mut app = App::new(three());
    assert_eq!(app.handle_key(Key::Up), Outcome::Active);
    assert_eq!(app.selected(), Some(2));
    assert_eq!(app.handle_key(Key::Enter), Outcome::Selected("p3".to_string()));
    assert_eq!(app.selected(), Some(2));
}

#[test]
fn selector_moves_down_and_wraps() {
    let mut app = App::new(three());
    app.next();
    assert_eq!(app.selected(), Some(1));
    app.next();
    assert_eq!(app.selected(), Some(2));
    app.next();
    assert_eq!(app.selected(), Some(0));
    app.previous();
    assert_eq!(app.selected(), Some(2));
    app.previous();
    assert_eq!(app.selected(), Some(1));
}

#[test]
fn as_many_steps_down_as_records_come_back() {
    for n in 1..6 {
        for start in 0..n {
            let prompts: Vec<Prompt> = (0..n).map(|i| prompt(&format!("p{}", i))).collect();
            let mut app = App::new(prompts);
            for _ in 0..start {
                app.next();
            }
            assert_eq!(app.selected(), Some(start));
            let keys = vec![Key::Down; n];
            assert_eq!(run_app(&mut app, &keys), Outcome::Active);
            assert_eq!(app.selected(), Some(start));
        }
    }
}

#[test]
fn empty_selector_ignores_moves_and_enter() {
    let mut app = App::new(Vec::new());
    assert_eq!(app.handle_key(Key::Down), Outcome::Active);
    assert_eq!(app.selected(), None);
    assert_eq!(app.handle_key(Key::Up), Outcome::Active);
    assert_eq!(app.selected(), None);
    assert_eq!(app.handle_key(Key::Enter), Outcome::Active);
    assert_eq!(app.selected(), None);
    app.next();
    app.previous();
    assert_eq!(app.selected(), None);
    assert_eq!(app.handle_key(Key::Esc), Outcome::Cancelled);
}

#[test]
fn selector_leaves_on_q_and_escape_only() {
    let mut app = App::new(three());
    assert_eq!(app.handle_key(Key::Char('x')), Outcome::Active);
    assert_eq!(app.handle_key(Key::Char('Q')), Outcome::Active);
    assert_eq!(app.handle_key(Key::Other), Outcome::Active);
    assert_eq!(app.selected(), Some(0));
    assert_eq!(app.handle_key(Key::Char('q')), Outcome::Cancelled);
    assert_eq!(app.handle_key(Key::Esc), Outcome::Cancelled);
    assert_eq!(app.selected(), Some(0));
}

#[test]
fn run_app_stops_at_the_first_key_that_leaves() {
    let mut app = App::new(three());
    let keys = vec![Key::Down, Key::Other, Key::Down, Key::Enter, Key::Up, Key::Esc];
    assert_eq!(run_app(&mut app, &keys), Outcome::Selected("p3".to_string()));
    assert_eq!(app.selected(), Some(2));
    let mut app = App::new(three());
    let keys = vec![Key::Down, Key::Char('q'), Key::Down, Key::Enter];
    assert_eq!(run_app(&mut app, &keys), Outcome::Cancelled);
    assert_eq!(app.selected(), Some(1));
    let mut app = App::new(three());
    assert_eq!(run_app(&mut app, &vec![Key::Up, Key::Up]), Outcome::Active);
    assert_eq!(app.selected(), Some(1));
    assert_eq!(run_app(&mut app, &Vec::new()), Outcome::Active);
}

#[test]
fn aliases_are_listed_in_order() {
    let app = App::new(three());
    assert_eq!(app.aliases(), vec!["p1", "p2", "p3"]);
    assert_eq!(App::new(Vec::new()).aliases(), Vec::<String>::new());
}

fn line(text: &str, role: Role) -> DetailLine {
    DetailLine { text: text.to_string(), role }
}

#[test]
fn detail_shows_the_highlighted_record_in_full() {
    let mut app = App::new(three());
    app.next();
    let expected = vec![
        line("Alias: p2", Role::Title),
        line("", Role::Body),
        line("Description:", Role::Heading),
        line("about p2", Role::Body),
        line("", Role::Body),
        line("Tags:", Role::Heading),
        line("t1, t2", Role::Body),
        line("", Role::Body),
        line("Template:", Role::Heading),
        line("first {{x}}", Role::Body),
        line("second of p2", Role::Body),
    ];
    assert_eq!(app.detail(), expected);
    assert_eq!(detail_of(&prompt("p2")), expected);
}

#[test]
fn detail_of_an_empty_list_is_a_notice() {
    let app = App::new(Vec::new());
    assert_eq!(app.detail(), vec![line("No Prompts Found", Role::Notice)]);
}

#[test]
fn detail_of_a_record_without_tags_and_template() {
    let bare = Prompt {
        id: String::new(),
        alias: String::new(),
        description: String::new(),
        tags: Vec::new(),
        template: String::new(),
    };
    let lines = detail_of(&bare);
    assert_eq!(lines.len(), 9);
    assert_eq!(lines[0], line("Alias: ", Role::Title));
    assert_eq!(lines[6], line("", Role::Body));
}
