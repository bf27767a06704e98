use todo_list::{Stats, Todo, TodoApp};

fn todo(id: usize, text: &str, completed: bool) -> Todo {
    Todo { id, text: text.to_string(), completed }
}

fn list_of(todos: Vec<Todo>) -> TodoApp {
    let mut app = TodoApp::new();
    app.load_todos(Some(todos));
    app
}

#[test]
fn new_todo_is_open() {
    let t = Todo::new(7, "write".to_string());
    assert_eq!(t, todo(7, "write", false));
}

#[test]
fn new_list_is_empty() {
    let app = TodoApp::new();
    assert!(app.todos().is_empty());
    assert_eq!(app.next_id(), 0);
    assert_eq!(app.stats(), Stats { total: 0, completed: 0, pending: 0 });
}

#[test]
fn default_list_is_empty() {
    let app = TodoApp::default();
    assert!(app.todos().is_empty());
    assert_eq!(app.next_id(), 0);
}

#[test]
fn add_appends_with_the_counter_as_id() {
    let mut app = TodoApp::new();
    assert!(app.add_todo("buy milk"));
    assert_eq!(app.todos(), &vec![todo(0, "buy milk", false)]);
    assert_eq!(app.next_id(), 1);
}

#[test]
fn add_trims_the_text() {
    let mut app = TodoApp::new();
    assert!(app.add_todo("  walk dog \n"));
    assert!(app.add_todo("\t\u{3000}tea\u{a0}\u{2003}"));
    assert!(app.add_todo("a  b"));
    assert_eq!(
        app.todos(),
        &vec![todo(0, "walk dog", false), todo(1, "tea", false), todo(2, "a  b", false)]
    );
}

#[test]
fn add_ignores_blank_text() {
    let mut app = TodoApp::new();
    assert!(app.add_todo("first"));
    for blank in ["", "   ", "\t", "\n\r\n", " \u{a0}\u{2028}\u{205f} "] {
        assert!(!app.add_todo(blank));
        assert_eq!(app.todos(), &vec![todo(0, "first", false)]);
        assert_eq!(app.next_id(), 1);
    }
}

#[test]
fn add_keeps_what_is_no_white_space() {
    let mut app = TodoApp::new();
    assert!(app.add_todo("\u{200b}"));
    assert!(app.add_todo(" \u{1c}\u{feff} "));
    assert_eq!(
        app.todos(),
        &vec![todo(0, "\u{200b}", false), todo(1, "\u{1c}\u{feff}", false)]
    );
}

fn is_white_space(c: char) -> bool {
    matches!(
        c as u32,
        0x09..=0x0d
            | 0x20
            | 0x85
            | 0xa0
            | 0x1680
            | 0x2000..=0x200a
            | 0x2028
            | 0x2029
            | 0x202f
            | 0x205f
            | 0x3000
    )
}

#[test]
fn every_character_is_trimmed_or_kept() {
    for n in 0..=0x10ffff_u32 {
        let Some(c) = char::from_u32(n) else {
            assert!((0xd800..=0xdfff).contains(&n));
            continue;
        };
        assert_eq!(c.is_whitespace(), is_white_space(c), "U+{n:04X}");
        let mut app = TodoApp::new();
        let alone = c.to_string();
        assert_eq!(app.add_todo(&alone), !is_white_space(c), "U+{n:04X}");
        let around = format!("{c}x{c}");
        assert!(app.add_todo(&around));
        let expected = if is_white_space(c) { "x" } else { around.as_str() };
        assert_eq!(app.todos().last().map(|t| t.text.as_str()), Some(expected), "U+{n:04X}");
    }
}

#[test]
fn ids_count_up_over_a_run_of_adds() {
    let mut app = TodoApp::new();
    let texts = ["a", " ", "b", "", "c", "\t", "d"];
    let mut added = 0;
    for text in texts {
        if app.add_todo(text) {
            added += 1;
        }
    }
    assert_eq!(added, 4);
    assert_eq!(app.todos().len(), 4);
    assert_eq!(app.next_id(), 4);
    let ids: Vec<usize> = app.todos().iter().map(|t| t.id).collect();
    assert_eq!(ids, vec![0, 1, 2, 3]);
    let got: Vec<&str> = app.todos().iter().map(|t| t.text.as_str()).collect();
    assert_eq!(got, vec!["a", "b", "c", "d"]);
}

#[test]
fn ids_are_not_reused_after_delete() {
    let mut app = TodoApp::new();
    app.add_todo("a");
    app.add_todo("b");
    app.delete_todo(1);
    app.add_todo("c");
    assert_eq!(app.todos(), &vec![todo(0, "a", false), todo(2, "c", false)]);
    assert_eq!(app.next_id(), 3);
}

#[test]
fn toggle_flips_and_flips_back() {
    let mut app = list_of(vec![todo(0, "a", false), todo(1, "b", false)]);
    assert!(app.toggle_todo(1));
    assert_eq!(app.todos(), &vec![todo(0, "a", false), todo(1, "b", true)]);
    assert!(app.toggle_todo(1));
    assert_eq!(app.todos(), &vec![todo(0, "a", false), todo(1, "b", false)]);
    assert_eq!(app.next_id(), 2);
}

#[test]
fn toggle_of_unknown_id_changes_nothing() {
    let before = vec![todo(0, "a", false), todo(3, "b", true), todo(5, "c", false)];
    let mut app = list_of(before.clone());
    for id in [1, 2, 4, 6, usize::MAX] {
        assert!(!app.toggle_todo(id));
        assert_eq!(app.todos(), &before);
        assert_eq!(app.next_id(), 6);
    }
    let mut empty = TodoApp::new();
    assert!(!empty.toggle_todo(0));
    assert!(empty.todos().is_empty());
}

#[test]
fn toggle_takes_the_first_of_equal_ids() {
    let mut app = list_of(vec![todo(4, "a", false), todo(2, "b", false), todo(2, "c", false)]);
    assert!(app.toggle_todo(2));
    assert_eq!(
        app.todos(),
        &vec![todo(4, "a", false), todo(2, "b", true), todo(2, "c", false)]
    );
}

#[test]
fn delete_removes_the_id_and_keeps_the_order() {
    let mut app = list_of(vec![
        todo(0, "a", false),
        todo(1, "b", true),
        todo(2, "c", false),
        todo(3, "d", true),
    ]);
    assert!(app.delete_todo(1));
    assert_eq!(
        app.todos(),
        &vec![todo(0, "a", false), todo(2, "c", false), todo(3, "d", true)]
    );
    assert!(app.delete_todo(0));
    assert_eq!(app.todos(), &vec![todo(2, "c", false), todo(3, "d", true)]);
    assert!(app.delete_todo(3));
    assert_eq!(app.todos(), &vec![todo(2, "c", false)]);
    assert_eq!(app.next_id(), 4);
}

#[test]
fn delete_of_unknown_id_changes_nothing_but_asks_for_a_save() {
    let before = vec![todo(0, "a", false), todo(2, "c", true)];
    let mut app = list_of(before.clone());
    assert!(app.delete_todo(1));
    assert_eq!(app.todos(), &before);
    assert_eq!(app.next_id(), 3);
}

#[test]
fn delete_removes_every_entry_with_the_id() {
    let mut app = list_of(vec![
        todo(1, "a", false),
        todo(7, "b", false),
        todo(1, "c", true),
        todo(3, "d", false),
        todo(1, "e", false),
    ]);
    assert!(app.delete_todo(1));
    assert_eq!(app.todos(), &vec![todo(7, "b", false), todo(3, "d", false)]);
}

#[test]
fn clear_completed_removes_the_completed_and_keeps_the_order() {
    let mut app = list_of(vec![
        todo(0, "a", true),
        todo(1, "b", false),
        todo(2, "c", true),
        todo(3, "d", false),
        todo(4, "e", true),
    ]);
    assert!(app.clear_completed());
    let left = vec![todo(1, "b", false), todo(3, "d", false)];
    assert_eq!(app.todos(), &left);
    assert_eq!(app.next_id(), 5);
    assert!(app.clear_completed());
    assert_eq!(app.todos(), &left);
    assert_eq!(app.next_id(), 5);
}

#[test]
fn clear_completed_on_an_empty_list() {
    let mut app = TodoApp::new();
    assert!(app.clear_completed());
    assert!(app.todos().is_empty());
    assert_eq!(app.next_id(), 0);
}

#[test]
fn stats_count_the_list() {
    let app = list_of(vec![
        todo(0, "a", true),
        todo(1, "b", false),
        todo(2, "c", true),
        todo(3, "d", false),
        todo(4, "e", true),
    ]);
    assert_eq!(app.stats(), Stats { total: 5, completed: 3, pending: 2 });
}

#[test]
fn display_order_puts_open_tasks_first() {
    let stored = vec![
        todo(0, "a", true),
        todo(1, "b", false),
        todo(2, "c", true),
        todo(3, "d", false),
        todo(4, "e", true),
    ];
    let app = list_of(stored.clone());
    assert_eq!(
        app.display_order(),
        vec![
            todo(1, "b", false),
            todo(3, "d", false),
            todo(0, "a", true),
            todo(2, "c", true),
            todo(4, "e", true),
        ]
    );
    assert_eq!(app.todos(), &stored);
}

#[test]
fn display_order_is_the_stable_sort_by_flag() {
    let mut app = TodoApp::new();
    for n in 0..40 {
        app.add_todo(&format!("task {n}"));
    }
    for id in [3, 4, 9, 17, 18, 19, 39, 0] {
        app.toggle_todo(id);
    }
    let mut sorted = app.todos().to_vec();
    sorted.sort_by_key(|t| t.completed);
    assert_eq!(app.display_order(), sorted);
}

#[test]
fn load_takes_the_list_and_counts_on_from_its_greatest_id() {
    let stored = vec![todo(4, "a", false), todo(9, "b", true), todo(2, "c", false)];
    let mut app = list_of(stored.clone());
    assert_eq!(app.todos(), &stored);
    assert_eq!(app.next_id(), 10);
    assert!(app.add_todo("d"));
    assert_eq!(app.todos().last(), Some(&todo(10, "d", false)));
}

#[test]
fn load_of_an_empty_list_starts_at_zero() {
    let mut app = TodoApp::new();
    app.add_todo("a");
    app.load_todos(Some(Vec::new()));
    assert!(app.todos().is_empty());
    assert_eq!(app.next_id(), 0);
}

#[test]
fn load_of_nothing_gives_the_empty_list() {
    let mut app = TodoApp::new();
    app.add_todo("a");
    app.add_todo("b");
    app.load_todos(None);
    assert!(app.todos().is_empty());
    assert_eq!(app.next_id(), 0);
}

#[test]
fn load_refuses_an_id_with_no_room_above_it() {
    let mut app = TodoApp::new();
    app.add_todo("a");
    app.load_todos(Some(vec![todo(1, "a", false), todo(usize::MAX, "b", false)]));
    assert!(app.todos().is_empty());
    assert_eq!(app.next_id(), 0);
}

#[test]
fn load_takes_the_greatest_id_that_leaves_room() {
    let stored = vec![todo(usize::MAX - 1, "a", true)];
    let mut app = list_of(stored.clone());
    assert_eq!(app.todos(), &stored);
    assert_eq!(app.next_id(), usize::MAX);
    assert!(!app.add_todo("  "));
    assert_eq!(app.next_id(), usize::MAX);
}

#[test]
fn load_keeps_texts_as_they_are() {
    let stored = vec![todo(0, "  padded  ", false), todo(1, "", true)];
    let app = list_of(stored.clone());
    assert_eq!(app.todos(), &stored);
    assert_eq!(app.next_id(), 2);
}

#[test]
fn reload_gives_the_same_list() {
    let mut app = TodoApp::new();
    for text in ["a", "b", "c", "d"] {
        app.add_todo(text);
    }
    app.toggle_todo(2);
    app.delete_todo(3);
    let saved = app.todos().to_vec();
    let mut again = TodoApp::new();
    again.load_todos(Some(saved.clone()));
    assert_eq!(again.todos(), &saved);
    assert_eq!(again.next_id(), 3);
    assert_eq!(app.next_id(), 4);
}

#[test]
fn a_session_from_the_empty_list() {
    let mut app = TodoApp::new();

    assert!(app.add_todo("buy milk"));
    assert_eq!(app.todos(), &vec![todo(0, "buy milk", false)]);
    assert_eq!(app.stats(), Stats { total: 1, completed: 0, pending: 1 });

    assert!(!app.add_todo(""));
    assert_eq!(app.todos(), &vec![todo(0, "buy milk", false)]);
    assert_eq!(app.stats().total, 1);

    assert!(app.add_todo("walk dog"));
    assert_eq!(app.todos(), &vec![todo(0, "buy milk", false), todo(1, "walk dog", false)]);
    assert_eq!(app.stats().total, 2);

    assert!(app.toggle_todo(0));
    assert_eq!(app.todos(), &vec![todo(0, "buy milk", true), todo(1, "walk dog", false)]);
    assert_eq!(app.stats(), Stats { total: 2, completed: 1, pending: 1 });

    assert!(app.delete_todo(1));
    assert_eq!(app.todos(), &vec![todo(0, "buy milk", true)]);
    assert_eq!(app.stats().total, 1);

    assert!(app.clear_completed());
    assert!(app.todos().is_empty());
    assert_eq!(app.stats(), Stats { total: 0, completed: 0, pending: 0 });
    assert_eq!(app.next_id(), 2);
}

#[test]
fn a_restart_after_the_session() {
    let mut app = TodoApp::new();
    app.add_todo("buy milk");
    app.add_todo("");
    app.add_todo("walk dog");
    app.toggle_todo(0);
    app.delete_todo(1);
    let held = app.todos().to_vec();
    assert_eq!(held, vec![todo(0, "buy milk", true)]);

    let mut restarted = TodoApp::new();
    restarted.load_todos(Some(held));
    assert_eq!(restarted.next_id(), 1);

    app.clear_completed();
    let mut restarted = TodoApp::new();
    restarted.load_todos(Some(app.todos().to_vec()));
    assert!(restarted.todos().is_empty());
    assert_eq!(restarted.next_id(), 0);
}
