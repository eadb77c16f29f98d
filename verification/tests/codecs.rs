use kanban::board::KanbanBoard;
use kanban::csv::{encode_csv, parse_csv};
use kanban::json::{encode_tasks, parse_tasks};
use kanban::task::Task;

fn task(id: u64, title: &str, status: &str) -> Task {
    Task {
        id,
        title: title.to_string(),
        description: None,
        tags: Vec::new(),
        created_at: 0,
        due_date: None,
        status: status.to_string(),
    }
}

#[test]
fn json_exact_text_of_one_task() {
    let t = Task {
        id: 4,
        title: "Fix".to_string(),
        description: Some("soon".to_string()),
        tags: vec!["a".to_string(), "b".to_string()],
        created_at: -5,
        due_date: Some(9),
        status: "TODO".to_string(),
    };
    let text = encode_tasks(&vec![t]);
    assert_eq!(
        text,
        "[{\"id\":4,\"title\":\"Fix\",\"description\":\"soon\",\"tags\":[\"a\",\"b\"],\
         \"created_at\":-5,\"due_date\":9,\"status\":\"TODO\"}]"
    );
}

#[test]
fn json_exact_text_of_empty_and_null_fields() {
    assert_eq!(encode_tasks(&Vec::new()), "[]");
    let t = task(1, "t", "TODO");
    let text = encode_tasks(&vec![t]);
    assert_eq!(
        text,
        "[{\"id\":1,\"title\":\"t\",\"description\":null,\"tags\":[],\
         \"created_at\":0,\"due_date\":null,\"status\":\"TODO\"}]"
    );
}

#[test]
fn json_round_trip_keeps_every_field() {
    let tasks = vec![
        Task {
            id: 1,
            title: "say \"hi\"".to_string(),
            description: Some("a\\b".to_string()),
            tags: vec!["x,y".to_string(), "".to_string()],
            created_at: -1234567890,
            due_date: None,
            status: "Do\"ing".to_string(),
        },
        Task {
            id: 18446744073709551615,
            title: "".to_string(),
            description: None,
            tags: Vec::new(),
            created_at: 9223372036854775807,
            due_date: Some(-9223372036854775808),
            status: "Done".to_string(),
        },
    ];
    let text = encode_tasks(&tasks);
    let back = parse_tasks(&text).expect("own output parses");
    assert_eq!(back.len(), 2);
    for (a, b) in tasks.iter().zip(back.iter()) {
        assert_eq!(a.id, b.id);
        assert_eq!(a.title, b.title);
        assert_eq!(a.description, b.description);
        assert_eq!(a.tags, b.tags);
        assert_eq!(a.created_at, b.created_at);
        assert_eq!(a.due_date, b.due_date);
        assert_eq!(a.status, b.status);
    }
}

#[test]
fn json_rejects_malformed_text() {
    assert!(parse_tasks("").is_none());
    assert!(parse_tasks("[").is_none());
    assert!(parse_tasks("{}").is_none());
    assert!(parse_tasks("[]x").is_none());
    assert!(parse_tasks("[{\"id\":1}]").is_none());
    assert!(parse_tasks("[{\"id\":18446744073709551616,\"title\":\"t\"").is_none());
}

#[test]
fn save_then_load_restores_the_board() {
    let names = vec!["Todo".to_string(), "Doing".to_string(), "Done".to_string()];
    let mut board = KanbanBoard::with_columns(&names).unwrap();
    board.add_task_with_timestamp(
        "alpha".to_string(),
        Some("first".to_string()),
        vec!["a".to_string()],
        Some(7),
        100,
    );
    board.add_task_with_timestamp("beta".to_string(), None, Vec::new(), None, 200);
    board.select_next_column();
    board.add_task_with_timestamp("gamma".to_string(), None, vec!["g".to_string()], None, 300);

    let saved = board.to_json();
    let tasks = parse_tasks(&saved).expect("saved boards parse");
    let reloaded = KanbanBoard::from_tasks(&names, &tasks).expect("saved boards reload");

    assert_eq!(reloaded.columns_count(), board.columns_count());
    for j in 0..board.columns_count() {
        assert_eq!(reloaded.column_name(j), board.column_name(j));
        assert_eq!(reloaded.column_len(j), board.column_len(j));
    }
    let before = board.all_tasks();
    let after = reloaded.all_tasks();
    assert_eq!(before.len(), after.len());
    for (a, b) in before.iter().zip(after.iter()) {
        assert_eq!(a.id, b.id);
        assert_eq!(a.title, b.title);
        assert_eq!(a.description, b.description);
        assert_eq!(a.tags, b.tags);
        assert_eq!(a.created_at, b.created_at);
        assert_eq!(a.due_date, b.due_date);
        assert_eq!(a.status, b.status);
    }
    // a fresh id is still fresh after the reload
    assert!(reloaded.next_id() > 3);
}

#[test]
fn from_tasks_rejects_unknown_status_and_duplicate_ids() {
    let names = vec!["Todo".to_string(), "Done".to_string()];
    let stray = vec![task(1, "a", "Archive")];
    assert!(KanbanBoard::from_tasks(&names, &stray).is_none());
    let dup = vec![task(1, "a", "Todo"), task(1, "b", "Done")];
    assert!(KanbanBoard::from_tasks(&names, &dup).is_none());
    let ok = vec![task(1, "a", "Todo"), task(2, "b", "Done")];
    let board = KanbanBoard::from_tasks(&names, &ok).expect("well-formed tasks load");
    assert_eq!(board.column_len(0), 1);
    assert_eq!(board.column_len(1), 1);
    assert_eq!(board.selected_column_index(), 0);
    assert_eq!(board.selected_task_index(), Some(0));
}

#[test]
fn csv_exact_text_of_one_task() {
    let t = Task {
        id: 2,
        title: "quote \" inside".to_string(),
        description: Some("quote \" inside".to_string()),
        tags: vec!["a".to_string(), "b".to_string()],
        created_at: 50,
        due_date: None,
        status: "Todo".to_string(),
    };
    let text = encode_csv(&vec![t]);
    assert_eq!(
        text,
        "id,status,tag,description,created_at,due_date\n\
         2,\"Todo\",\"a, b\",\"quote \"\" inside\",50,\n"
    );
}

#[test]
fn csv_round_trip_of_two_tasks() {
    // The documented export limits: the title column does not exist, so a
    // reimported task takes its title from the description; id, status
    // and description survive exactly.
    let a = Task {
        id: 10,
        title: "ignored on reimport".to_string(),
        description: Some("first one".to_string()),
        tags: vec!["red".to_string(), "blue".to_string()],
        created_at: 400,
        due_date: Some(500),
        status: "Todo".to_string(),
    };
    let b = Task {
        id: 11,
        title: "also ignored".to_string(),
        description: Some("second one".to_string()),
        tags: Vec::new(),
        created_at: 600,
        due_date: None,
        status: "Done".to_string(),
    };
    let text = encode_csv(&vec![a.clone(), b.clone()]);
    let back = parse_csv(&text).expect("own export imports");
    assert_eq!(back.len(), 2);
    assert_eq!(back[0].id, a.id);
    assert_eq!(back[0].status, a.status);
    assert_eq!(back[0].description.as_deref(), a.description.as_deref());
    assert_eq!(back[0].tags, a.tags);
    assert_eq!(back[0].created_at, a.created_at);
    assert_eq!(back[0].due_date, a.due_date);
    assert_eq!(back[1].id, b.id);
    assert_eq!(back[1].status, b.status);
    assert_eq!(back[1].description.as_deref(), b.description.as_deref());
    assert_eq!(back[1].created_at, b.created_at);
    assert_eq!(back[1].due_date, b.due_date);
    // the documented losses: an empty tag list comes back as one empty
    // tag, and the title column does not exist
    assert_eq!(back[1].tags, vec!["".to_string()]);
    assert_eq!(back[0].title, "first one");
}

#[test]
fn csv_rejects_malformed_text() {
    assert!(parse_csv("").is_none());
    assert!(parse_csv("id,status\n").is_none());
    assert!(parse_csv("id,status,tag,description,created_at,due_date\nnot a row\n").is_none());
}

#[test]
fn board_to_csv_covers_all_columns() {
    let names = vec!["Todo".to_string(), "Done".to_string()];
    let mut board = KanbanBoard::with_columns(&names).unwrap();
    board.add_task_with_timestamp("a".to_string(), None, Vec::new(), None, 1);
    board.select_next_column();
    board.add_task_with_timestamp("b".to_string(), None, Vec::new(), None, 2);
    let text = board.to_csv();
    assert_eq!(
        text,
        "id,status,tag,description,created_at,due_date\n\
         1,\"Todo\",\"\",\"\",1,\n\
         2,\"Done\",\"\",\"\",2,\n"
    );
}
