use kanban::board::{Column, Direction, KanbanBoard};
use kanban::task::Task;

fn three_column_board() -> KanbanBoard {
    let names = vec![
        "Todo".to_string(),
        "Doing".to_string(),
        "Done".to_string(),
    ];
    KanbanBoard::with_columns(&names).expect("three distinct names make a board")
}

#[test]
fn new_board_has_default_columns() {
    let board = KanbanBoard::new();
    assert_eq!(board.columns_count(), 3);
    assert_eq!(board.column_name(0), "TODO");
    assert_eq!(board.column_name(1), "DOING");
    assert_eq!(board.column_name(2), "DONE");
    assert_eq!(board.selected_column_index(), 0);
    assert_eq!(board.selected_task_index(), None);
    assert_eq!(board.next_id(), 1);
}

#[test]
fn with_columns_rejects_empty_and_duplicates() {
    assert!(KanbanBoard::with_columns(&Vec::new()).is_none());
    let dup = vec!["A".to_string(), "B".to_string(), "A".to_string()];
    assert!(KanbanBoard::with_columns(&dup).is_none());
}

#[test]
fn add_task_counts_and_statuses() {
    // One task per call, each stamped with the column selected at its
    // creation.
    let mut board = three_column_board();
    board.add_task_with_timestamp("a".to_string(), None, Vec::new(), None, 10);
    board.add_task_with_timestamp("b".to_string(), None, Vec::new(), None, 11);
    board.select_next_column();
    board.add_task_with_timestamp("c".to_string(), None, Vec::new(), None, 12);
    let all = board.all_tasks();
    assert_eq!(all.len(), 3);
    assert_eq!(board.column_len(0), 2);
    assert_eq!(board.column_len(1), 1);
    assert_eq!(board.column_len(2), 0);
    let todo = board.get_tasks_by_status("Todo");
    assert_eq!(todo.len(), 2);
    assert_eq!(todo[0].title, "a");
    assert_eq!(todo[0].status, "Todo");
    assert_eq!(todo[1].title, "b");
    let doing = board.get_tasks_by_status("Doing");
    assert_eq!(doing.len(), 1);
    assert_eq!(doing[0].title, "c");
    assert_eq!(doing[0].status, "Doing");
    // ids are fresh and never reused
    assert_eq!(todo[0].id, 1);
    assert_eq!(todo[1].id, 2);
    assert_eq!(doing[0].id, 3);
    assert_eq!(board.next_id(), 4);
}

#[test]
fn add_task_stamps_current_time() {
    let mut board = three_column_board();
    board.add_task(
        "clocked".to_string(),
        Some("with the real clock".to_string()),
        vec!["t".to_string()],
        Some(123),
    );
    let todo = board.get_tasks_by_status("Todo");
    assert_eq!(todo.len(), 1);
    assert_eq!(todo[0].title, "clocked");
    assert_eq!(todo[0].due_date, Some(123));
    // the clock gave whole epoch seconds for a date well past 2001
    assert!(todo[0].created_at > 1_000_000_000);
}

#[test]
fn scenario_write_spec_moves_through_board() {
    // Columns Todo/Doing/Done, one task added to Todo, then moved
    // forward three times: the third move is a no-op at the last column.
    let mut board = three_column_board();
    board.add_task_with_timestamp(
        "Write spec".to_string(),
        None,
        vec!["doc".to_string()],
        None,
        100,
    );
    let todo = board.get_tasks_by_status("Todo");
    assert_eq!(todo.len(), 1);
    assert_eq!(todo[0].title, "Write spec");
    assert_eq!(todo[0].status, "Todo");

    board.move_task(Direction::Forward);
    assert_eq!(board.get_tasks_by_status("Todo").len(), 0);
    let doing = board.get_tasks_by_status("Doing");
    assert_eq!(doing.len(), 1);
    assert_eq!(doing[0].status, "Doing");
    assert_eq!(board.selected_column_index(), 1);

    board.move_task(Direction::Forward);
    let done = board.get_tasks_by_status("Done");
    assert_eq!(done.len(), 1);
    assert_eq!(done[0].status, "Done");
    assert_eq!(board.selected_column_index(), 2);

    // already in the last column: a complete no-op
    board.move_task(Direction::Forward);
    assert_eq!(board.get_tasks_by_status("Done").len(), 1);
    assert_eq!(board.get_tasks_by_status("Done")[0].title, "Write spec");
    assert_eq!(board.selected_column_index(), 2);
    assert_eq!(board.selected_task_index(), Some(0));
}

#[test]
fn move_round_trip_returns_task_to_column() {
    let mut board = three_column_board();
    board.add_task_with_timestamp("first".to_string(), None, Vec::new(), None, 1);
    board.add_task_with_timestamp("second".to_string(), None, Vec::new(), None, 2);
    // select the first task and push it forward, then back
    board.move_task(Direction::Forward);
    assert_eq!(board.get_tasks_by_status("Doing")[0].title, "first");
    board.move_task(Direction::Backward);
    let todo = board.get_tasks_by_status("Todo");
    assert_eq!(todo.len(), 2);
    // back in its column, now at the end of the list
    assert_eq!(todo[0].title, "second");
    assert_eq!(todo[1].title, "first");
    assert_eq!(todo[1].status, "Todo");
}

#[test]
fn move_backward_at_first_column_is_noop() {
    let mut board = three_column_board();
    board.add_task_with_timestamp("pinned".to_string(), None, Vec::new(), None, 5);
    board.move_task(Direction::Backward);
    assert_eq!(board.get_tasks_by_status("Todo").len(), 1);
    assert_eq!(board.selected_column_index(), 0);
    assert_eq!(board.selected_task_index(), Some(0));
}

#[test]
fn move_with_no_selection_is_noop() {
    let mut board = three_column_board();
    board.move_task(Direction::Forward);
    assert_eq!(board.selected_column_index(), 0);
    assert_eq!(board.selected_task_index(), None);
    assert_eq!(board.all_tasks().len(), 0);
}

#[test]
fn column_selection_stays_in_bounds() {
    let mut board = three_column_board();
    for _ in 0..10 {
        board.select_next_column();
        assert!(board.selected_column_index() < board.columns_count());
    }
    assert_eq!(board.selected_column_index(), 2);
    for _ in 0..10 {
        board.select_previous_column();
        assert!(board.selected_column_index() < board.columns_count());
    }
    assert_eq!(board.selected_column_index(), 0);
}

#[test]
fn task_selection_walks_without_wrapping() {
    let mut board = three_column_board();
    board.add_task_with_timestamp("a".to_string(), None, Vec::new(), None, 1);
    board.add_task_with_timestamp("b".to_string(), None, Vec::new(), None, 2);
    board.add_task_with_timestamp("c".to_string(), None, Vec::new(), None, 3);
    assert_eq!(board.selected_task_index(), Some(0));
    board.select_next_task();
    assert_eq!(board.selected_task_index(), Some(1));
    board.select_next_task();
    assert_eq!(board.selected_task_index(), Some(2));
    board.select_next_task();
    assert_eq!(board.selected_task_index(), Some(2));
    board.select_previous_task();
    board.select_previous_task();
    board.select_previous_task();
    assert_eq!(board.selected_task_index(), Some(0));
}

#[test]
fn entering_a_column_selects_its_first_task_or_none() {
    let mut board = three_column_board();
    board.add_task_with_timestamp("a".to_string(), None, Vec::new(), None, 1);
    board.select_next_column();
    assert_eq!(board.selected_task_index(), None);
    board.select_previous_column();
    assert_eq!(board.selected_task_index(), Some(0));
}

#[test]
fn remove_by_id_takes_first_match_only() {
    let mut col = Column {
        name: "Todo".to_string(),
        tasks: vec![
            Task {
                id: 7,
                title: "x".to_string(),
                description: None,
                tags: Vec::new(),
                created_at: 0,
                due_date: None,
                status: "Todo".to_string(),
            },
            Task {
                id: 9,
                title: "y".to_string(),
                description: None,
                tags: Vec::new(),
                created_at: 0,
                due_date: None,
                status: "Todo".to_string(),
            },
        ],
    };
    let gone = col.remove_by_id(9).expect("id 9 is present");
    assert_eq!(gone.title, "y");
    assert_eq!(col.tasks.len(), 1);
    assert!(col.remove_by_id(9).is_none());
    assert_eq!(col.tasks.len(), 1);
}

#[test]
fn column_append_and_snapshot() {
    let mut col = Column { name: "Todo".to_string(), tasks: Vec::new() };
    col.append(Task {
        id: 1,
        title: "only".to_string(),
        description: None,
        tags: Vec::new(),
        created_at: 0,
        due_date: None,
        status: "Todo".to_string(),
    });
    let snap = col.tasks_snapshot();
    assert_eq!(snap.len(), 1);
    assert_eq!(snap[0].title, "only");
    // the snapshot is a copy: the column still owns its task
    assert_eq!(col.tasks.len(), 1);
}

#[test]
fn get_tasks_by_status_of_unknown_column_is_empty() {
    let mut board = three_column_board();
    board.add_task_with_timestamp("a".to_string(), None, Vec::new(), None, 1);
    assert!(board.get_tasks_by_status("Archive").is_empty());
}

#[test]
fn status_counts_follow_columns() {
    let mut board = three_column_board();
    board.add_task_with_timestamp("a".to_string(), None, Vec::new(), None, 1);
    board.add_task_with_timestamp("b".to_string(), None, Vec::new(), None, 2);
    board.select_next_column();
    board.add_task_with_timestamp("c".to_string(), None, Vec::new(), None, 3);
    assert_eq!(board.status_counts(), vec![2, 1, 0]);
}

#[test]
fn list_lines_show_columns_and_tasks() {
    let mut board = three_column_board();
    board.add_task_with_timestamp(
        "write".to_string(),
        None,
        vec!["doc".to_string(), "soon".to_string()],
        None,
        1,
    );
    board.select_next_column();
    board.add_task_with_timestamp("review".to_string(), None, Vec::new(), None, 2);
    assert_eq!(
        board.list_lines(),
        vec![
            "Todo:".to_string(),
            "- [1] write (doc, soon)".to_string(),
            "Doing:".to_string(),
            "- [2] review ()".to_string(),
            "Done:".to_string(),
        ]
    );
}

#[test]
fn all_tags_lists_every_use_in_order() {
    let mut board = three_column_board();
    board.add_task_with_timestamp(
        "a".to_string(),
        None,
        vec!["urgent".to_string(), "doc".to_string()],
        None,
        1,
    );
    board.select_next_column();
    board.add_task_with_timestamp("b".to_string(), None, vec!["urgent".to_string()], None, 2);
    assert_eq!(
        board.all_tags(),
        vec!["urgent".to_string(), "doc".to_string(), "urgent".to_string()]
    );
}
