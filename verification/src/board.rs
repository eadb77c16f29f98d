//! The board: an ordered sequence of named columns, each physically owning
//! its tasks, plus the navigation cursor. Column membership is canonical;
//! every task's `status` field mirrors the name of the column that holds it,
//! and the board's mutators are the only code that writes either side.

use vstd::prelude::*;

use crate::task::{Task, TaskView};

verus! {

/// Mathematical model of a [`Column`].
#[verifier::ext_equal]
pub ghost struct ColumnView {
    pub name: Seq<char>,
    pub tasks: Seq<TaskView>,
}

/// A named bucket of tasks; insertion order is display order.
pub struct Column {
    pub name: String,
    pub tasks: Vec<Task>,
}

impl View for Column {
    type V = ColumnView;

    open spec fn view(&self) -> ColumnView {
        ColumnView { name: self.name@, tasks: self.tasks.deep_view() }
    }
}

/// Every task of the given columns, in column order and in-column order.
pub open spec fn all_tasks_of(cols: Seq<ColumnView>) -> Seq<TaskView>
    decreases cols.len(),
{
    if cols.len() == 0 {
        Seq::empty()
    } else {
        all_tasks_of(cols.drop_last()) + cols.last().tasks
    }
}

/// The index of the first column in `cols` named `name`, or `None` if no
/// column carries that name.
pub open spec fn find_column(cols: Seq<ColumnView>, name: Seq<char>) -> Option<int>
    decreases cols.len(),
{
    if cols.len() == 0 {
        None
    } else if cols[0].name == name {
        Some(0)
    } else {
        match find_column(cols.drop_first(), name) {
            Some(j) => Some(j + 1),
            None => None,
        }
    }
}

/// `find_column` returns exactly the position of the first occurrence.
pub proof fn lemma_find_column_at(cols: Seq<ColumnView>, name: Seq<char>, j: int)
    requires
        0 <= j < cols.len(),
        cols[j].name == name,
        forall|jj: int| 0 <= jj < j ==> (#[trigger] cols[jj]).name != name,
    ensures
        find_column(cols, name) == Some(j),
    decreases j,
{
    if j > 0 {
        lemma_find_column_at(cols.drop_first(), name, j - 1);
    }
}

/// `find_column` returns `None` exactly when no column carries the name.
pub proof fn lemma_find_column_none(cols: Seq<ColumnView>, name: Seq<char>)
    requires
        forall|jj: int| 0 <= jj < cols.len() ==> (#[trigger] cols[jj]).name != name,
    ensures
        find_column(cols, name) is None,
    decreases cols.len(),
{
    if cols.len() > 0 {
        lemma_find_column_none(cols.drop_first(), name);
    }
}

/// The names of the given columns, in order.
pub open spec fn names_of(cols: Seq<ColumnView>) -> Seq<Seq<char>> {
    Seq::new(cols.len(), |j: int| cols[j].name)
}

/// No two of the given names are equal.
pub open spec fn distinct_names(names: Seq<Seq<char>>) -> bool {
    forall|j1: int, j2: int| 0 <= j1 < j2 < names.len() ==> names[j1] != names[j2]
}

/// One empty column per name, in order.
pub open spec fn empty_columns(names: Seq<Seq<char>>) -> Seq<ColumnView> {
    Seq::new(names.len(), |j: int| ColumnView { name: names[j], tasks: Seq::empty() })
}

/// Files each task, left to right, into the first column named by its
/// status, appending in order; `None` as soon as a task's status names no
/// column.
pub open spec fn distribute(cols: Seq<ColumnView>, tasks: Seq<TaskView>) -> Option<
    Seq<ColumnView>,
>
    decreases tasks.len(),
{
    if tasks.len() == 0 {
        Some(cols)
    } else {
        match find_column(cols, tasks[0].status) {
            None => None,
            Some(j) => distribute(
                cols.update(
                    j,
                    ColumnView { name: cols[j].name, tasks: cols[j].tasks.push(tasks[0]) },
                ),
                tasks.drop_first(),
            ),
        }
    }
}

/// Distributing a concatenation is distributing the first part, then the
/// second over its result.
pub proof fn lemma_distribute_concat(cols: Seq<ColumnView>, ts1: Seq<TaskView>, ts2: Seq<TaskView>)
    ensures
        distribute(cols, ts1 + ts2) == match distribute(cols, ts1) {
            Some(c) => distribute(c, ts2),
            None => None,
        },
    decreases ts1.len(),
{
    if ts1.len() == 0 {
        assert(ts1 + ts2 =~= ts2);
    } else {
        let t = ts1[0];
        assert((ts1 + ts2)[0] == t);
        assert((ts1 + ts2).drop_first() =~= ts1.drop_first() + ts2);
        match find_column(cols, t.status) {
            None => {},
            Some(j) => {
                lemma_distribute_concat(
                    cols.update(
                        j,
                        ColumnView { name: cols[j].name, tasks: cols[j].tasks.push(t) },
                    ),
                    ts1.drop_first(),
                    ts2,
                );
            },
        }
    }
}

/// A run of tasks that all carry the name of column `j` — the first column
/// of that name — lands wholly in column `j`, in order.
pub proof fn lemma_distribute_segment(cols: Seq<ColumnView>, j: int, seg: Seq<TaskView>)
    requires
        0 <= j < cols.len(),
        forall|i: int| 0 <= i < seg.len() ==> (#[trigger] seg[i]).status == cols[j].name,
        forall|jj: int| 0 <= jj < j ==> (#[trigger] cols[jj]).name != cols[j].name,
    ensures
        distribute(cols, seg) == Some(
            cols.update(j, ColumnView { name: cols[j].name, tasks: cols[j].tasks + seg }),
        ),
    decreases seg.len(),
{
    if seg.len() == 0 {
        assert(cols[j].tasks + seg =~= cols[j].tasks);
        assert(cols.update(j, ColumnView { name: cols[j].name, tasks: cols[j].tasks + seg })
            =~~= cols);
    } else {
        lemma_find_column_at(cols, seg[0].status, j);
        let cols2 = cols.update(
            j,
            ColumnView { name: cols[j].name, tasks: cols[j].tasks.push(seg[0]) },
        );
        lemma_distribute_segment(cols2, j, seg.drop_first());
        assert(cols2[j].tasks + seg.drop_first() =~= cols[j].tasks + seg);
        assert(cols2.update(
            j,
            ColumnView { name: cols2[j].name, tasks: cols2[j].tasks + seg.drop_first() },
        ) =~~= cols.update(j, ColumnView { name: cols[j].name, tasks: cols[j].tasks + seg }));
    }
}

/// The columns as they stand once the first `k` of them have been refilled
/// and the rest still await their tasks.
pub open spec fn refilled_to(cols: Seq<ColumnView>, k: int) -> Seq<ColumnView> {
    Seq::new(
        cols.len(),
        |j: int|
            if j < k {
                cols[j]
            } else {
                ColumnView { name: cols[j].name, tasks: Seq::empty() }
            },
    )
}

/// Distributing the tasks of the first `k` columns over freshly emptied
/// columns refills exactly those `k` columns.
pub proof fn lemma_distribute_rebuild(cols: Seq<ColumnView>, k: int)
    requires
        0 <= k <= cols.len(),
        distinct_names(names_of(cols)),
        forall|j: int, i: int|
            0 <= j < cols.len() && 0 <= i < cols[j].tasks.len()
                ==> (#[trigger] cols[j].tasks[i]).status == cols[j].name,
    ensures
        distribute(refilled_to(cols, 0), all_tasks_of(cols.take(k))) == Some(refilled_to(cols, k)),
    decreases k,
{
    if k == 0 {
        assert(all_tasks_of(cols.take(0)).len() == 0);
    } else {
        lemma_distribute_rebuild(cols, k - 1);
        assert(cols.take(k).drop_last() =~= cols.take(k - 1));
        assert(all_tasks_of(cols.take(k)) == all_tasks_of(cols.take(k - 1))
            + cols[k - 1].tasks);
        lemma_distribute_concat(
            refilled_to(cols, 0),
            all_tasks_of(cols.take(k - 1)),
            cols[k - 1].tasks,
        );
        let mid = refilled_to(cols, k - 1);
        assert forall|i: int| 0 <= i < cols[k - 1].tasks.len() implies (#[trigger] cols[k
            - 1].tasks[i]).status == mid[k - 1].name by {}
        assert forall|jj: int| 0 <= jj < k - 1 implies (#[trigger] mid[jj]).name != mid[k
            - 1].name by {
            assert(names_of(cols)[jj] != names_of(cols)[k - 1]);
        }
        lemma_distribute_segment(mid, k - 1, cols[k - 1].tasks);
        assert(mid[k - 1].tasks + cols[k - 1].tasks =~= cols[k - 1].tasks);
        assert(mid.update(
            k - 1,
            ColumnView { name: mid[k - 1].name, tasks: mid[k - 1].tasks + cols[k - 1].tasks },
        ) =~~= refilled_to(cols, k));
    }
}

/// Writing out a well-formed board's tasks and filing them back into
/// empty columns of the same names restores every column exactly: the
/// persistence round-trip loses nothing.
pub proof fn lemma_rebuild_round_trip(b: BoardView)
    requires
        b.inv(),
    ensures
        distribute(empty_columns(names_of(b.columns)), b.all_tasks()) == Some(b.columns),
{
    assert forall|j1: int, j2: int|
        0 <= j1 < j2 < names_of(b.columns).len() implies names_of(b.columns)[j1] != names_of(
        b.columns,
    )[j2] by {
        assert(b.columns[j1].name != b.columns[j2].name);
    }
    lemma_distribute_rebuild(b.columns, b.columns.len() as int);
    assert(b.columns.take(b.columns.len() as int) =~= b.columns);
    assert(refilled_to(b.columns, 0) =~~= empty_columns(names_of(b.columns)));
    assert(refilled_to(b.columns, b.columns.len() as int) =~~= b.columns);
}

/// Ids a board can take: pairwise distinct, with room left above each for
/// the fresh-id counter.
pub open spec fn ids_ok(tasks: Seq<TaskView>) -> bool {
    &&& forall|p: int, q: int|
        0 <= p < q < tasks.len() ==> (#[trigger] tasks[p]).id != (#[trigger] tasks[q]).id
    &&& forall|p: int| 0 <= p < tasks.len() ==> (#[trigger] tasks[p]).id < u64::MAX
}

/// The index of the first task in `tasks` whose id is `id`, or `None` if no
/// task carries it.
pub open spec fn find_id(tasks: Seq<TaskView>, id: u64) -> Option<int>
    decreases tasks.len(),
{
    if tasks.len() == 0 {
        None
    } else if tasks[0].id == id {
        Some(0)
    } else {
        match find_id(tasks.drop_first(), id) {
            Some(i) => Some(i + 1),
            None => None,
        }
    }
}

/// `find_id` returns exactly the position of the first occurrence.
pub proof fn lemma_find_id_at(tasks: Seq<TaskView>, id: u64, i: int)
    requires
        0 <= i < tasks.len(),
        tasks[i].id == id,
        forall|j: int| 0 <= j < i ==> (#[trigger] tasks[j]).id != id,
    ensures
        find_id(tasks, id) == Some(i),
    decreases i,
{
    if i > 0 {
        lemma_find_id_at(tasks.drop_first(), id, i - 1);
    }
}

/// `find_id` returns `None` exactly when no task carries the id.
pub proof fn lemma_find_id_none(tasks: Seq<TaskView>, id: u64)
    requires
        forall|j: int| 0 <= j < tasks.len() ==> (#[trigger] tasks[j]).id != id,
    ensures
        find_id(tasks, id) is None,
    decreases tasks.len(),
{
    if tasks.len() > 0 {
        lemma_find_id_none(tasks.drop_first(), id);
    }
}

impl Column {
    /// Adds a task at the end of the ordered list; nothing else changes.
    pub fn append(&mut self, task: Task)
        ensures
            final(self)@.name == old(self)@.name,
            final(self)@.tasks == old(self)@.tasks.push(task@),
    {
        let ghost tv = task@;
        let ghost prev = self.tasks;
        self.tasks.push(task);
        proof {
            crate::text::lemma_deep_view_push(self.tasks, prev, tv);
        }
    }

    /// A read-only copy of the ordered task list, for rendering and
    /// filtering.
    pub fn tasks_snapshot(&self) -> (r: Vec<Task>)
        ensures
            r.deep_view() == self@.tasks,
    {
        crate::task::clone_tasks(&self.tasks)
    }

    /// Removes and returns the first task carrying `id`; `None`, and no
    /// change, when no task carries it.
    pub fn remove_by_id(&mut self, id: u64) -> (r: Option<Task>)
        ensures
            match find_id(old(self)@.tasks, id) {
                Some(i) => r matches Some(t) && t@ == old(self)@.tasks[i]
                    && final(self)@.name == old(self)@.name
                    && final(self)@.tasks == old(self)@.tasks.remove(i),
                None => r is None && final(self)@ == old(self)@,
            },
    {
        let n = self.tasks.len();
        let mut i: usize = 0;
        while i < n
            invariant
                n == self.tasks.len(),
                i <= n,
                *self == *old(self),
                forall|j: int| 0 <= j < i ==> (#[trigger] self@.tasks[j]).id != id,
            decreases n - i,
        {
            if self.tasks[i].id == id {
                proof {
                    lemma_find_id_at(self@.tasks, id, i as int);
                }
                let t = self.tasks.remove(i);
                proof {
                    assert(self@.tasks =~= old(self)@.tasks.remove(i as int));
                }
                return Some(t);
            }
            i = i + 1;
        }
        proof {
            lemma_find_id_none(self@.tasks, id);
        }
        None
    }
}

/// Direction of a task transition: one column to the right or to the left.
#[derive(Clone, Copy, PartialEq, Eq, Structural)]
pub enum Direction {
    Forward,
    Backward,
}

/// Mathematical model of a [`KanbanBoard`].
#[verifier::ext_equal]
pub ghost struct BoardView {
    pub columns: Seq<ColumnView>,
    pub selected_column: int,
    pub selected_task: Option<int>,
    pub next_id: u64,
}

impl BoardView {
    /// The tasks of the currently selected column.
    pub open spec fn selected_tasks(self) -> Seq<TaskView> {
        self.columns[self.selected_column].tasks
    }

    /// Every task of the board, in column order and in-column order.
    pub open spec fn all_tasks(self) -> Seq<TaskView> {
        all_tasks_of(self.columns)
    }

    /// Well-formedness: at least one column, distinct column names, the
    /// cursor in bounds, every task's `status` equal to the name of the
    /// column holding it, and task ids unique and below `next_id`.
    pub open spec fn inv(self) -> bool {
        &&& self.columns.len() > 0
        &&& forall|j1: int, j2: int|
            0 <= j1 < j2 < self.columns.len()
                ==> #[trigger] self.columns[j1].name != #[trigger] self.columns[j2].name
        &&& 0 <= self.selected_column < self.columns.len()
        &&& forall|j: int, i: int|
            0 <= j < self.columns.len() && 0 <= i < self.columns[j].tasks.len()
                ==> (#[trigger] self.columns[j].tasks[i]).status == self.columns[j].name
        &&& forall|j: int, i: int|
            0 <= j < self.columns.len() && 0 <= i < self.columns[j].tasks.len()
                ==> (#[trigger] self.columns[j].tasks[i]).id < self.next_id
        &&& forall|j1: int, i1: int, j2: int, i2: int|
            0 <= j1 < self.columns.len() && 0 <= i1 < self.columns[j1].tasks.len()
                && 0 <= j2 < self.columns.len() && 0 <= i2 < self.columns[j2].tasks.len()
                && (j1 != j2 || i1 != i2)
                ==> (#[trigger] self.columns[j1].tasks[i1]).id
                    != (#[trigger] self.columns[j2].tasks[i2]).id
        &&& match self.selected_task {
            None => self.selected_tasks().len() == 0,
            Some(k) => 0 <= k < self.selected_tasks().len(),
        }
    }

    /// The board after the cursor has moved to column `c2`: entering a
    /// different column selects its first task, or no task if it is empty.
    pub open spec fn with_selected_column(self, c2: int) -> BoardView {
        if c2 == self.selected_column {
            self
        } else {
            BoardView {
                selected_column: c2,
                selected_task: if self.columns[c2].tasks.len() > 0 {
                    Some(0)
                } else {
                    None
                },
                ..self
            }
        }
    }

    /// The board after `select_next_column`.
    pub open spec fn select_next_column_spec(self) -> BoardView {
        self.with_selected_column(
            if self.selected_column + 1 < self.columns.len() {
                self.selected_column + 1
            } else {
                self.selected_column
            },
        )
    }

    /// The board after `select_previous_column`.
    pub open spec fn select_previous_column_spec(self) -> BoardView {
        self.with_selected_column(
            if self.selected_column > 0 {
                self.selected_column - 1
            } else {
                self.selected_column
            },
        )
    }

    /// The board after `select_next_task`.
    pub open spec fn select_next_task_spec(self) -> BoardView {
        match self.selected_task {
            Some(k) => if k + 1 < self.selected_tasks().len() {
                BoardView { selected_task: Some(k + 1), ..self }
            } else {
                self
            },
            None => self,
        }
    }

    /// The board after `select_previous_task`.
    pub open spec fn select_previous_task_spec(self) -> BoardView {
        match self.selected_task {
            Some(k) => if k > 0 {
                BoardView { selected_task: Some(k - 1), ..self }
            } else {
                self
            },
            None => self,
        }
    }

    /// The board after a task with the given fields has been created: it
    /// receives the next fresh id and the selected column's name as its
    /// status, and is appended to the selected column. The cursor stays
    /// where it was, except that the new task is selected when the column
    /// was empty (so that the cursor never dangles).
    pub open spec fn add_task_spec(
        self,
        title: Seq<char>,
        description: Option<Seq<char>>,
        tags: Seq<Seq<char>>,
        due_date: Option<i64>,
        created_at: i64,
    ) -> BoardView {
        let name = self.columns[self.selected_column].name;
        let t = TaskView {
            id: self.next_id,
            title,
            description,
            tags,
            created_at,
            due_date,
            status: name,
        };
        BoardView {
            columns: self.columns.update(
                self.selected_column,
                ColumnView { name, tasks: self.columns[self.selected_column].tasks.push(t) },
            ),
            selected_task: match self.selected_task {
                None => Some(0),
                Some(k) => Some(k),
            },
            next_id: (self.next_id + 1) as u64,
            ..self
        }
    }

    /// The board after `move_task`: a no-op when no task is selected or
    /// when the clamped destination is the selected column itself;
    /// otherwise the selected task leaves its column, takes the destination
    /// column's name as its status, and is appended to that column, with
    /// the cursor following it.
    pub open spec fn move_task_spec(self, dir: Direction) -> BoardView {
        match self.selected_task {
            None => self,
            Some(k) => {
                let src = self.selected_column;
                let dst = self.destination(dir);
                if dst == src {
                    self
                } else {
                    let x = self.columns[src].tasks[k];
                    let moved = TaskView { status: self.columns[dst].name, ..x };
                    let cols1 = self.columns.update(
                        src,
                        ColumnView {
                            name: self.columns[src].name,
                            tasks: self.columns[src].tasks.remove(k),
                        },
                    );
                    let cols2 = cols1.update(
                        dst,
                        ColumnView { name: cols1[dst].name, tasks: cols1[dst].tasks.push(moved) },
                    );
                    BoardView {
                        columns: cols2,
                        selected_column: dst,
                        selected_task: Some(cols1[dst].tasks.len() as int),
                        ..self
                    }
                }
            },
        }
    }

    /// The column index a move in `dir` targets: one step, clamped to the
    /// board's bounds.
    pub open spec fn destination(self, dir: Direction) -> int {
        match dir {
            Direction::Forward => if self.selected_column + 1 < self.columns.len() {
                self.selected_column + 1
            } else {
                self.selected_column
            },
            Direction::Backward => if self.selected_column > 0 {
                self.selected_column - 1
            } else {
                self.selected_column
            },
        }
    }
}

/// Replacing one column changes the board's task count by the difference
/// the replacement makes.
pub proof fn lemma_all_tasks_len_update(cols: Seq<ColumnView>, j: int, col2: ColumnView)
    requires
        0 <= j < cols.len(),
    ensures
        all_tasks_of(cols.update(j, col2)).len() == all_tasks_of(cols).len() + col2.tasks.len()
            - cols[j].tasks.len(),
    decreases cols.len(),
{
    if j == cols.len() - 1 {
        assert(cols.update(j, col2).drop_last() =~= cols.drop_last());
    } else {
        assert(cols.update(j, col2).drop_last() =~= cols.drop_last().update(j, col2));
        lemma_all_tasks_len_update(cols.drop_last(), j, col2);
    }
}

/// Every `add_task` grows the board by exactly one task — so after any
/// sequence of additions the board holds exactly one task per call — and
/// the added task's status is the name of the column selected at the
/// moment of its creation, where it sits last.
pub proof fn lemma_add_task_count(
    b: BoardView,
    title: Seq<char>,
    description: Option<Seq<char>>,
    tags: Seq<Seq<char>>,
    due_date: Option<i64>,
    created_at: i64,
)
    requires
        b.inv(),
        b.next_id < u64::MAX,
    ensures
        ({
            let b2 = b.add_task_spec(title, description, tags, due_date, created_at);
            let sel = b.selected_column;
            &&& b2.all_tasks().len() == b.all_tasks().len() + 1
            &&& b2.columns[sel].tasks.len() == b.columns[sel].tasks.len() + 1
            &&& b2.columns[sel].tasks.last().status == b.columns[sel].name
            &&& b2.columns[sel].tasks.last().title == title
            &&& forall|j: int|
                0 <= j < b.columns.len() && j != sel ==> b2.columns[j] == b.columns[j]
        }),
{
    let sel = b.selected_column;
    let b2 = b.add_task_spec(title, description, tags, due_date, created_at);
    lemma_all_tasks_len_update(b.columns, sel, b2.columns[sel]);
}

/// Moving the selected task forward and then backward returns it to its
/// original column: the task, its fields and its status are as before,
/// though it now sits at the end of that column's list; every other column
/// is untouched. This holds whenever the selected column is not the last,
/// so that the forward move is a real move.
pub proof fn lemma_move_round_trip(b: BoardView)
    requires
        b.inv(),
        b.selected_task is Some,
        b.selected_column + 1 < b.columns.len(),
    ensures
        ({
            let b2 = b.move_task_spec(Direction::Forward).move_task_spec(Direction::Backward);
            let src = b.selected_column;
            let k = b.selected_task->0;
            &&& b2.columns.len() == b.columns.len()
            &&& forall|j: int|
                0 <= j < b.columns.len() && j != src ==> b2.columns[j] == b.columns[j]
            &&& b2.columns[src].tasks == b.columns[src].tasks.remove(k).push(
                b.columns[src].tasks[k],
            )
            &&& b2.selected_column == src
        }),
{
    let src = b.selected_column;
    let k = b.selected_task->0;
    let dst = src + 1;
    let x = b.columns[src].tasks[k];
    let b1 = b.move_task_spec(Direction::Forward);
    lemma_move_task_preserves_inv(b, Direction::Forward);
    let oldlen = b.columns[dst].tasks.len() as int;
    assert(b1.selected_column == dst);
    assert(b1.selected_task == Some(oldlen));
    let b2 = b1.move_task_spec(Direction::Backward);
    assert(b1.destination(Direction::Backward) == src);
    let moved = b1.columns[dst].tasks[oldlen];
    assert(moved.status == b.columns[dst].name);
    let moved2 = TaskView { status: b1.columns[src].name, ..moved };
    assert(moved2 =~= x);
    assert(b1.columns[dst].tasks.remove(oldlen) =~= b.columns[dst].tasks);
    assert forall|j: int|
        0 <= j < b.columns.len() && j != src implies b2.columns[j] == b.columns[j] by {
        if j == dst {
            assert(b2.columns[j].tasks =~= b.columns[j].tasks);
            assert(b2.columns[j] =~~= b.columns[j]);
        }
    }
    assert(b2.columns[src].tasks =~= b.columns[src].tasks.remove(k).push(x));
}

/// Moving forward while the last column is selected changes nothing at
/// all: the clamp makes the move a complete no-op.
pub proof fn lemma_move_forward_at_last_is_noop(b: BoardView)
    requires
        b.inv(),
        b.selected_column == b.columns.len() - 1,
    ensures
        b.move_task_spec(Direction::Forward) == b,
{
}

/// Moving backward while the first column is selected changes nothing at
/// all: the clamp makes the move a complete no-op.
pub proof fn lemma_move_backward_at_first_is_noop(b: BoardView)
    requires
        b.inv(),
        b.selected_column == 0,
    ensures
        b.move_task_spec(Direction::Backward) == b,
{
}

/// Column navigation never takes the selected column index outside
/// `[0, columns.len() - 1]`, however many times it is applied.
pub proof fn lemma_selection_stays_in_bounds(b: BoardView)
    requires
        b.inv(),
    ensures
        0 <= b.select_next_column_spec().selected_column < b.columns.len(),
        0 <= b.select_previous_column_spec().selected_column < b.columns.len(),
{
}

/// On a well-formed board the two readings of membership agree: looking a
/// column's own name up finds that column and no other, so filtering
/// tasks by status returns exactly the tasks the column physically holds.
pub proof fn lemma_status_agrees_with_membership(b: BoardView, j: int)
    requires
        b.inv(),
        0 <= j < b.columns.len(),
    ensures
        find_column(b.columns, b.columns[j].name) == Some(j),
{
    lemma_find_column_at(b.columns, b.columns[j].name, j);
}

/// The tags of the given tasks, in task order and in-task order.
pub open spec fn tags_of_tasks(tasks: Seq<TaskView>) -> Seq<Seq<char>>
    decreases tasks.len(),
{
    if tasks.len() == 0 {
        Seq::empty()
    } else {
        tags_of_tasks(tasks.drop_last()) + tasks.last().tags
    }
}

/// Every tag on the board, column by column, task by task, repeats
/// included.
pub open spec fn all_tags_of(cols: Seq<ColumnView>) -> Seq<Seq<char>>
    decreases cols.len(),
{
    if cols.len() == 0 {
        Seq::empty()
    } else {
        all_tags_of(cols.drop_last()) + tags_of_tasks(cols.last().tasks)
    }
}

/// One listing line per task: a dash, the id in brackets, the title, and
/// the tags joined in parentheses.
pub open spec fn task_line(t: TaskView) -> Seq<char> {
    seq!['-', ' ', '['] + crate::num::dec_nat(t.id as nat) + seq![']', ' '] + t.title + seq![
        ' ',
        '(',
    ] + crate::csv::join_tags(t.tags) + seq![')']
}

/// The listing lines of the given tasks, in order.
pub open spec fn task_lines(tasks: Seq<TaskView>) -> Seq<Seq<char>>
    decreases tasks.len(),
{
    if tasks.len() == 0 {
        Seq::empty()
    } else {
        task_lines(tasks.drop_last()).push(task_line(tasks.last()))
    }
}

/// The full listing: each column's name with a colon, then its tasks.
pub open spec fn board_lines(cols: Seq<ColumnView>) -> Seq<Seq<char>>
    decreases cols.len(),
{
    if cols.len() == 0 {
        Seq::empty()
    } else {
        board_lines(cols.drop_last()) + seq![cols.last().name + seq![':']] + task_lines(
            cols.last().tasks,
        )
    }
}

/// Every position in the flattened task sequence comes from one column
/// position, at the offset where that column's tasks start.
pub proof fn lemma_all_tasks_decompose(cols: Seq<ColumnView>, p: int)
    requires
        0 <= p < all_tasks_of(cols).len(),
    ensures
        exists|j: int, i: int|
            0 <= j < cols.len() && 0 <= i < cols[j].tasks.len() && p == all_tasks_of(
                cols.take(j),
            ).len() + i && all_tasks_of(cols)[p] == cols[j].tasks[i],
    decreases cols.len(),
{
    let prefix = cols.drop_last();
    let pre_len = all_tasks_of(prefix).len() as int;
    if p < pre_len {
        lemma_all_tasks_decompose(prefix, p);
        let (j, i): (int, int) = choose|j: int, i: int|
            0 <= j < prefix.len() && 0 <= i < prefix[j].tasks.len() && p == all_tasks_of(
                prefix.take(j),
            ).len() + i && all_tasks_of(prefix)[p] == prefix[j].tasks[i];
        assert(prefix[j] == cols[j]);
        assert(prefix.take(j) =~= cols.take(j));
        assert(all_tasks_of(cols)[p] == all_tasks_of(prefix)[p]);
        assert(0 <= j < cols.len() && 0 <= i < cols[j].tasks.len() && p == all_tasks_of(
            cols.take(j),
        ).len() + i && all_tasks_of(cols)[p] == cols[j].tasks[i]);
    } else {
        let j = cols.len() - 1;
        let i = p - pre_len;
        assert(cols.take(j) =~= prefix);
        assert(all_tasks_of(cols)[p] == cols[j].tasks[i]);
        assert(0 <= j < cols.len() && 0 <= i < cols[j].tasks.len() && p == all_tasks_of(
            cols.take(j),
        ).len() + i && all_tasks_of(cols)[p] == cols[j].tasks[i]);
    }
}

/// On a well-formed board the flattened task sequence carries pairwise
/// distinct ids, each with room above it for fresh ones.
pub proof fn lemma_all_tasks_ids_ok(b: BoardView)
    requires
        b.inv(),
    ensures
        ids_ok(b.all_tasks()),
{
    let ts = b.all_tasks();
    assert forall|p: int, q: int| 0 <= p < q < ts.len() implies (#[trigger] ts[p]).id != (
    #[trigger] ts[q]).id by {
        lemma_all_tasks_decompose(b.columns, p);
        lemma_all_tasks_decompose(b.columns, q);
        let (j1, i1): (int, int) = choose|j: int, i: int|
            0 <= j < b.columns.len() && 0 <= i < b.columns[j].tasks.len() && p == all_tasks_of(
                b.columns.take(j),
            ).len() + i && all_tasks_of(b.columns)[p] == b.columns[j].tasks[i];
        let (j2, i2): (int, int) = choose|j: int, i: int|
            0 <= j < b.columns.len() && 0 <= i < b.columns[j].tasks.len() && q == all_tasks_of(
                b.columns.take(j),
            ).len() + i && all_tasks_of(b.columns)[q] == b.columns[j].tasks[i];
        assert(j1 != j2 || i1 != i2);
    }
    assert forall|p: int| 0 <= p < ts.len() implies (#[trigger] ts[p]).id < u64::MAX by {
        lemma_all_tasks_decompose(b.columns, p);
    }
}

/// Saving a well-formed board and loading what was saved restores it: the
/// written document parses back to exactly the board's tasks, and filing
/// those tasks into fresh columns of the board's names rebuilds every
/// column exactly. Selection is not persisted; a reloaded board starts
/// with the cursor on the first column.
pub proof fn lemma_save_load_round_trip(b: BoardView)
    requires
        b.inv(),
    ensures
        crate::json::spec_parse_doc(crate::json::json_tasks(b.all_tasks())) == Some(
            b.all_tasks(),
        ),
        distribute(empty_columns(names_of(b.columns)), b.all_tasks()) == Some(b.columns),
        ids_ok(b.all_tasks()),
        names_of(b.columns).len() > 0,
        distinct_names(names_of(b.columns)),
{
    crate::json::lemma_json_round_trip(b.all_tasks());
    lemma_rebuild_round_trip(b);
    lemma_all_tasks_ids_ok(b);
    assert forall|j1: int, j2: int|
        0 <= j1 < j2 < names_of(b.columns).len() implies names_of(b.columns)[j1] != names_of(
        b.columns,
    )[j2] by {
        assert(b.columns[j1].name != b.columns[j2].name);
    }
}

/// Moving a task keeps the board well-formed: names and their order are
/// untouched, the moved task's status is the destination column's name,
/// ids stay unique, and the cursor lands on the moved task.
pub proof fn lemma_move_task_preserves_inv(b: BoardView, dir: Direction)
    requires
        b.inv(),
    ensures
        b.move_task_spec(dir).inv(),
{
    if b.selected_task is Some {
        let k = b.selected_task->0;
        let src = b.selected_column;
        let dst = b.destination(dir);
        if dst != src {
            let b2 = b.move_task_spec(dir);
            let x = b.columns[src].tasks[k];
            assert(forall|j: int|
                0 <= j < b2.columns.len() ==> (#[trigger] b2.columns[j]).name
                    == b.columns[j].name);
            // Each task of the new board is a task of the old board, at an
            // explicit old position; statuses and id bounds carry over.
            assert forall|j: int, i: int|
                0 <= j < b2.columns.len() && 0 <= i < b2.columns[j].tasks.len() implies {
                &&& (#[trigger] b2.columns[j].tasks[i]).status == b2.columns[j].name
                &&& b2.columns[j].tasks[i].id < b2.next_id
            } by {
                if j == src {
                    if i < k {
                        assert(b2.columns[j].tasks[i] == b.columns[src].tasks[i]);
                    } else {
                        assert(b2.columns[j].tasks[i] == b.columns[src].tasks[i + 1]);
                    }
                } else if j == dst {
                    if i < b.columns[dst].tasks.len() {
                        assert(b2.columns[j].tasks[i] == b.columns[dst].tasks[i]);
                    } else {
                        assert(b2.columns[j].tasks[i].id == x.id);
                        assert(x == b.columns[src].tasks[k]);
                    }
                } else {
                    assert(b2.columns[j].tasks[i] == b.columns[j].tasks[i]);
                }
            }
            assert forall|j1: int, i1: int, j2: int, i2: int|
                0 <= j1 < b2.columns.len() && 0 <= i1 < b2.columns[j1].tasks.len() && 0 <= j2
                    < b2.columns.len() && 0 <= i2 < b2.columns[j2].tasks.len() && (j1 != j2 || i1
                    != i2) implies (#[trigger] b2.columns[j1].tasks[i1]).id
                != (#[trigger] b2.columns[j2].tasks[i2]).id by {
                let oldlen = b.columns[dst].tasks.len() as int;
                // Old position of the task now at (j, i).
                let p1 = move_source_pos(b, dir, j1, i1);
                let p2 = move_source_pos(b, dir, j2, i2);
                lemma_move_source_pos(b, dir, j1, i1);
                lemma_move_source_pos(b, dir, j2, i2);
                assert(p1 != p2);
            }
        }
    }
}

/// The old-board position of the task that `move_task_spec` leaves at
/// column `j`, index `i`.
pub open spec fn move_source_pos(b: BoardView, dir: Direction, j: int, i: int) -> (int, int) {
    let k = b.selected_task->0;
    let src = b.selected_column;
    let dst = b.destination(dir);
    if j == src {
        if i < k {
            (src, i)
        } else {
            (src, i + 1)
        }
    } else if j == dst && i == b.columns[dst].tasks.len() {
        (src, k)
    } else {
        (j, i)
    }
}

/// After a real move, the task at `(j, i)` carries the id of the old task
/// at `move_source_pos`, and distinct new positions come from distinct old
/// positions.
pub proof fn lemma_move_source_pos(b: BoardView, dir: Direction, j: int, i: int)
    requires
        b.inv(),
        b.selected_task is Some,
        b.destination(dir) != b.selected_column,
        0 <= j < b.move_task_spec(dir).columns.len(),
        0 <= i < b.move_task_spec(dir).columns[j].tasks.len(),
    ensures
        ({
            let (oj, oi) = move_source_pos(b, dir, j, i);
            &&& 0 <= oj < b.columns.len()
            &&& 0 <= oi < b.columns[oj].tasks.len()
            &&& b.move_task_spec(dir).columns[j].tasks[i].id == b.columns[oj].tasks[oi].id
            &&& (j != b.selected_column ==> (oj, oi) != (
                b.selected_column,
                b.selected_task->0,
            ) || (j == b.destination(dir) && i == b.columns[b.destination(dir)].tasks.len()))
            &&& (j == b.selected_column ==> oi != b.selected_task->0)
        }),
{
    let k = b.selected_task->0;
    let src = b.selected_column;
    let dst = b.destination(dir);
    let b2 = b.move_task_spec(dir);
    if j == src {
        if i < k {
            assert(b2.columns[j].tasks[i] == b.columns[src].tasks[i]);
        } else {
            assert(b2.columns[j].tasks[i] == b.columns[src].tasks[i + 1]);
        }
    } else if j == dst {
        if i < b.columns[dst].tasks.len() {
            assert(b2.columns[j].tasks[i] == b.columns[dst].tasks[i]);
        } else {
            assert(b2.columns[j].tasks[i].id == b.columns[src].tasks[k].id);
        }
    } else {
        assert(b2.columns[j].tasks[i] == b.columns[j].tasks[i]);
    }
}

/// The whole board state: columns, tasks and the navigation cursor.
///
/// `selected_task_index` indexes into the tasks of the selected column; it
/// is `None` exactly when that column is empty.
pub struct KanbanBoard {
    columns: Vec<Column>,
    selected_column_index: usize,
    selected_task_index: Option<usize>,
    next_id: u64,
}

impl View for KanbanBoard {
    type V = BoardView;

    closed spec fn view(&self) -> BoardView {
        BoardView {
            columns: self.columns.deep_view(),
            selected_column: self.selected_column_index as int,
            selected_task: match self.selected_task_index {
                Some(k) => Some(k as int),
                None => None,
            },
            next_id: self.next_id,
        }
    }
}

impl DeepView for Column {
    type V = ColumnView;

    open spec fn deep_view(&self) -> ColumnView {
        self@
    }
}

impl KanbanBoard {
    /// A fresh board with the default three-column workflow and no tasks.
    pub fn new() -> (board: KanbanBoard)
        ensures
            board@.inv(),
            board@.columns.len() == 3,
            board@.columns[0].name == "TODO"@,
            board@.columns[1].name == "DOING"@,
            board@.columns[2].name == "DONE"@,
            forall|j: int| 0 <= j < 3 ==> (#[trigger] board@.columns[j].tasks).len() == 0,
            board@.selected_column == 0,
            board@.selected_task is None,
            board@.next_id == 1,
    {
        let mut columns: Vec<Column> = Vec::new();
        columns.push(Column { name: String::from_str("TODO"), tasks: Vec::new() });
        columns.push(Column { name: String::from_str("DOING"), tasks: Vec::new() });
        columns.push(Column { name: String::from_str("DONE"), tasks: Vec::new() });
        proof {
            reveal_strlit("TODO");
            reveal_strlit("DOING");
            reveal_strlit("DONE");
        }
        let board = KanbanBoard {
            columns,
            selected_column_index: 0,
            selected_task_index: None,
            next_id: 1,
        };
        proof {
            assert(board@.columns.len() == 3);
            assert(board@.columns[0].name == "TODO"@);
            assert(board@.columns[1].name == "DOING"@);
            assert(board@.columns[2].name == "DONE"@);
            assert(board@.columns[0].tasks.len() == 0);
            assert(board@.columns[1].tasks.len() == 0);
            assert(board@.columns[2].tasks.len() == 0);
            assert("TODO"@ != "DOING"@);
            assert("TODO"@[0] != "DONE"@[0]);
            assert("TODO"@ != "DONE"@);
            assert("DOING"@ != "DONE"@);
            assert(board@.inv());
        }
        board
    }

    /// The index of the currently selected column.
    pub fn selected_column_index(&self) -> (r: usize)
        ensures
            r == self@.selected_column,
    {
        self.selected_column_index
    }

    /// The index, within the selected column, of the currently selected
    /// task; `None` exactly when that column is empty.
    pub fn selected_task_index(&self) -> (r: Option<usize>)
        ensures
            match r {
                Some(k) => self@.selected_task == Some(k as int),
                None => self@.selected_task is None,
            },
    {
        self.selected_task_index
    }

    /// How many columns the board has.
    pub fn columns_count(&self) -> (r: usize)
        ensures
            r == self@.columns.len(),
    {
        self.columns.len()
    }

    /// The name of column `j`.
    pub fn column_name(&self, j: usize) -> (r: &String)
        requires
            j < self@.columns.len(),
        ensures
            r@ == self@.columns[j as int].name,
    {
        &self.columns[j].name
    }

    /// How many tasks column `j` holds.
    pub fn column_len(&self, j: usize) -> (r: usize)
        requires
            j < self@.columns.len(),
        ensures
            r == self@.columns[j as int].tasks.len(),
    {
        self.columns[j].tasks.len()
    }

    /// The next id a task created on this board will receive.
    pub fn next_id(&self) -> (r: u64)
        ensures
            r == self@.next_id,
    {
        self.next_id
    }

    /// Moves the cursor one column to the right, clamped to the last
    /// column. Entering a different column selects its first task, or no
    /// task if it is empty. The selected column index never leaves
    /// `[0, columns.len() - 1]`.
    pub fn select_next_column(&mut self)
        requires
            old(self)@.inv(),
        ensures
            final(self)@.inv(),
            final(self)@ == old(self)@.select_next_column_spec(),
            0 <= final(self)@.selected_column < final(self)@.columns.len(),
    {
        let n = self.columns.len();
        proof {
            assert(self@.selected_column < self@.columns.len());
        }
        if self.selected_column_index + 1 < n {
            let c2 = self.selected_column_index + 1;
            self.selected_column_index = c2;
            self.selected_task_index = if self.columns[c2].tasks.len() > 0 {
                Some(0)
            } else {
                None
            };
        }
    }

    /// Moves the cursor one column to the left, clamped to the first
    /// column. Entering a different column selects its first task, or no
    /// task if it is empty. The selected column index never leaves
    /// `[0, columns.len() - 1]`.
    pub fn select_previous_column(&mut self)
        requires
            old(self)@.inv(),
        ensures
            final(self)@.inv(),
            final(self)@ == old(self)@.select_previous_column_spec(),
            0 <= final(self)@.selected_column < final(self)@.columns.len(),
    {
        if self.selected_column_index > 0 {
            let c2 = self.selected_column_index - 1;
            self.selected_column_index = c2;
            self.selected_task_index = if self.columns[c2].tasks.len() > 0 {
                Some(0)
            } else {
                None
            };
        }
    }

    /// Moves the cursor one task down within the selected column; a no-op
    /// at the end of the column or when the column is empty.
    pub fn select_next_task(&mut self)
        requires
            old(self)@.inv(),
        ensures
            final(self)@.inv(),
            final(self)@ == old(self)@.select_next_task_spec(),
    {
        let len = self.columns[self.selected_column_index].tasks.len();
        proof {
            assert(match self@.selected_task {
                Some(k) => k < self@.selected_tasks().len(),
                None => true,
            });
        }
        if let Some(k) = self.selected_task_index {
            if k + 1 < len {
                self.selected_task_index = Some(k + 1);
            }
        }
    }

    /// Moves the cursor one task up within the selected column; a no-op at
    /// the start of the column or when the column is empty.
    pub fn select_previous_task(&mut self)
        requires
            old(self)@.inv(),
        ensures
            final(self)@.inv(),
            final(self)@ == old(self)@.select_previous_task_spec(),
    {
        if let Some(k) = self.selected_task_index {
            if k > 0 {
                self.selected_task_index = Some(k - 1);
            }
        }
    }

    /// Creates a task with the given fields and the given creation time
    /// (epoch seconds) and appends it to the selected column. The id-space
    /// bound in `requires` is a machine limit: ids are never reused, so a
    /// board that has handed out every `u64` id cannot take another task.
    pub fn add_task_with_timestamp(
        &mut self,
        title: String,
        description: Option<String>,
        tags: Vec<String>,
        due_date: Option<i64>,
        created_at: i64,
    )
        requires
            old(self)@.inv(),
            old(self)@.next_id < u64::MAX,
        ensures
            final(self)@.inv(),
            final(self)@ == old(self)@.add_task_spec(
                title@,
                match description {
                    Some(d) => Some(d@),
                    None => None,
                },
                tags.deep_view(),
                due_date,
                created_at,
            ),
    {
        let ghost dview: Option<Seq<char>> = match &description {
            Some(d) => Some(d@),
            None => None,
        };
        let ghost tview = title@;
        let ghost gview = tags.deep_view();
        let c = self.selected_column_index;
        let name = self.columns[c].name.clone();
        let id = self.next_id;
        let task = Task { id, title, description, tags, created_at, due_date, status: name };
        self.next_id = id + 1;
        self.columns[c].tasks.push(task);
        if self.selected_task_index.is_none() {
            self.selected_task_index = Some(0);
        }
        proof {
            let spec_board = old(self)@.add_task_spec(tview, dview, gview, due_date, created_at);
            assert(self@.columns[c as int].tasks =~= spec_board.columns[c as int].tasks);
            assert(self@ =~~= spec_board);
            assert(self@.inv());
        }
    }

    /// A board with one empty column per name, in order, and the cursor on
    /// the first column. Returns the board exactly when at least one name
    /// was given and no two names are equal; `None` otherwise.
    pub fn with_columns(names: &Vec<String>) -> (r: Option<KanbanBoard>)
        ensures
            match r {
                Some(b) => {
                    &&& names@.len() > 0
                    &&& distinct_names(names.deep_view())
                    &&& b@.inv()
                    &&& names_of(b@.columns) == names.deep_view()
                    &&& b@.columns.len() == names@.len()
                    &&& forall|j: int|
                        0 <= j < names@.len() ==> (#[trigger] b@.columns[j]).tasks.len() == 0
                    &&& b@.selected_column == 0
                    &&& b@.selected_task is None
                    &&& b@.next_id == 1
                },
                None => names@.len() == 0 || !distinct_names(names.deep_view()),
            },
    {
        let n = names.len();
        if n == 0 {
            return None;
        }
        let mut a: usize = 1;
        while a < n
            invariant
                n == names@.len(),
                1 <= a <= n,
                forall|j1: int, j2: int|
                    0 <= j1 < j2 < a ==> names.deep_view()[j1] != names.deep_view()[j2],
            decreases n - a,
        {
            let mut b: usize = 0;
            while b < a
                invariant
                    n == names@.len(),
                    a < n,
                    b <= a,
                    forall|j: int|
                        0 <= j < b ==> names.deep_view()[j] != names.deep_view()[a as int],
                decreases a - b,
            {
                if crate::text::str_eq(names[b].as_str(), names[a].as_str()) {
                    proof {
                        assert(names.deep_view()[b as int] == names.deep_view()[a as int]);
                        assert(!distinct_names(names.deep_view()));
                    }
                    return None;
                }
                b = b + 1;
            }
            a = a + 1;
        }
        let mut columns: Vec<Column> = Vec::new();
        let mut i: usize = 0;
        while i < n
            invariant
                n == names@.len(),
                i <= n,
                columns@.len() == i,
                forall|j: int|
                    0 <= j < i ==> (#[trigger] columns.deep_view()[j]).name == names.deep_view()[j]
                        && columns.deep_view()[j].tasks.len() == 0,
            decreases n - i,
        {
            let name = names[i].clone();
            let ghost nv = name@;
            let ghost prev = columns;
            columns.push(Column { name, tasks: Vec::new() });
            proof {
                crate::text::lemma_deep_view_push(
                    columns,
                    prev,
                    columns@[columns@.len() - 1].deep_view(),
                );
                assert(columns.deep_view()[i as int].name == nv);
                assert(columns.deep_view()[i as int].tasks =~= Seq::<TaskView>::empty());
            }
            i = i + 1;
        }
        let board = KanbanBoard {
            columns,
            selected_column_index: 0,
            selected_task_index: None,
            next_id: 1,
        };
        proof {
            assert(names_of(board@.columns) =~= names.deep_view());
            assert(board@.inv());
        }
        Some(board)
    }

    /// A board with one column per name, holding the given tasks, each
    /// filed in order into the column its status names; the cursor starts
    /// on the first column. Returns the board exactly when the names could
    /// make a board, every task's status names a column, and the ids are
    /// pairwise distinct with room above them for fresh ones; `None`
    /// otherwise — in particular whenever any task's status names no
    /// column, which is how a malformed task list is rejected.
    pub fn from_tasks(names: &Vec<String>, tasks: &Vec<Task>) -> (r: Option<KanbanBoard>)
        ensures
            match r {
                Some(b) => {
                    &&& names@.len() > 0
                    &&& distinct_names(names.deep_view())
                    &&& ids_ok(tasks.deep_view())
                    &&& b@.inv()
                    &&& distribute(empty_columns(names.deep_view()), tasks.deep_view()) == Some(
                        b@.columns,
                    )
                    &&& names_of(b@.columns) == names.deep_view()
                    &&& b@.selected_column == 0
                    &&& b@.selected_task == (if b@.columns[0].tasks.len() > 0 {
                        Some(0int)
                    } else {
                        None::<int>
                    })
                },
                None => {
                    ||| names@.len() == 0
                    ||| !distinct_names(names.deep_view())
                    ||| !ids_ok(tasks.deep_view())
                    ||| distribute(empty_columns(names.deep_view()), tasks.deep_view()) is None
                },
            },
    {
        let ghost namesv = names.deep_view();
        let ghost tasksv = tasks.deep_view();
        let mut board = match Self::with_columns(names) {
            Some(b) => b,
            None => {
                return None;
            },
        };
        let n = tasks.len();
        let mut next: u64 = 1;
        let mut i: usize = 0;
        proof {
            assert(tasksv.take(0) =~= Seq::<TaskView>::empty());
            assert(empty_columns(namesv) =~~= board@.columns);
        }
        while i < n
            invariant
                n == tasksv.len(),
                tasksv == tasks.deep_view(),
                namesv == names.deep_view(),
                n == tasks@.len(),
                i <= n,
                namesv.len() > 0,
                distinct_names(namesv),
                board@.columns.len() == namesv.len(),
                names_of(board@.columns) == namesv,
                board@.selected_column == 0,
                board@.selected_task is None,
                distribute(empty_columns(namesv), tasksv.take(i as int)) == Some(board@.columns),
                forall|j: int, i1: int|
                    0 <= j < board@.columns.len() && 0 <= i1 < board@.columns[j].tasks.len()
                        ==> (#[trigger] board@.columns[j].tasks[i1]).status
                            == board@.columns[j].name,
                forall|j: int, i1: int|
                    0 <= j < board@.columns.len() && 0 <= i1 < board@.columns[j].tasks.len()
                        ==> (#[trigger] board@.columns[j].tasks[i1]).id < next,
                forall|j1: int, i1: int, j2: int, i2: int|
                    0 <= j1 < board@.columns.len() && 0 <= i1 < board@.columns[j1].tasks.len()
                        && 0 <= j2 < board@.columns.len() && 0 <= i2
                        < board@.columns[j2].tasks.len() && (j1 != j2 || i1 != i2)
                        ==> (#[trigger] board@.columns[j1].tasks[i1]).id
                            != (#[trigger] board@.columns[j2].tasks[i2]).id,
                forall|j: int, i1: int|
                    0 <= j < board@.columns.len() && 0 <= i1 < board@.columns[j].tasks.len()
                        ==> exists|p: int|
                        0 <= p < i && (#[trigger] board@.columns[j].tasks[i1]).id == (
                        #[trigger] tasksv[p]).id,
                forall|p: int, q: int|
                    0 <= p < q < i ==> (#[trigger] tasksv[p]).id != (#[trigger] tasksv[q]).id,
                forall|p: int| 0 <= p < i ==> (#[trigger] tasksv[p]).id < u64::MAX,
                forall|p: int| 0 <= p < i ==> (#[trigger] tasksv[p]).id < next,
            decreases n - i,
        {
            let mut p: usize = 0;
            while p < i
                invariant
                    tasksv == tasks.deep_view(),
                    n == tasks@.len(),
                    i < n,
                    p <= i,
                    forall|pp: int|
                        0 <= pp < p ==> (#[trigger] tasksv[pp]).id != tasksv[i as int].id,
                decreases i - p,
            {
                if tasks[p].id == tasks[i].id {
                    proof {
                        assert(tasksv[p as int].id == tasksv[i as int].id);
                        assert(!ids_ok(tasksv));
                    }
                    return None;
                }
                p = p + 1;
            }
            if tasks[i].id == u64::MAX {
                proof {
                    assert(tasksv[i as int].id == u64::MAX);
                    assert(!ids_ok(tasksv));
                }
                return None;
            }
            let t = tasks[i].clone();
            let ghost tv = t@;
            let m = board.columns.len();
            let mut j: usize = 0;
            let mut dest: Option<usize> = None;
            while j < m
                invariant_except_break
                    dest is None,
                invariant
                    m == board@.columns.len(),
                    j <= m,
                    t@ == tv,
                    forall|jj: int|
                        0 <= jj < j ==> (#[trigger] board@.columns[jj]).name != tv.status,
                ensures
                    match dest {
                        Some(jd) => jd < m && board@.columns[jd as int].name == tv.status
                            && forall|jj: int|
                            0 <= jj < jd ==> (#[trigger] board@.columns[jj]).name != tv.status,
                        None => forall|jj: int|
                            0 <= jj < m ==> (#[trigger] board@.columns[jj]).name != tv.status,
                    },
                decreases m - j,
            {
                if crate::text::str_eq(board.columns[j].name.as_str(), t.status.as_str()) {
                    dest = Some(j);
                    break ;
                }
                j = j + 1;
            }
            let j = match dest {
                Some(j) => j,
                None => {
                    proof {
                        lemma_find_column_none(board@.columns, tv.status);
                        lemma_distribute_concat(
                            empty_columns(namesv),
                            tasksv.take(i as int),
                            tasksv.skip(i as int),
                        );
                        assert(tasksv.take(i as int) + tasksv.skip(i as int) =~= tasksv);
                        assert(tasksv.skip(i as int)[0] == tasksv[i as int]);
                        assert(tasksv[i as int] == tv);
                        assert(distribute(empty_columns(namesv), tasksv) is None);
                    }
                    return None;
                },
            };
            if t.id >= next {
                next = t.id + 1;
            }
            let ghost prev_board = board@;
            let ghost prev_col_tasks = board.columns@[j as int].tasks;
            board.columns[j].tasks.push(t);
            proof {
                crate::text::lemma_deep_view_push(
                    board.columns@[j as int].tasks,
                    prev_col_tasks,
                    tv,
                );
                let stepped = prev_board.columns.update(
                    j as int,
                    ColumnView {
                        name: prev_board.columns[j as int].name,
                        tasks: prev_board.columns[j as int].tasks.push(tv),
                    },
                );
                assert(board@.columns =~~= stepped);
                assert(tasksv[i as int] == tv);
                lemma_find_column_at(prev_board.columns, tv.status, j as int);
                lemma_distribute_concat(
                    empty_columns(namesv),
                    tasksv.take(i as int),
                    seq![tasksv[i as int]],
                );
                assert(tasksv.take(i as int) + seq![tasksv[i as int]] =~= tasksv.take(i + 1));
                assert(seq![tasksv[i as int]].drop_first() =~= Seq::<TaskView>::empty());
                assert(distribute(empty_columns(namesv), tasksv.take(i + 1)) == distribute(
                    prev_board.columns,
                    seq![tasksv[i as int]],
                ));
                assert(find_column(prev_board.columns, tasksv[i as int].status) == Some(j as int));
                let cols2 = prev_board.columns.update(
                    j as int,
                    ColumnView {
                        name: prev_board.columns[j as int].name,
                        tasks: prev_board.columns[j as int].tasks.push(tasksv[i as int]),
                    },
                );
                assert(distribute(prev_board.columns, seq![tasksv[i as int]]) == distribute(
                    cols2,
                    seq![tasksv[i as int]].drop_first(),
                ));
                assert(distribute(cols2, seq![tasksv[i as int]].drop_first()) == Some(cols2));
                assert(cols2 == stepped);
                assert(distribute(empty_columns(namesv), tasksv.take(i + 1)) == Some(
                    board@.columns,
                ));
                assert(names_of(board@.columns) =~= namesv);
                assert forall|jx: int, i1: int|
                    0 <= jx < board@.columns.len() && 0 <= i1
                        < board@.columns[jx].tasks.len() implies exists|px: int|
                    0 <= px < i + 1 && (#[trigger] board@.columns[jx].tasks[i1]).id == (
                    #[trigger] tasksv[px]).id by {
                    if jx == j && i1 == board@.columns[jx].tasks.len() - 1 {
                        assert(0 <= i < i + 1 && board@.columns[jx].tasks[i1].id == tasksv[i
                            as int].id);
                    } else {
                        assert(board@.columns[jx].tasks[i1] == prev_board.columns[jx].tasks[i1]);
                        assert(exists|px: int|
                            0 <= px < i && (#[trigger] prev_board.columns[jx].tasks[i1]).id == (
                            #[trigger] tasksv[px]).id);
                    }
                }
            }
            i = i + 1;
        }
        board.next_id = next;
        let col0_len = board.columns[0].tasks.len();
        board.selected_task_index = if col0_len > 0 {
            Some(0)
        } else {
            None
        };
        proof {
            assert(tasksv.take(n as int) =~= tasksv);
            assert forall|j1: int, j2: int|
                0 <= j1 < j2 < board@.columns.len() implies (#[trigger] board@.columns[j1]).name
                != (#[trigger] board@.columns[j2]).name by {
                assert(names_of(board@.columns)[j1] == board@.columns[j1].name);
                assert(names_of(board@.columns)[j2] == board@.columns[j2].name);
            }
            assert(board@.inv());
        }
        Some(board)
    }

    /// Every task of the board, in column order and in-column order; the
    /// flat sequence the persistence codecs work on.
    pub fn all_tasks(&self) -> (r: Vec<Task>)
        ensures
            r.deep_view() == self@.all_tasks(),
    {
        let mut r: Vec<Task> = Vec::new();
        let n = self.columns.len();
        let mut j: usize = 0;
        proof {
            assert(r.deep_view() =~= all_tasks_of(self@.columns.take(0)));
        }
        while j < n
            invariant
                n == self@.columns.len(),
                j <= n,
                r.deep_view() == all_tasks_of(self@.columns.take(j as int)),
            decreases n - j,
        {
            let m = self.columns[j].tasks.len();
            let mut i: usize = 0;
            proof {
                assert(self@.columns[j as int].tasks.take(0) =~= Seq::<TaskView>::empty());
                assert(r.deep_view() =~= all_tasks_of(self@.columns.take(j as int))
                    + self@.columns[j as int].tasks.take(0));
            }
            while i < m
                invariant
                    n == self@.columns.len(),
                    j < n,
                    m == self@.columns[j as int].tasks.len(),
                    i <= m,
                    r.deep_view() == all_tasks_of(self@.columns.take(j as int))
                        + self@.columns[j as int].tasks.take(i as int),
                decreases m - i,
            {
                let t = self.columns[j].tasks[i].clone();
                let ghost tv = t@;
                let ghost prev = r;
                r.push(t);
                proof {
                    crate::text::lemma_deep_view_push(r, prev, tv);
                    assert(tv == self@.columns[j as int].tasks[i as int]);
                    assert((all_tasks_of(self@.columns.take(j as int)) + self@.columns[j
                        as int].tasks.take(i as int)).push(tv) =~= all_tasks_of(
                        self@.columns.take(j as int),
                    ) + self@.columns[j as int].tasks.take(i + 1));
                }
                i = i + 1;
            }
            proof {
                assert(self@.columns[j as int].tasks.take(m as int) =~= self@.columns[j
                    as int].tasks);
                assert(self@.columns.take(j + 1).drop_last() =~= self@.columns.take(j as int));
                assert(all_tasks_of(self@.columns.take(j + 1)) == all_tasks_of(
                    self@.columns.take(j as int),
                ) + self@.columns[j as int].tasks);
            }
            j = j + 1;
        }
        proof {
            assert(self@.columns.take(n as int) =~= self@.columns);
        }
        r
    }

    /// Creates a task with the given fields, stamped with the current
    /// time, and appends it to the selected column; see
    /// [`Self::add_task_with_timestamp`], which this calls with whatever
    /// the clock returned.
    pub fn add_task(
        &mut self,
        title: String,
        description: Option<String>,
        tags: Vec<String>,
        due_date: Option<i64>,
    )
        requires
            old(self)@.inv(),
            old(self)@.next_id < u64::MAX,
        ensures
            final(self)@.inv(),
            exists|ts: i64|
                final(self)@ == #[trigger] old(self)@.add_task_spec(
                    title@,
                    crate::task::opt_str_view(description),
                    tags.deep_view(),
                    due_date,
                    ts,
                ),
    {
        let created_at = crate::clock::now_epoch_seconds();
        self.add_task_with_timestamp(title, description, tags, due_date, created_at);
    }

    /// The tasks currently holding status `status`, in display order: the
    /// contents of the column of that name, or nothing when no column
    /// carries it.
    pub fn get_tasks_by_status(&self, status: &str) -> (r: Vec<Task>)
        ensures
            match find_column(self@.columns, status@) {
                Some(j) => r.deep_view() == self@.columns[j].tasks,
                None => r.deep_view() == Seq::<TaskView>::empty(),
            },
    {
        let n = self.columns.len();
        let mut j: usize = 0;
        while j < n
            invariant
                n == self@.columns.len(),
                j <= n,
                forall|jj: int| 0 <= jj < j ==> (#[trigger] self@.columns[jj]).name != status@,
            decreases n - j,
        {
            if crate::text::str_eq(self.columns[j].name.as_str(), status) {
                proof {
                    lemma_find_column_at(self@.columns, status@, j as int);
                }
                return crate::task::clone_tasks(&self.columns[j].tasks);
            }
            j = j + 1;
        }
        proof {
            lemma_find_column_none(self@.columns, status@);
        }
        let r: Vec<Task> = Vec::new();
        proof {
            assert(r.deep_view() =~= Seq::<TaskView>::empty());
        }
        r
    }

    /// The persisted document for this board: its tasks as one JSON
    /// array, in column order and in-column order.
    pub fn to_json(&self) -> (r: String)
        ensures
            r@ == crate::json::json_tasks(self@.all_tasks()),
    {
        let tasks = self.all_tasks();
        crate::json::encode_tasks(&tasks)
    }

    /// The export for this board: one CSV row per task under the fixed
    /// header, in column order and in-column order.
    pub fn to_csv(&self) -> (r: String)
        ensures
            r@ == crate::csv::csv_doc(self@.all_tasks()),
    {
        let tasks = self.all_tasks();
        crate::csv::encode_csv(&tasks)
    }

    /// How many tasks each column holds, in column order.
    pub fn status_counts(&self) -> (r: Vec<usize>)
        ensures
            r@.len() == self@.columns.len(),
            forall|j: int|
                0 <= j < self@.columns.len() ==> r@[j] == self@.columns[j].tasks.len(),
    {
        let mut r: Vec<usize> = Vec::new();
        let n = self.columns.len();
        let mut j: usize = 0;
        while j < n
            invariant
                n == self@.columns.len(),
                j <= n,
                r@.len() == j,
                forall|jj: int|
                    0 <= jj < j ==> r@[jj] == self@.columns[jj].tasks.len(),
            decreases n - j,
        {
            r.push(self.columns[j].tasks.len());
            j = j + 1;
        }
        r
    }

    /// The board as listing lines: each column's name with a colon, then
    /// one line per task with its id, title and tags.
    pub fn list_lines(&self) -> (r: Vec<String>)
        ensures
            r.deep_view() == board_lines(self@.columns),
    {
        let mut r: Vec<String> = Vec::new();
        let n = self.columns.len();
        let mut j: usize = 0;
        proof {
            assert(r.deep_view() =~= board_lines(self@.columns.take(0)));
        }
        while j < n
            invariant
                n == self@.columns.len(),
                j <= n,
                r.deep_view() == board_lines(self@.columns.take(j as int)),
            decreases n - j,
        {
            let mut header = crate::text::chars_of(self.columns[j].name.as_str());
            header.push(':');
            let header_s = crate::text::chars_to_string(&header);
            let ghost hv = header_s@;
            let ghost before = r;
            r.push(header_s);
            proof {
                crate::text::lemma_deep_view_push(r, before, hv);
                assert(hv =~= self@.columns[j as int].name + seq![':']);
                assert(task_lines(self@.columns[j as int].tasks.take(0)) =~= Seq::<
                    Seq<char>,
                >::empty());
                assert(r.deep_view() =~= board_lines(self@.columns.take(j as int)) + seq![
                    self@.columns[j as int].name + seq![':'],
                ] + task_lines(self@.columns[j as int].tasks.take(0)));
            }
            let m = self.columns[j].tasks.len();
            let mut i: usize = 0;
            while i < m
                invariant
                    n == self@.columns.len(),
                    j < n,
                    m == self@.columns[j as int].tasks.len(),
                    i <= m,
                    r.deep_view() == board_lines(self@.columns.take(j as int)) + seq![
                        self@.columns[j as int].name + seq![':'],
                    ] + task_lines(self@.columns[j as int].tasks.take(i as int)),
                decreases m - i,
            {
                let t = &self.columns[j].tasks[i];
                let mut line: Vec<char> = Vec::new();
                line.push('-');
                line.push(' ');
                line.push('[');
                let id_chars = crate::num::u64_to_chars(t.id);
                crate::text::append_chars(&mut line, &id_chars);
                line.push(']');
                line.push(' ');
                crate::text::append_str(&mut line, t.title.as_str());
                line.push(' ');
                line.push('(');
                let joined = crate::csv::join_tags_chars(&t.tags);
                crate::text::append_chars(&mut line, &joined);
                line.push(')');
                proof {
                    assert(line@ =~= task_line(self@.columns[j as int].tasks[i as int]));
                }
                let line_s = crate::text::chars_to_string(&line);
                let ghost lv = line_s@;
                let ghost prev = r;
                r.push(line_s);
                proof {
                    crate::text::lemma_deep_view_push(r, prev, lv);
                    let col_tasks = self@.columns[j as int].tasks;
                    assert(col_tasks.take(i + 1).drop_last() =~= col_tasks.take(i as int));
                    assert(col_tasks.take(i + 1).last() == col_tasks[i as int]);
                    assert(r.deep_view() =~= board_lines(self@.columns.take(j as int)) + seq![
                        self@.columns[j as int].name + seq![':'],
                    ] + task_lines(col_tasks.take(i + 1)));
                }
                i = i + 1;
            }
            proof {
                let col_tasks = self@.columns[j as int].tasks;
                assert(col_tasks.take(m as int) =~= col_tasks);
                assert(self@.columns.take(j + 1).drop_last() =~= self@.columns.take(j as int));
                assert(self@.columns.take(j + 1).last() == self@.columns[j as int]);
                assert(r.deep_view() =~= board_lines(self@.columns.take(j + 1)));
            }
            j = j + 1;
        }
        proof {
            assert(self@.columns.take(n as int) =~= self@.columns);
        }
        r
    }

    /// Every tag on the board, column by column, task by task; a tag used
    /// by several tasks appears once per use.
    pub fn all_tags(&self) -> (r: Vec<String>)
        ensures
            r.deep_view() == all_tags_of(self@.columns),
    {
        let mut r: Vec<String> = Vec::new();
        let n = self.columns.len();
        let mut j: usize = 0;
        proof {
            assert(r.deep_view() =~= all_tags_of(self@.columns.take(0)));
        }
        while j < n
            invariant
                n == self@.columns.len(),
                j <= n,
                r.deep_view() == all_tags_of(self@.columns.take(j as int)),
            decreases n - j,
        {
            let m = self.columns[j].tasks.len();
            let mut i: usize = 0;
            proof {
                assert(tags_of_tasks(self@.columns[j as int].tasks.take(0)) =~= Seq::<
                    Seq<char>,
                >::empty());
                assert(r.deep_view() =~= all_tags_of(self@.columns.take(j as int))
                    + tags_of_tasks(self@.columns[j as int].tasks.take(0)));
            }
            while i < m
                invariant
                    n == self@.columns.len(),
                    j < n,
                    m == self@.columns[j as int].tasks.len(),
                    i <= m,
                    r.deep_view() == all_tags_of(self@.columns.take(j as int)) + tags_of_tasks(
                        self@.columns[j as int].tasks.take(i as int),
                    ),
                decreases m - i,
            {
                let task_tags = &self.columns[j].tasks[i].tags;
                let k_len = task_tags.len();
                let mut k: usize = 0;
                while k < k_len
                    invariant
                        n == self@.columns.len(),
                        j < n,
                        m == self@.columns[j as int].tasks.len(),
                        i < m,
                        k_len == self@.columns[j as int].tasks[i as int].tags.len(),
                        task_tags.deep_view() == self@.columns[j as int].tasks[i as int].tags,
                        k <= k_len,
                        r.deep_view() == all_tags_of(self@.columns.take(j as int))
                            + tags_of_tasks(self@.columns[j as int].tasks.take(i as int))
                            + self@.columns[j as int].tasks[i as int].tags.take(k as int),
                    decreases k_len - k,
                {
                    let ghost prev = r;
                    let s = self.columns[j].tasks[i].tags[k].clone();
                    let ghost sv = s@;
                    r.push(s);
                    proof {
                        crate::text::lemma_deep_view_push(r, prev, sv);
                        let tg = self@.columns[j as int].tasks[i as int].tags;
                        assert(sv == tg[k as int]);
                        assert(prev.deep_view().push(sv) =~= all_tags_of(
                            self@.columns.take(j as int),
                        ) + tags_of_tasks(self@.columns[j as int].tasks.take(i as int))
                            + tg.take(k + 1));
                    }
                    k = k + 1;
                }
                proof {
                    let tg = self@.columns[j as int].tasks[i as int].tags;
                    assert(tg.take(k_len as int) =~= tg);
                    let col_tasks = self@.columns[j as int].tasks;
                    assert(col_tasks.take(i + 1).drop_last() =~= col_tasks.take(i as int));
                    assert(col_tasks.take(i + 1).last() == col_tasks[i as int]);
                    assert(tags_of_tasks(col_tasks.take(i + 1)) == tags_of_tasks(
                        col_tasks.take(i as int),
                    ) + tg);
                    assert(r.deep_view() =~= all_tags_of(self@.columns.take(j as int))
                        + tags_of_tasks(col_tasks.take(i + 1)));
                }
                i = i + 1;
            }
            proof {
                let col_tasks = self@.columns[j as int].tasks;
                assert(col_tasks.take(m as int) =~= col_tasks);
                assert(self@.columns.take(j + 1).drop_last() =~= self@.columns.take(j as int));
                assert(self@.columns.take(j + 1).last() == self@.columns[j as int]);
                assert(all_tags_of(self@.columns.take(j + 1)) == all_tags_of(
                    self@.columns.take(j as int),
                ) + tags_of_tasks(col_tasks));
            }
            j = j + 1;
        }
        proof {
            assert(self@.columns.take(n as int) =~= self@.columns);
        }
        r
    }

    /// Moves the selected task one column in `direction`, clamped to the
    /// board's bounds: at either end the move is a complete no-op, and so
    /// is any move while no task is selected. The task's status is set to
    /// the destination column's name, the task is appended to that column,
    /// and the cursor follows it.
    pub fn move_task(&mut self, direction: Direction)
        requires
            old(self)@.inv(),
        ensures
            final(self)@.inv(),
            final(self)@ == old(self)@.move_task_spec(direction),
    {
        let k = match self.selected_task_index {
            Some(k) => k,
            None => {
                return ;
            },
        };
        let src = self.selected_column_index;
        let n = self.columns.len();
        let dst = match direction {
            Direction::Forward => if src + 1 < n {
                src + 1
            } else {
                src
            },
            Direction::Backward => if src > 0 {
                src - 1
            } else {
                src
            },
        };
        if dst == src {
            return ;
        }
        let id = self.columns[src].tasks[k].id;
        proof {
            assert forall|j: int| 0 <= j < k implies (#[trigger] self@.columns[src as int].tasks[j]).id
                != id by {
                assert(self@.columns[src as int].tasks[j].id
                    != self@.columns[src as int].tasks[k as int].id);
            }
            lemma_find_id_at(self@.columns[src as int].tasks, id, k as int);
        }
        let removed = self.columns[src].remove_by_id(id);
        let mut t = match removed {
            Some(t) => t,
            None => vstd::pervasive::unreached(),
        };
        t.status = self.columns[dst].name.clone();
        self.columns[dst].tasks.push(t);
        self.selected_column_index = dst;
        self.selected_task_index = Some(self.columns[dst].tasks.len() - 1);
        proof {
            let spec_board = old(self)@.move_task_spec(direction);
            assert(self@.columns[dst as int].tasks =~= spec_board.columns[dst as int].tasks);
            assert(self@ =~~= spec_board);
            lemma_move_task_preserves_inv(old(self)@, direction);
        }
    }
}

} // verus!
