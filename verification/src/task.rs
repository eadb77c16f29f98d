//! The atomic unit of work: a task with identity, descriptive text, tags,
//! timestamps and the name of the column it currently sits in.

use vstd::prelude::*;

verus! {

/// Mathematical model of a [`Task`]: every field as a plain spec value.
#[verifier::ext_equal]
pub ghost struct TaskView {
    pub id: u64,
    pub title: Seq<char>,
    pub description: Option<Seq<char>>,
    pub tags: Seq<Seq<char>>,
    pub created_at: i64,
    pub due_date: Option<i64>,
    pub status: Seq<char>,
}

/// One unit of work on the board.
///
/// `id` is assigned once at creation and never reused; `status` always names
/// the column that physically holds the task (the board keeps the two in
/// sync). `created_at` and `due_date` are epoch seconds; an absent
/// `due_date` means "no due date".
pub struct Task {
    pub id: u64,
    pub title: String,
    pub description: Option<String>,
    pub tags: Vec<String>,
    pub created_at: i64,
    pub due_date: Option<i64>,
    pub status: String,
}

impl View for Task {
    type V = TaskView;

    open spec fn view(&self) -> TaskView {
        TaskView {
            id: self.id,
            title: self.title@,
            description: match self.description {
                Some(d) => Some(d@),
                None => None,
            },
            tags: self.tags.deep_view(),
            created_at: self.created_at,
            due_date: self.due_date,
            status: self.status@,
        }
    }
}

impl DeepView for Task {
    type V = TaskView;

    open spec fn deep_view(&self) -> TaskView {
        self@
    }
}

impl Clone for Task {
    fn clone(&self) -> (res: Self)
        ensures
            res@ == self@,
    {
        let res = Task {
            id: self.id,
            title: self.title.clone(),
            description: match &self.description {
                Some(d) => Some(d.clone()),
                None => None,
            },
            tags: clone_strings(&self.tags),
            created_at: self.created_at,
            due_date: self.due_date,
            status: self.status.clone(),
        };
        assert(res@ == self@);
        res
    }
}

/// The view of an optional string: the character sequence, if present.
pub open spec fn opt_str_view(d: Option<String>) -> Option<Seq<char>> {
    match d {
        Some(s) => Some(s@),
        None => None,
    }
}

/// Clones a vector of tasks, element for element.
pub fn clone_tasks(v: &Vec<Task>) -> (res: Vec<Task>)
    ensures
        res.deep_view() == v.deep_view(),
{
    let mut res: Vec<Task> = Vec::new();
    let mut i: usize = 0;
    while i < v.len()
        invariant
            i <= v.len(),
            res@.len() == i,
            forall|j: int| 0 <= j < i ==> #[trigger] res@[j]@ == v@[j]@,
        decreases v.len() - i,
    {
        res.push(v[i].clone());
        i = i + 1;
    }
    proof {
        assert forall|j: int| 0 <= j < v@.len() implies res.deep_view()[j]
            == v.deep_view()[j] by {
            assert(res@[j]@ == v@[j]@);
        }
        assert(res.deep_view() =~= v.deep_view());
    }
    res
}

/// Clones a vector of strings, element for element.
pub fn clone_strings(v: &Vec<String>) -> (res: Vec<String>)
    ensures
        res.deep_view() == v.deep_view(),
{
    let mut res: Vec<String> = Vec::new();
    let mut i: usize = 0;
    while i < v.len()
        invariant
            i <= v.len(),
            res@.len() == i,
            forall|j: int| 0 <= j < i ==> #[trigger] res@[j]@ == v@[j]@,
        decreases v.len() - i,
    {
        res.push(v[i].clone());
        i = i + 1;
    }
    proof {
        assert forall|j: int| 0 <= j < v@.len() implies res.deep_view()[j]
            == v.deep_view()[j] by {
            assert(res@[j]@ == v@[j]@);
        }
        assert(res.deep_view() =~= v.deep_view());
    }
    res
}

} // verus!
