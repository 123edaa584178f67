//! The todo-list state manager: an ordered list of todo records plus two
//! draft input fields, with the three mutating operations add, toggle and
//! remove.

use vstd::prelude::*;

verus! {

/// One todo record: a display title, a description, a completion flag and a
/// numeric identifier.
pub struct Todo {
    pub title: String,
    pub description: String,
    pub completed: bool,
    pub id: u64,
}

/// The mathematical value of a [`Todo`]: both strings as character sequences.
#[verifier::ext_equal]
pub ghost struct TodoView {
    pub title: Seq<char>,
    pub description: Seq<char>,
    pub completed: bool,
    pub id: u64,
}

impl DeepView for Todo {
    type V = TodoView;

    open spec fn deep_view(&self) -> TodoView {
        TodoView {
            title: self.title@,
            description: self.description@,
            completed: self.completed,
            id: self.id,
        }
    }
}

impl View for Todo {
    type V = TodoView;

    open spec fn view(&self) -> TodoView {
        self.deep_view()
    }
}

/// The state owned by the manager: the list of todos in display order and
/// the two uncommitted form inputs.
pub struct TodoState {
    pub items: Vec<Todo>,
    pub draft_title: String,
    pub draft_description: String,
}

/// The mathematical value of a [`TodoState`].
#[verifier::ext_equal]
pub ghost struct StateView {
    pub items: Seq<TodoView>,
    pub draft_title: Seq<char>,
    pub draft_description: Seq<char>,
}

impl View for TodoState {
    type V = StateView;

    open spec fn view(&self) -> StateView {
        StateView {
            items: self.items.deep_view(),
            draft_title: self.draft_title@,
            draft_description: self.draft_description@,
        }
    }
}

impl TodoState {
    /// An empty list with empty draft fields: the state at first startup,
    /// before anything was ever persisted.
    pub fn new() -> (s: TodoState)
        ensures
            s@.items == Seq::<TodoView>::empty(),
            s@.draft_title == Seq::<char>::empty(),
            s@.draft_description == Seq::<char>::empty(),
    {
        let s = TodoState {
            items: Vec::new(),
            draft_title: String::new(),
            draft_description: String::new(),
        };
        proof {
            assert(s@.items =~= Seq::<TodoView>::empty());
        }
        s
    }

    /// The state re-hydrated from a list loaded out of the persistent store;
    /// the draft fields start empty.
    pub fn from_items(items: Vec<Todo>) -> (s: TodoState)
        ensures
            s@.items == items.deep_view(),
            s@.draft_title == Seq::<char>::empty(),
            s@.draft_description == Seq::<char>::empty(),
    {
        TodoState { items, draft_title: String::new(), draft_description: String::new() }
    }

    /// Replaces the draft title with the current content of the title input
    /// field.
    pub fn set_draft_title(&mut self, value: String)
        ensures
            final(self)@.items == old(self)@.items,
            final(self)@.draft_title == value@,
            final(self)@.draft_description == old(self)@.draft_description,
    {
        self.draft_title = value;
    }

    /// Replaces the draft description with the current content of the
    /// description input field.
    pub fn set_draft_description(&mut self, value: String)
        ensures
            final(self)@.items == old(self)@.items,
            final(self)@.draft_title == old(self)@.draft_title,
            final(self)@.draft_description == value@,
    {
        self.draft_description = value;
    }

    /// Submits the draft fields as a new todo.
    ///
    /// With an empty draft title nothing changes: the submission is a silent
    /// no-op, not an error. Otherwise a record with the draft title and
    /// description, `completed` false and `id` one past the current length is
    /// appended, and both draft fields are cleared.
    pub fn add(&mut self)
        requires
            old(self)@.items.len() < u64::MAX,
        ensures
            old(self)@.draft_title.len() == 0 ==> final(self)@ == old(self)@,
            old(self)@.draft_title.len() > 0 ==> final(self)@.items == old(self)@.items.push(
                TodoView {
                    title: old(self)@.draft_title,
                    description: old(self)@.draft_description,
                    completed: false,
                    id: (old(self)@.items.len() + 1) as u64,
                },
            ),
            old(self)@.draft_title.len() > 0 ==> final(self)@.draft_title == Seq::<char>::empty()
                && final(self)@.draft_description == Seq::<char>::empty(),
    {
        if self.draft_title.as_str().is_empty() {
            return ;
        }
        let id: u64 = self.items.len() as u64 + 1;
        let mut title = String::new();
        core::mem::swap(&mut title, &mut self.draft_title);
        let mut description = String::new();
        core::mem::swap(&mut description, &mut self.draft_description);
        let todo = Todo { title, description, completed: false, id };
        let ghost pushed = todo.deep_view();
        self.items.push(todo);
        proof {
            assert(self.items.deep_view() =~= old(self)@.items.push(pushed));
        }
    }

    /// Flips the completion flag of the item at `index`, leaving its position
    /// and every other field of every item unchanged.
    pub fn toggle(&mut self, index: usize)
        requires
            index < old(self)@.items.len(),
        ensures
            final(self)@.items == old(self)@.items.update(
                index as int,
                TodoView {
                    completed: !old(self)@.items[index as int].completed,
                    ..old(self)@.items[index as int]
                },
            ),
            final(self)@.draft_title == old(self)@.draft_title,
            final(self)@.draft_description == old(self)@.draft_description,
    {
        let mut todo = self.items.remove(index);
        todo.completed = !todo.completed;
        let ghost flipped = todo.deep_view();
        self.items.insert(index, todo);
        proof {
            assert(self.items.deep_view() =~= old(self)@.items.update(index as int, flipped));
        }
    }

    /// Removes the item at `index`, shifting every later item down by one
    /// position.
    pub fn remove(&mut self, index: usize)
        requires
            index < old(self)@.items.len(),
        ensures
            final(self)@.items == old(self)@.items.remove(index as int),
            final(self)@.draft_title == old(self)@.draft_title,
            final(self)@.draft_description == old(self)@.draft_description,
    {
        self.items.remove(index);
        proof {
            assert(self.items.deep_view() =~= old(self)@.items.remove(index as int));
        }
    }

    /// How many todos the list currently holds.
    pub fn len(&self) -> (n: usize)
        ensures
            n == self@.items.len(),
    {
        self.items.len()
    }
}

/// Law: toggling flips exactly one boolean. An update of one item with only
/// its completion flag negated keeps the length, keeps the other fields of
/// the updated item, and leaves every other item untouched.
pub proof fn lemma_toggle_flips_exactly_one(items: Seq<TodoView>, i: int, toggled: Seq<TodoView>)
    requires
        0 <= i < items.len(),
        toggled == items.update(
            i,
            TodoView { completed: !items[i].completed, ..items[i] },
        ),
    ensures
        toggled.len() == items.len(),
        toggled[i].completed == !items[i].completed,
        toggled[i].title == items[i].title,
        toggled[i].description == items[i].description,
        toggled[i].id == items[i].id,
        forall|j: int| 0 <= j < items.len() && j != i ==> toggled[j] == items[j],
{
}

/// Law: removal keeps the relative order of the remaining items and yields
/// one item fewer; when the removed item occurs nowhere else in the list, it
/// is absent from the result. (With duplicates an equal item can of course
/// remain, so absence is stated only for an item that occurs once.)
pub proof fn lemma_remove_keeps_order(items: Seq<TodoView>, i: int, removed: Seq<TodoView>)
    requires
        0 <= i < items.len(),
        removed == items.remove(i),
    ensures
        removed.len() == items.len() - 1,
        forall|j: int| 0 <= j < i ==> removed[j] == items[j],
        forall|j: int| i <= j < items.len() - 1 ==> removed[j] == items[j + 1],
        (forall|j: int| 0 <= j < items.len() && j != i ==> items[j] != items[i])
            ==> !removed.contains(items[i]),
{
    if forall|j: int| 0 <= j < items.len() && j != i ==> items[j] != items[i] {
        assert forall|k: int| 0 <= k < removed.len() implies removed[k] != items[i] by {
            if k < i {
                assert(removed[k] == items[k]);
            } else {
                assert(removed[k] == items[k + 1]);
            }
        }
        assert(!removed.contains(items[i]));
    }
}

} // verus!
