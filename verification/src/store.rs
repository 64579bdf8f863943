//! The task store: an ordered collection of tasks, each a name and a
//! lifecycle category, with indexed mutation and two display orderings
//! (insertion order and stable category-priority order).

use vstd::prelude::*;

verus! {

/// A task's lifecycle category. The four variants carry a display priority
/// (`Any` lowest, `Done` highest) given by [`priority`]; `Any` is just the
/// lowest-priority bucket, not a wildcard.
#[derive(Clone, Copy, PartialEq, Eq, Structural, Debug)]
pub enum Category {
    Any,
    Todo,
    InProgress,
    Done,
}

/// The display priority of a category: `Any` < `Todo` < `InProgress` < `Done`.
pub open spec fn priority(c: Category) -> int {
    match c {
        Category::Any => 0,
        Category::Todo => 1,
        Category::InProgress => 2,
        Category::Done => 3,
    }
}

/// The category's name, as it appears in the persisted text format.
pub open spec fn category_label(c: Category) -> Seq<char> {
    match c {
        Category::Any => seq!['A', 'n', 'y'],
        Category::Todo => seq!['T', 'o', 'd', 'o'],
        Category::InProgress => seq!['I', 'n', 'P', 'r', 'o', 'g', 'r', 'e', 's', 's'],
        Category::Done => seq!['D', 'o', 'n', 'e'],
    }
}

impl Category {
    /// The category's name as a string: `"Any"`, `"Todo"`, `"InProgress"` or
    /// `"Done"`.
    pub fn label(&self) -> (r: &'static str)
        ensures
            r@ == category_label(*self),
    {
        match self {
            Category::Any => {
                let s = "Any";
                proof {
                    reveal_strlit("Any");
                    assert(s@ =~= category_label(Category::Any));
                }
                s
            },
            Category::Todo => {
                let s = "Todo";
                proof {
                    reveal_strlit("Todo");
                    assert(s@ =~= category_label(Category::Todo));
                }
                s
            },
            Category::InProgress => {
                let s = "InProgress";
                proof {
                    reveal_strlit("InProgress");
                    assert(s@ =~= category_label(Category::InProgress));
                }
                s
            },
            Category::Done => {
                let s = "Done";
                proof {
                    reveal_strlit("Done");
                    assert(s@ =~= category_label(Category::Done));
                }
                s
            },
        }
    }
}

/// A task: a single-line name and a category.
#[derive(Debug)]
pub struct Task {
    pub name: String,
    pub category: Category,
}

/// The mathematical value of a [`Task`]: its name as a character sequence,
/// and its category.
#[verifier::ext_equal]
pub struct TaskView {
    pub name: Seq<char>,
    pub category: Category,
}

impl View for Task {
    type V = TaskView;

    open spec fn view(&self) -> TaskView {
        TaskView { name: self.name@, category: self.category }
    }
}

/// The `(position, task)` pairs of a task sequence, in order.
pub open spec fn enumerate(s: Seq<TaskView>) -> Seq<(int, TaskView)> {
    Seq::new(s.len(), |i: int| (i, s[i]))
}

/// The pairs of `ps` whose task has priority `p`, kept in order.
pub open spec fn with_priority(ps: Seq<(int, TaskView)>, p: int) -> Seq<(int, TaskView)>
    decreases ps.len(),
{
    if ps.len() == 0 {
        Seq::empty()
    } else if priority(ps[0].1.category) == p {
        seq![ps[0]] + with_priority(ps.skip(1), p)
    } else {
        with_priority(ps.skip(1), p)
    }
}

/// The enumerated pairs of `s` with priority below `p`, grouped by priority
/// in ascending order, insertion order kept within each group.
pub open spec fn by_category_upto(s: Seq<TaskView>, p: int) -> Seq<(int, TaskView)>
    decreases p,
{
    if p <= 0 {
        Seq::empty()
    } else {
        by_category_upto(s, p - 1) + with_priority(enumerate(s), p - 1)
    }
}

/// The `(position, task)` pairs of a task sequence in display order: sorted
/// by category priority, ascending, tasks of equal category in insertion
/// order, each pair carrying the task's original position.
pub open spec fn by_category(s: Seq<TaskView>) -> Seq<(int, TaskView)> {
    by_category_upto(s, 4)
}

/// The mathematical value of a vector of `(position, task)` pairs.
pub open spec fn pairs_view(v: Seq<(usize, Task)>) -> Seq<(int, TaskView)> {
    Seq::new(v.len(), |i: int| (v[i].0 as int, v[i].1@))
}

/// Appending a pair to `ps` appends it to the selection when its priority
/// matches, and changes nothing otherwise.
proof fn lemma_with_priority_push(ps: Seq<(int, TaskView)>, x: (int, TaskView), p: int)
    ensures
        with_priority(ps.push(x), p) == with_priority(ps, p) + (if priority(x.1.category) == p {
            seq![x]
        } else {
            Seq::<(int, TaskView)>::empty()
        }),
    decreases ps.len(),
{
    if ps.len() == 0 {
        assert(ps.push(x).skip(1) =~= Seq::<(int, TaskView)>::empty());
        assert(ps.push(x).len() == 1);
        assert(ps.push(x)[0] == x);
        assert(with_priority(ps, p) == Seq::<(int, TaskView)>::empty());
        if priority(x.1.category) == p {
            assert(with_priority(ps.push(x), p) == seq![ps.push(x)[0]] + with_priority(
                ps.push(x).skip(1),
                p,
            ));
            assert(with_priority(ps.push(x).skip(1), p) == Seq::<(int, TaskView)>::empty());
            assert(with_priority(ps.push(x), p) =~= with_priority(ps, p) + seq![x]);
        } else {
            assert(with_priority(ps.push(x), p) == with_priority(ps.push(x).skip(1), p));
            assert(with_priority(ps.push(x).skip(1), p) == Seq::<(int, TaskView)>::empty());
            assert(with_priority(ps.push(x), p) =~= with_priority(ps, p)
                + Seq::<(int, TaskView)>::empty());
        }
    } else {
        assert(ps.push(x).skip(1) =~= ps.skip(1).push(x));
        lemma_with_priority_push(ps.skip(1), x, p);
        assert(ps.push(x)[0] == ps[0]);
        if priority(ps[0].1.category) == p {
            assert(with_priority(ps.push(x), p) == seq![ps[0]] + with_priority(
                ps.skip(1).push(x),
                p,
            ));
            assert(with_priority(ps, p) == seq![ps[0]] + with_priority(ps.skip(1), p));
        } else {
            assert(with_priority(ps.push(x), p) == with_priority(ps.skip(1).push(x), p));
            assert(with_priority(ps, p) == with_priority(ps.skip(1), p));
        }
        if priority(x.1.category) == p {
            assert(with_priority(ps.push(x), p) =~= with_priority(ps, p) + seq![x]);
        } else {
            assert(with_priority(ps.push(x), p) =~= with_priority(ps, p)
                + Seq::<(int, TaskView)>::empty());
        }
    }
}

/// What `with_priority` selects, over any pair sequence whose positions are
/// strictly increasing and whose pairs point into `s`: every kept pair has
/// priority `p`, still points into `s`, and the positions stay strictly
/// increasing and no smaller than the first position of `ps`.
proof fn lemma_with_priority_sel(ps: Seq<(int, TaskView)>, p: int, s: Seq<TaskView>)
    requires
        forall|a: int, b: int| 0 <= a < b < ps.len() ==> ps[a].0 < ps[b].0,
        forall|k: int|
            0 <= k < ps.len() ==> 0 <= (#[trigger] ps[k]).0 < s.len() && ps[k].1 == s[ps[k].0],
    ensures
        forall|j: int|
            0 <= j < with_priority(ps, p).len() ==> priority(
                (#[trigger] with_priority(ps, p)[j]).1.category,
            ) == p,
        forall|a: int, b: int|
            0 <= a < b < with_priority(ps, p).len() ==> with_priority(ps, p)[a].0 < with_priority(
                ps,
                p,
            )[b].0,
        forall|j: int|
            0 <= j < with_priority(ps, p).len() ==> 0 <= (#[trigger] with_priority(ps, p)[j]).0
                < s.len() && with_priority(ps, p)[j].1 == s[with_priority(ps, p)[j].0],
        ps.len() > 0 ==> forall|j: int|
            0 <= j < with_priority(ps, p).len() ==> (#[trigger] with_priority(ps, p)[j]).0
                >= ps[0].0,
    decreases ps.len(),
{
    if ps.len() == 0 {
    } else {
        let tail = ps.skip(1);
        lemma_with_priority_sel(tail, p, s);
        assert(forall|k: int| 0 <= k < tail.len() ==> tail[k] == ps[k + 1]);
        let w = with_priority(ps, p);
        let wt = with_priority(tail, p);
        if priority(ps[0].1.category) == p {
            assert(w == seq![ps[0]] + wt);
            assert(w[0] == ps[0]);
            assert(forall|j: int| 1 <= j < w.len() ==> w[j] == wt[j - 1]);
            if tail.len() > 0 {
                assert(forall|j: int| 1 <= j < w.len() ==> w[j].0 >= tail[0].0);
                assert(tail[0].0 == ps[1].0);
                assert(ps[0].0 < ps[1].0);
            }
        } else {
            assert(w == wt);
        }
    }
}

/// The four priority groups partition a pair sequence: their lengths sum to
/// its length.
proof fn lemma_with_priority_partition(ps: Seq<(int, TaskView)>)
    ensures
        with_priority(ps, 0).len() + with_priority(ps, 1).len() + with_priority(ps, 2).len()
            + with_priority(ps, 3).len() == ps.len(),
    decreases ps.len(),
{
    if ps.len() == 0 {
    } else {
        lemma_with_priority_partition(ps.skip(1));
        let h = priority(ps[0].1.category);
        assert(with_priority(ps, 0).len() == with_priority(ps.skip(1), 0).len() + (if h == 0 {
            1int
        } else {
            0int
        }));
        assert(with_priority(ps, 1).len() == with_priority(ps.skip(1), 1).len() + (if h == 1 {
            1int
        } else {
            0int
        }));
        assert(with_priority(ps, 2).len() == with_priority(ps.skip(1), 2).len() + (if h == 2 {
            1int
        } else {
            0int
        }));
        assert(with_priority(ps, 3).len() == with_priority(ps.skip(1), 3).len() + (if h == 3 {
            1int
        } else {
            0int
        }));
    }
}

/// A pair whose task has priority `p` is kept by `with_priority(_, p)`.
proof fn lemma_with_priority_contains(ps: Seq<(int, TaskView)>, x: (int, TaskView), p: int)
    requires
        ps.contains(x),
        priority(x.1.category) == p,
    ensures
        with_priority(ps, p).contains(x),
    decreases ps.len(),
{
    let k = choose|k: int| 0 <= k < ps.len() && ps[k] == x;
    if k == 0 {
        assert(with_priority(ps, p)[0] == x);
        assert(with_priority(ps, p).contains(x));
    } else {
        assert(ps.skip(1)[k - 1] == x);
        assert(ps.skip(1).contains(x));
        lemma_with_priority_contains(ps.skip(1), x, p);
        let wt = with_priority(ps.skip(1), p);
        let j = choose|j: int| 0 <= j < wt.len() && wt[j] == x;
        if priority(ps[0].1.category) == p {
            assert(with_priority(ps, p)[j + 1] == x);
        } else {
            assert(with_priority(ps, p)[j] == x);
        }
        assert(with_priority(ps, p).contains(x));
    }
}

/// The error reported by indexed operations given a position at or beyond the
/// end of the list.
#[derive(Clone, Copy, PartialEq, Eq, Structural, Debug)]
pub enum StoreError {
    IndexOutOfRange,
}

/// The task store: tasks in insertion order. Indices always refer to this
/// order, never to a sorted view.
pub struct TodoList {
    todos: Vec<Task>,
}

impl View for TodoList {
    type V = Seq<TaskView>;

    closed spec fn view(&self) -> Seq<TaskView> {
        Seq::new(self.todos@.len(), |i: int| self.todos@[i]@)
    }
}

impl TodoList {
    /// Creates an empty task list.
    pub fn new() -> (r: TodoList)
        ensures
            r@ == Seq::<TaskView>::empty(),
    {
        let r = TodoList { todos: Vec::new() };
        proof {
            assert(r@ =~= Seq::<TaskView>::empty());
        }
        r
    }

    /// The number of tasks in the list.
    pub fn len(&self) -> (n: usize)
        ensures
            n == self@.len(),
    {
        self.todos.len()
    }

    /// The task at the given position in insertion order.
    pub fn get(&self, index: usize) -> (r: &Task)
        requires
            index < self@.len(),
        ensures
            r@ == self@[index as int],
    {
        &self.todos[index]
    }

    /// Appends a task at the end of the list. Never fails and performs no
    /// validation.
    pub fn add(&mut self, todo: Task)
        ensures
            final(self)@ == old(self)@.push(todo@),
    {
        self.todos.push(todo);
        proof {
            assert(self@ =~= old(self)@.push(self.todos@.last()@));
        }
    }

    /// Removes the task at the given position, shifting later tasks back by
    /// one. Reports `IndexOutOfRange` and leaves the list unchanged when the
    /// position is at or beyond the end.
    pub fn remove(&mut self, index: usize) -> (r: Result<(), StoreError>)
        ensures
            index < old(self)@.len() ==> r == Ok::<(), StoreError>(()) && final(self)@ == old(
                self,
            )@.remove(index as int),
            index >= old(self)@.len() ==> r == Err::<(), StoreError>(StoreError::IndexOutOfRange)
                && final(self)@ == old(self)@,
    {
        if index < self.todos.len() {
            self.todos.remove(index);
            proof {
                assert(self@ =~= old(self)@.remove(index as int));
            }
            Ok(())
        } else {
            Err(StoreError::IndexOutOfRange)
        }
    }

    /// Replaces the name of the task at the given position, keeping its
    /// category. Reports `IndexOutOfRange` and leaves the list unchanged when
    /// the position is at or beyond the end.
    pub fn edit_name(&mut self, index: usize, new_name: String) -> (r: Result<(), StoreError>)
        ensures
            index < old(self)@.len() ==> r == Ok::<(), StoreError>(()) && final(self)@ == old(
                self,
            )@.update(
                index as int,
                TaskView { name: new_name@, category: old(self)@[index as int].category },
            ),
            index >= old(self)@.len() ==> r == Err::<(), StoreError>(StoreError::IndexOutOfRange)
                && final(self)@ == old(self)@,
    {
        if index < self.todos.len() {
            let category = self.todos[index].category;
            self.todos[index] = Task { name: new_name, category };
            proof {
                assert(self@ =~= old(self)@.update(
                    index as int,
                    TaskView { name: new_name@, category: old(self)@[index as int].category },
                ));
            }
            Ok(())
        } else {
            Err(StoreError::IndexOutOfRange)
        }
    }

    /// Replaces the category of the task at the given position, keeping its
    /// name. Reports `IndexOutOfRange` and leaves the list unchanged when the
    /// position is at or beyond the end.
    pub fn edit_category(&mut self, index: usize, new_category: Category) -> (r: Result<
        (),
        StoreError,
    >)
        ensures
            index < old(self)@.len() ==> r == Ok::<(), StoreError>(()) && final(self)@ == old(
                self,
            )@.update(
                index as int,
                TaskView { name: old(self)@[index as int].name, category: new_category },
            ),
            index >= old(self)@.len() ==> r == Err::<(), StoreError>(StoreError::IndexOutOfRange)
                && final(self)@ == old(self)@,
    {
        if index < self.todos.len() {
            let name = self.todos[index].name.clone();
            self.todos[index] = Task { name, category: new_category };
            proof {
                assert(self@ =~= old(self)@.update(
                    index as int,
                    TaskView { name: old(self)@[index as int].name, category: new_category },
                ));
            }
            Ok(())
        } else {
            Err(StoreError::IndexOutOfRange)
        }
    }

    /// The `(position, task)` pairs of the list in insertion order.
    pub fn list_in_order(&self) -> (r: Vec<(usize, Task)>)
        ensures
            pairs_view(r@) == enumerate(self@),
    {
        let mut r: Vec<(usize, Task)> = Vec::new();
        let mut i: usize = 0;
        while i < self.todos.len()
            invariant
                i <= self.todos.len(),
                self@.len() == self.todos@.len(),
                pairs_view(r@) =~= enumerate(self@).take(i as int),
            decreases self.todos@.len() - i,
        {
            let task = Task {
                name: self.todos[i].name.clone(),
                category: self.todos[i].category,
            };
            let ghost tv = task@;
            let ghost prev = r@;
            r.push((i, task));
            proof {
                assert(tv == self@[i as int]);
                assert(pairs_view(prev).len() == prev.len());
                assert(enumerate(self@).take(i as int).len() == i);
                assert(prev.len() == i);
                assert(r@.len() == i + 1);
                assert(forall|j: int| 0 <= j < i ==> r@[j] == prev[j]);
                assert(forall|j: int| 0 <= j < i ==> pairs_view(r@)[j] == pairs_view(prev)[j]);
                assert(pairs_view(prev) == enumerate(self@).take(i as int));
                assert(r@[i as int].0 == i && r@[i as int].1@ == tv);
                assert(pairs_view(r@)[i as int] == (i as int, tv));
                assert(pairs_view(r@) =~= enumerate(self@).take(i + 1));
            }
            i += 1;
        }
        proof {
            assert(enumerate(self@).take(self@.len() as int) =~= enumerate(self@));
        }
        r
    }

    /// The `(position, task)` pairs of the list sorted by category priority,
    /// ascending; tasks of equal category keep their relative insertion
    /// order, and each pair carries the task's original insertion position.
    /// A read-only projection: the stored order is untouched.
    pub fn list_by_category(&self) -> (r: Vec<(usize, Task)>)
        ensures
            pairs_view(r@) == by_category(self@),
    {
        let mut r: Vec<(usize, Task)> = Vec::new();
        let mut p: u8 = 0;
        while p < 4
            invariant
                p <= 4,
                self@.len() == self.todos@.len(),
                pairs_view(r@) =~= by_category_upto(self@, p as int),
            decreases 4 - p,
        {
            let mut i: usize = 0;
            while i < self.todos.len()
                invariant
                    i <= self.todos.len(),
                    self@.len() == self.todos@.len(),
                    pairs_view(r@) =~= by_category_upto(self@, p as int) + with_priority(
                        enumerate(self@).take(i as int),
                        p as int,
                    ),
                decreases self.todos@.len() - i,
            {
                let ghost ps = enumerate(self@).take(i as int);
                let ghost x: (int, TaskView) = (i as int, self@[i as int]);
                let ghost base = by_category_upto(self@, p as int);
                proof {
                    lemma_with_priority_push(ps, x, p as int);
                    assert(enumerate(self@).take(i + 1) =~= ps.push(x));
                }
                if self.category_priority(&self.todos[i].category) == p {
                    let task = Task {
                        name: self.todos[i].name.clone(),
                        category: self.todos[i].category,
                    };
                    let ghost tv = task@;
                    let ghost prev = r@;
                    r.push((i, task));
                    proof {
                        assert(tv == self@[i as int]);
                        assert(pairs_view(prev).len() == prev.len());
                        assert(pairs_view(prev) == base + with_priority(ps, p as int));
                        assert(forall|j: int|
                            0 <= j < prev.len() ==> pairs_view(r@)[j] == pairs_view(prev)[j]);
                        assert(r@[prev.len() as int].0 == i && r@[prev.len() as int].1@ == tv);
                        assert(with_priority(ps.push(x), p as int) == with_priority(ps, p as int)
                            + seq![x]);
                        assert(pairs_view(r@) =~= pairs_view(prev) + seq![x]);
                        assert(base + with_priority(ps.push(x), p as int) =~= (base
                            + with_priority(ps, p as int)) + seq![x]);
                        assert(pairs_view(r@) =~= base + with_priority(
                            enumerate(self@).take(i + 1),
                            p as int,
                        ));
                    }
                } else {
                    proof {
                        assert(with_priority(ps.push(x), p as int) == with_priority(ps, p as int)
                            + Seq::<(int, TaskView)>::empty());
                        assert(with_priority(ps, p as int) + Seq::<(int, TaskView)>::empty()
                            =~= with_priority(ps, p as int));
                        assert(pairs_view(r@) =~= base + with_priority(
                            enumerate(self@).take(i + 1),
                            p as int,
                        ));
                    }
                }
                i += 1;
            }
            proof {
                assert(enumerate(self@).take(self@.len() as int) =~= enumerate(self@));
                assert(pairs_view(r@) =~= by_category_upto(self@, p as int + 1));
            }
            p += 1;
        }
        r
    }

    /// The display priority of a category: 0 for `Any`, 1 for `Todo`, 2 for
    /// `InProgress`, 3 for `Done`.
    pub fn category_priority(&self, category: &Category) -> (p: u8)
        ensures
            p as int == priority(*category),
    {
        match category {
            Category::Any => 0,
            Category::Todo => 1,
            Category::InProgress => 2,
            Category::Done => 3,
        }
    }
}

/// The category ordering is a stable sort: `by_category` yields one pair per
/// task, each pair pointing at its task in the original sequence and every
/// task appearing; the category priorities ascend, and two tasks of equal
/// category keep their relative insertion order (their original positions
/// ascend).
pub proof fn lemma_by_category_sorted_stable(s: Seq<TaskView>)
    ensures
        by_category(s).len() == s.len(),
        forall|i: int| 0 <= i < s.len() ==> by_category(s).contains((i, #[trigger] s[i])),
        forall|k: int|
            0 <= k < by_category(s).len() ==> 0 <= (#[trigger] by_category(s)[k]).0 < s.len()
                && by_category(s)[k].1 == s[by_category(s)[k].0],
        forall|k1: int, k2: int|
            0 <= k1 < k2 < by_category(s).len() ==> priority(
                (#[trigger] by_category(s)[k1]).1.category,
            ) <= priority((#[trigger] by_category(s)[k2]).1.category),
        forall|k1: int, k2: int|
            0 <= k1 < k2 < by_category(s).len() && (#[trigger] by_category(s)[k1]).1.category == (
            #[trigger] by_category(s)[k2]).1.category ==> by_category(s)[k1].0 < by_category(
                s,
            )[k2].0,
{
    let e = enumerate(s);
    assert(forall|k: int| 0 <= k < e.len() ==> (#[trigger] e[k]) == (k, s[k]));
    lemma_with_priority_sel(e, 0, s);
    lemma_with_priority_sel(e, 1, s);
    lemma_with_priority_sel(e, 2, s);
    lemma_with_priority_sel(e, 3, s);
    let w0 = with_priority(e, 0);
    let w1 = with_priority(e, 1);
    let w2 = with_priority(e, 2);
    let w3 = with_priority(e, 3);
    assert(by_category_upto(s, 0) == Seq::<(int, TaskView)>::empty());
    assert(by_category_upto(s, 1) == by_category_upto(s, 0) + w0);
    assert(by_category_upto(s, 2) == by_category_upto(s, 1) + w1);
    assert(by_category_upto(s, 3) == by_category_upto(s, 2) + w2);
    assert(by_category_upto(s, 4) == by_category_upto(s, 3) + w3);
    let full = by_category(s);
    let n0 = w0.len() as int;
    let n1 = n0 + w1.len();
    let n2 = n1 + w2.len();
    let n3 = n2 + w3.len();
    assert(full.len() == n3);
    assert(forall|k: int| 0 <= k < n0 ==> full[k] == w0[k]);
    assert(forall|k: int| n0 <= k < n1 ==> full[k] == w1[k - n0]);
    assert(forall|k: int| n1 <= k < n2 ==> full[k] == w2[k - n1]);
    assert(forall|k: int| n2 <= k < n3 ==> full[k] == w3[k - n2]);
    assert(forall|k: int|
        0 <= k < full.len() ==> priority((#[trigger] full[k]).1.category) == (if k < n0 {
            0int
        } else if k < n1 {
            1int
        } else if k < n2 {
            2int
        } else {
            3int
        }));
    lemma_with_priority_partition(e);
    assert(full.len() == s.len());
    assert forall|i: int| 0 <= i < s.len() implies by_category(s).contains((i, #[trigger] s[i])) by {
        let x = (i, s[i]);
        assert(e[i] == x);
        assert(e.contains(x));
        let p = priority(s[i].category);
        lemma_with_priority_contains(e, x, p);
        if p == 0 {
            let j = choose|j: int| 0 <= j < w0.len() && w0[j] == x;
            assert(full[j] == x);
        } else if p == 1 {
            let j = choose|j: int| 0 <= j < w1.len() && w1[j] == x;
            assert(full[n0 + j] == x);
        } else if p == 2 {
            let j = choose|j: int| 0 <= j < w2.len() && w2[j] == x;
            assert(full[n1 + j] == x);
        } else {
            let j = choose|j: int| 0 <= j < w3.len() && w3[j] == x;
            assert(full[n2 + j] == x);
        }
        assert(by_category(s).contains(x));
    }
}

} // verus!
