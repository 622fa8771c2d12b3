//! One task record: a text label, whether it is a sub-task, whether it is
//! completed, and — for sub-tasks — the index of the main task it is anchored
//! to. Also the comma-separated line format a task is persisted in.

use vstd::prelude::*;

use crate::digits::{all_digits, dec_digits, is_digit, lemma_dec_digits_value,
    lemma_parse_of_printed, parse_usize_str, spec_parse_usize, usize_to_string};

verus! {

/// The mathematical content of one task record.
#[verifier::ext_equal]
pub ghost struct TaskView {
    pub name: Seq<char>,
    pub is_sub: bool,
    pub is_completed: bool,
    pub parent: Option<usize>,
}

/// One row of the task list. A main task has `is_sub == false` and no parent;
/// a sub-task carries the index its anchoring main task had when the sub-task
/// was added (a snapshot, never re-resolved afterwards).
pub struct Task {
    name: String,
    is_sub: bool,
    is_completed: bool,
    parent: Option<usize>,
}

impl View for Task {
    type V = TaskView;

    closed spec fn view(&self) -> TaskView {
        TaskView {
            name: self.name@,
            is_sub: self.is_sub,
            is_completed: self.is_completed,
            parent: self.parent,
        }
    }
}

impl DeepView for Task {
    type V = TaskView;

    open spec fn deep_view(&self) -> TaskView {
        self.view()
    }
}

impl Task {
    pub fn new(name: String, is_sub: bool, parent: Option<usize>) -> (t: Task)
        ensures
            t@ == (TaskView { name: name@, is_sub, is_completed: false, parent }),
    {
        Task { name, is_sub, is_completed: false, parent }
    }

    pub fn complete(&mut self)
        ensures
            final(self)@ == (TaskView { is_completed: true, ..old(self)@ }),
    {
        self.is_completed = true;
    }

    pub fn uncomplete(&mut self)
        ensures
            final(self)@ == (TaskView { is_completed: false, ..old(self)@ }),
    {
        self.is_completed = false;
    }

    pub fn is_completed(&self) -> (r: bool)
        ensures
            r == self@.is_completed,
    {
        self.is_completed
    }

    pub fn is_sub(&self) -> (r: bool)
        ensures
            r == self@.is_sub,
    {
        self.is_sub
    }

    pub fn make_sub(&mut self)
        ensures
            final(self)@ == (TaskView { is_sub: true, ..old(self)@ }),
    {
        self.is_sub = true;
    }

    pub fn parent_index(&self) -> (r: Option<usize>)
        ensures
            r == self@.parent,
    {
        self.parent
    }

    pub fn name(&self) -> (r: &str)
        ensures
            r@ == self@.name,
    {
        self.name.as_str()
    }
}

/// The text of a boolean field.
pub open spec fn bool_chars(b: bool) -> Seq<char> {
    if b {
        seq!['t', 'r', 'u', 'e']
    } else {
        seq!['f', 'a', 'l', 's', 'e']
    }
}

/// What parsing a boolean field yields: exactly "true" or "false".
pub open spec fn spec_parse_bool(s: Seq<char>) -> Option<bool> {
    if s == bool_chars(true) {
        Some(true)
    } else if s == bool_chars(false) {
        Some(false)
    } else {
        None
    }
}

/// The parent field as persisted: the index for a sub-task, and the largest
/// `usize` value as the sentinel for "no parent".
pub open spec fn parent_code(p: Option<usize>) -> nat {
    match p {
        Some(i) => i as nat,
        None => usize::MAX as nat,
    }
}

/// The persisted line for one task: four comma-separated fields.
pub open spec fn spec_serialize_task(t: TaskView) -> Seq<char> {
    t.name + seq![','] + bool_chars(t.is_sub) + seq![','] + bool_chars(t.is_completed) + seq![',']
        + dec_digits(parent_code(t.parent))
}

/// Position of the first comma, if any.
pub open spec fn first_comma(s: Seq<char>) -> Option<int>
    decreases s.len(),
{
    if s.len() == 0 {
        None
    } else if s[0] == ',' {
        Some(0)
    } else {
        match first_comma(s.drop_first()) {
            Some(i) => Some(i + 1),
            None => None,
        }
    }
}

/// The text before the first comma, and the text after it when there is one.
pub open spec fn split_first(s: Seq<char>) -> (Seq<char>, Option<Seq<char>>) {
    match first_comma(s) {
        None => (s, None),
        Some(i) => (s.take(i), Some(s.subrange(i + 1, s.len() as int))),
    }
}

/// What parsing one persisted line yields. The first field is the name; the
/// next two must read "true" or "false"; the fourth must be a decimal number,
/// with the largest `usize` value decoded as "no parent". Anything after a
/// fourth comma is ignored. A line with fewer than four fields, or with a
/// malformed boolean or number, yields nothing.
pub open spec fn spec_parse_task(s: Seq<char>) -> Option<TaskView> {
    let (name, rest1) = split_first(s);
    match rest1 {
        None => None,
        Some(r1) => {
            let (f2, rest2) = split_first(r1);
            match spec_parse_bool(f2) {
                None => None,
                Some(is_sub) => match rest2 {
                    None => None,
                    Some(r2) => {
                        let (f3, rest3) = split_first(r2);
                        match spec_parse_bool(f3) {
                            None => None,
                            Some(is_completed) => match rest3 {
                                None => None,
                                Some(r3) => {
                                    let (f4, _rest4) = split_first(r3);
                                    match spec_parse_usize(f4) {
                                        None => None,
                                        Some(p) => Some(
                                            TaskView {
                                                name,
                                                is_sub,
                                                is_completed,
                                                parent: if p == usize::MAX {
                                                    None
                                                } else {
                                                    Some(p)
                                                },
                                            },
                                        ),
                                    }
                                },
                            },
                        }
                    },
                },
            }
        },
    }
}

/// The rendered line for one task: a marker for sub-tasks, a checkbox, the name.
pub open spec fn spec_display_line(t: TaskView) -> Seq<char> {
    (if t.is_sub {
        seq![' ', '-', '>', ' ']
    } else {
        Seq::<char>::empty()
    }) + (if t.is_completed {
        seq!['[', 'x', ']', ' ']
    } else {
        seq!['[', ' ', ']', ' ']
    }) + t.name
}

proof fn lemma_first_comma_at(s: Seq<char>, k: int)
    requires
        0 <= k < s.len(),
        s[k] == ',',
        forall|j: int| 0 <= j < k ==> s[j] != ',',
    ensures
        first_comma(s) == Some(k),
    decreases k,
{
    if k > 0 {
        lemma_first_comma_at(s.drop_first(), k - 1);
    }
}

proof fn lemma_first_comma_none(s: Seq<char>)
    requires
        forall|j: int| 0 <= j < s.len() ==> s[j] != ',',
    ensures
        first_comma(s) is None,
    decreases s.len(),
{
    if s.len() > 0 {
        lemma_first_comma_none(s.drop_first());
    }
}

/// Splitting text of the shape `a , b` at the first comma recovers `a` and `b`
/// when `a` itself holds no comma.
proof fn lemma_split_concat(a: Seq<char>, b: Seq<char>)
    requires
        forall|j: int| 0 <= j < a.len() ==> a[j] != ',',
    ensures
        split_first(a + seq![','] + b) == (a, Some(b)),
{
    let s = a + seq![','] + b;
    assert(s[a.len() as int] == ',');
    lemma_first_comma_at(s, a.len() as int);
    assert(s.take(a.len() as int) =~= a);
    assert(s.subrange(a.len() as int + 1, s.len() as int) =~= b);
}

/// A text with no comma is one single field.
proof fn lemma_split_whole(a: Seq<char>)
    requires
        forall|j: int| 0 <= j < a.len() ==> a[j] != ',',
    ensures
        split_first(a) == (a, None::<Seq<char>>),
{
    lemma_first_comma_none(a);
}

proof fn lemma_bool_chars_no_comma(b: bool)
    ensures
        forall|j: int| 0 <= j < bool_chars(b).len() ==> bool_chars(b)[j] != ',',
{
}

proof fn lemma_digits_no_comma(s: Seq<char>)
    requires
        all_digits(s),
    ensures
        forall|j: int| 0 <= j < s.len() ==> s[j] != ',',
{
    assert forall|j: int| 0 <= j < s.len() implies s[j] != ',' by {
        assert(is_digit(s[j]));
    }
}

/// A task whose persisted line reads back as the same task: the name holds no
/// comma (the field separator) and the parent index is not the sentinel value
/// itself.
pub open spec fn serializable(t: TaskView) -> bool {
    (forall|i: int| 0 <= i < t.name.len() ==> t.name[i] != ',') && t.parent != Some(usize::MAX)
}

/// Serializing a task and parsing the line back reproduces the task, field
/// for field.
pub proof fn lemma_task_line_round_trip(t: TaskView)
    requires
        serializable(t),
    ensures
        spec_parse_task(spec_serialize_task(t)) == Some(t),
{
    let b1 = bool_chars(t.is_sub);
    let b2 = bool_chars(t.is_completed);
    let num = dec_digits(parent_code(t.parent));
    lemma_dec_digits_value(parent_code(t.parent));
    lemma_bool_chars_no_comma(t.is_sub);
    lemma_bool_chars_no_comma(t.is_completed);
    lemma_digits_no_comma(num);
    let s = spec_serialize_task(t);
    let r1 = b1 + seq![','] + b2 + seq![','] + num;
    let r2 = b2 + seq![','] + num;
    assert(s =~= t.name + seq![','] + r1);
    lemma_split_concat(t.name, r1);
    assert(r1 =~= b1 + seq![','] + r2);
    lemma_split_concat(b1, r2);
    lemma_split_concat(b2, num);
    lemma_split_whole(num);
    assert(bool_chars(true) != bool_chars(false)) by {
        assert(bool_chars(true).len() == 4);
        assert(bool_chars(false).len() == 5);
    }
    assert(spec_parse_bool(b1) == Some(t.is_sub));
    assert(spec_parse_bool(b2) == Some(t.is_completed));
    let code = parent_code(t.parent);
    assert(code <= usize::MAX);
    lemma_parse_of_printed(code as usize);
    let parsed = spec_parse_task(s);
    assert(parsed is Some);
    assert(parsed.unwrap() =~= t);
}

impl Task {
    /// Parses one persisted line, exactly as `spec_parse_task` describes.
    #[verifier::rlimit(60)]
    pub fn from_str(s: &str) -> (r: Option<Task>)
        ensures
            match r {
                Some(t) => spec_parse_task(s@) == Some(t@),
                None => spec_parse_task(s@) is None,
            },
    {
        let n = s.unicode_len();
        let ghost total = s@.len() as int;
        let c1 = match find_comma(s, 0) {
            Some(k) => k,
            None => {
                proof {
                    lemma_first_comma_none(s@);
                }
                return None;
            },
        };
        proof {
            lemma_first_comma_at(s@, c1 as int);
        }
        let name = s.substring_char(0, c1);
        let ghost r1 = s@.subrange(c1 as int + 1, total);
        proof {
            assert(name@ =~= s@.take(c1 as int));
        }
        let c2 = match find_comma(s, c1 + 1) {
            Some(k) => k,
            None => {
                proof {
                    assert forall|j: int| 0 <= j < r1.len() implies r1[j] != ',' by {
                        assert(r1[j] == s@[j + c1 + 1]);
                    }
                    lemma_first_comma_none(r1);
                }
                return None;
            },
        };
        proof {
            assert forall|j: int| 0 <= j < c2 - c1 - 1 implies r1[j] != ',' by {
                assert(r1[j] == s@[j + c1 + 1]);
            }
            assert(r1[c2 - c1 - 1] == s@[c2 as int]);
            lemma_first_comma_at(r1, c2 - c1 - 1);
            assert(r1.take(c2 - c1 - 1) =~= s@.subrange(c1 as int + 1, c2 as int));
            assert(r1.subrange(c2 - c1 - 1 + 1, r1.len() as int) =~= s@.subrange(
                c2 as int + 1,
                total,
            ));
        }
        let is_sub = match parse_bool_str(s.substring_char(c1 + 1, c2)) {
            Some(b) => b,
            None => {
                return None;
            },
        };
        let ghost r2 = s@.subrange(c2 as int + 1, total);
        let c3 = match find_comma(s, c2 + 1) {
            Some(k) => k,
            None => {
                proof {
                    assert forall|j: int| 0 <= j < r2.len() implies r2[j] != ',' by {
                        assert(r2[j] == s@[j + c2 + 1]);
                    }
                    lemma_first_comma_none(r2);
                }
                return None;
            },
        };
        proof {
            assert forall|j: int| 0 <= j < c3 - c2 - 1 implies r2[j] != ',' by {
                assert(r2[j] == s@[j + c2 + 1]);
            }
            assert(r2[c3 - c2 - 1] == s@[c3 as int]);
            lemma_first_comma_at(r2, c3 - c2 - 1);
            assert(r2.take(c3 - c2 - 1) =~= s@.subrange(c2 as int + 1, c3 as int));
            assert(r2.subrange(c3 - c2 - 1 + 1, r2.len() as int) =~= s@.subrange(
                c3 as int + 1,
                total,
            ));
        }
        let is_completed = match parse_bool_str(s.substring_char(c2 + 1, c3)) {
            Some(b) => b,
            None => {
                return None;
            },
        };
        let ghost r3 = s@.subrange(c3 as int + 1, total);
        let end4 = match find_comma(s, c3 + 1) {
            Some(k) => k,
            None => {
                proof {
                    assert forall|j: int| 0 <= j < r3.len() implies r3[j] != ',' by {
                        assert(r3[j] == s@[j + c3 + 1]);
                    }
                    lemma_first_comma_none(r3);
                    assert(split_first(r3).0 == r3);
                    assert(r3 =~= s@.subrange(c3 as int + 1, total));
                }
                n
            },
        };
        proof {
            if end4 < n {
                assert forall|j: int| 0 <= j < end4 - c3 - 1 implies r3[j] != ',' by {
                    assert(r3[j] == s@[j + c3 + 1]);
                }
                assert(r3[end4 - c3 - 1] == s@[end4 as int]);
                lemma_first_comma_at(r3, end4 - c3 - 1);
                assert(r3.take(end4 - c3 - 1) =~= s@.subrange(c3 as int + 1, end4 as int));
            } else {
                assert(s@.subrange(c3 as int + 1, end4 as int) == r3);
            }
        }
        let p = match parse_usize_str(s.substring_char(c3 + 1, end4)) {
            Some(p) => p,
            None => {
                return None;
            },
        };
        let parent = if p == usize::MAX {
            None
        } else {
            Some(p)
        };
        let t = Task { name: String::from_str(name), is_sub, is_completed, parent };
        Some(t)
    }

    /// Prints the task's persisted line, exactly as `spec_serialize_task`
    /// describes.
    pub fn to_string(&self) -> (r: String)
        ensures
            r@ == spec_serialize_task(self@),
    {
        let mut r = String::from_str(self.name.as_str());
        r.append(",");
        r.append(if self.is_sub { "true" } else { "false" });
        r.append(",");
        r.append(if self.is_completed { "true" } else { "false" });
        r.append(",");
        let code = match self.parent {
            Some(i) => i,
            None => usize::MAX,
        };
        let num = usize_to_string(code);
        r.append(num.as_str());
        proof {
            reveal_strlit(",");
            reveal_strlit("true");
            reveal_strlit("false");
            assert(","@ =~= seq![',']);
            assert("true"@ =~= bool_chars(true));
            assert("false"@ =~= bool_chars(false));
            assert(r@ =~= spec_serialize_task(self@));
        }
        r
    }

    /// Renders the task for the screen, exactly as `spec_display_line`
    /// describes.
    pub fn display_line(&self) -> (r: String)
        ensures
            r@ == spec_display_line(self@),
    {
        let mut r = String::new();
        if self.is_sub {
            r.append(" -> ");
        }
        r.append(if self.is_completed { "[x] " } else { "[ ] " });
        r.append(self.name.as_str());
        proof {
            reveal_strlit(" -> ");
            reveal_strlit("[x] ");
            reveal_strlit("[ ] ");
            assert(" -> "@ =~= seq![' ', '-', '>', ' ']);
            assert("[x] "@ =~= seq!['[', 'x', ']', ' ']);
            assert("[ ] "@ =~= seq!['[', ' ', ']', ' ']);
            assert(r@ =~= spec_display_line(self@));
        }
        r
    }
}

/// The persisted lines for a store, one per task, in order.
pub open spec fn spec_serialize_all(ts: Seq<TaskView>) -> Seq<Seq<char>> {
    Seq::new(ts.len(), |i: int| spec_serialize_task(ts[i]))
}

/// The tasks read back from a sequence of lines: a line that does not parse
/// is skipped, the rest are kept in order.
pub open spec fn spec_parse_lines(lines: Seq<Seq<char>>) -> Seq<TaskView>
    decreases lines.len(),
{
    if lines.len() == 0 {
        Seq::empty()
    } else {
        spec_parse_lines(lines.drop_last()) + (match spec_parse_task(lines.last()) {
            Some(t) => seq![t],
            None => Seq::empty(),
        })
    }
}

/// Law: writing the line of every task of a store and reading the lines back
/// reproduces the store, task for task, when every task is `serializable`.
pub proof fn lemma_store_round_trip(ts: Seq<TaskView>)
    requires
        forall|k: int| 0 <= k < ts.len() ==> serializable(#[trigger] ts[k]),
    ensures
        spec_parse_lines(spec_serialize_all(ts)) == ts,
    decreases ts.len(),
{
    if ts.len() == 0 {
        assert(spec_serialize_all(ts) =~= Seq::<Seq<char>>::empty());
    } else {
        assert forall|k: int| 0 <= k < ts.drop_last().len() implies serializable(
            #[trigger] ts.drop_last()[k],
        ) by {
            assert(ts.drop_last()[k] == ts[k]);
        }
        lemma_store_round_trip(ts.drop_last());
        assert(spec_serialize_all(ts).drop_last() =~= spec_serialize_all(ts.drop_last()));
        assert(spec_serialize_all(ts).last() == spec_serialize_task(ts.last()));
        lemma_task_line_round_trip(ts.last());
        assert(spec_parse_lines(spec_serialize_all(ts)) =~= ts);
    }
}

/// Prints the persisted line of every task, in order.
pub fn tasks_to_lines(tasks: &Vec<Task>) -> (lines: Vec<String>)
    ensures
        lines.deep_view() == spec_serialize_all(tasks.deep_view()),
{
    let mut lines: Vec<String> = Vec::new();
    let n = tasks.len();
    let mut i: usize = 0;
    while i < n
        invariant
            0 <= i <= n,
            n == tasks@.len(),
            lines@.len() == i,
            forall|k: int| 0 <= k < i ==> (#[trigger] lines@[k])@ == spec_serialize_task(
                tasks@[k]@,
            ),
        decreases n - i,
    {
        let line = tasks[i].to_string();
        let ghost pre = lines@;
        lines.push(line);
        proof {
            assert forall|k: int| 0 <= k <= i implies (#[trigger] lines@[k])@
                == spec_serialize_task(tasks@[k]@) by {
                if k < i {
                    assert(lines@[k] == pre[k]);
                }
            }
        }
        i = i + 1;
    }
    proof {
        assert forall|k: int| 0 <= k < n implies lines.deep_view()[k] == spec_serialize_all(
            tasks.deep_view(),
        )[k] by {
            assert(lines@[k]@ == spec_serialize_task(tasks@[k]@));
            assert(tasks.deep_view()[k] == tasks@[k]@);
        }
        assert(lines.deep_view() =~= spec_serialize_all(tasks.deep_view()));
    }
    lines
}

/// Reads tasks back from persisted lines, skipping lines that do not parse.
pub fn tasks_from_lines(lines: &Vec<String>) -> (tasks: Vec<Task>)
    ensures
        tasks.deep_view() == spec_parse_lines(lines.deep_view()),
{
    let mut tasks: Vec<Task> = Vec::new();
    let n = lines.len();
    let mut i: usize = 0;
    proof {
        assert(lines.deep_view().take(0) =~= Seq::<Seq<char>>::empty());
    }
    while i < n
        invariant
            0 <= i <= n,
            n == lines@.len(),
            tasks.deep_view() == spec_parse_lines(lines.deep_view().take(i as int)),
        decreases n - i,
    {
        let ghost pre = tasks.deep_view();
        match Task::from_str(lines[i].as_str()) {
            Some(t) => {
                tasks.push(t);
            },
            None => {},
        }
        proof {
            let lv = lines.deep_view();
            assert(lv.take(i as int + 1).drop_last() =~= lv.take(i as int));
            assert(lv.take(i as int + 1).last() == lv[i as int]);
            assert(tasks.deep_view() =~= spec_parse_lines(lv.take(i as int + 1)));
        }
        i = i + 1;
    }
    proof {
        assert(lines.deep_view().take(n as int) =~= lines.deep_view());
    }
    tasks
}

/// Finds the first comma at or after `from`.
fn find_comma(s: &str, from: usize) -> (r: Option<usize>)
    requires
        from <= s@.len(),
    ensures
        match r {
            Some(k) => from <= k < s@.len() && s@[k as int] == ',' && (forall|j: int|
                from <= j < k ==> s@[j] != ','),
            None => forall|j: int| from <= j < s@.len() ==> s@[j] != ',',
        },
{
    let n = s.unicode_len();
    let mut i = from;
    while i < n
        invariant
            from <= i <= n,
            n == s@.len(),
            forall|j: int| from <= j < i ==> s@[j] != ',',
        decreases n - i,
    {
        if s.get_char(i) == ',' {
            return Some(i);
        }
        i = i + 1;
    }
    None
}

/// Parses a boolean field, exactly as `spec_parse_bool` describes.
fn parse_bool_str(s: &str) -> (r: Option<bool>)
    ensures
        r == spec_parse_bool(s@),
{
    let n = s.unicode_len();
    if n == 4 {
        if s.get_char(0) == 't' && s.get_char(1) == 'r' && s.get_char(2) == 'u' && s.get_char(3)
            == 'e' {
            proof {
                assert(s@ =~= bool_chars(true));
            }
            Some(true)
        } else {
            None
        }
    } else if n == 5 {
        if s.get_char(0) == 'f' && s.get_char(1) == 'a' && s.get_char(2) == 'l' && s.get_char(3)
            == 's' && s.get_char(4) == 'e' {
            proof {
                assert(s@ =~= bool_chars(false));
            }
            Some(false)
        } else {
            None
        }
    } else {
        None
    }
}

} // verus!
