//! The flat-file codec: one task per line, `[Category] Name`. Encoding writes
//! every task in storage order; decoding parses each line against the fixed
//! grammar and silently skips lines that do not match it.

use vstd::prelude::*;
use vstd::string::*;

use crate::store::Category;
use crate::store::Task;
use crate::store::TaskView;
use crate::store::TodoList;
use crate::store::category_label;

verus! {

/// The marker that opens an encoded line: `[` + category name + `] `.
pub open spec fn marker(c: Category) -> Seq<char> {
    seq!['['] + category_label(c) + seq![']', ' ']
}

/// One encoded line, line break included: `[Category] name\n`.
pub open spec fn encode_line(t: TaskView) -> Seq<char> {
    marker(t.category) + t.name + seq!['\n']
}

/// The encoded text of a task sequence: each task's line, in order.
pub open spec fn spec_encode(s: Seq<TaskView>) -> Seq<char>
    decreases s.len(),
{
    if s.len() == 0 {
        Seq::empty()
    } else {
        encode_line(s[0]) + spec_encode(s.skip(1))
    }
}

/// Whether `p` is a prefix of `l`.
pub open spec fn starts_with(l: Seq<char>, p: Seq<char>) -> bool {
    l.len() >= p.len() && l.take(p.len() as int) == p
}

/// The parse of one line: `Some` task when the line opens with the marker of
/// one of the four categories, the remainder being the name (possibly empty);
/// `None` otherwise.
pub open spec fn spec_parse_line(l: Seq<char>) -> Option<TaskView> {
    if starts_with(l, marker(Category::Any)) {
        Some(TaskView { name: l.skip(marker(Category::Any).len() as int), category: Category::Any })
    } else if starts_with(l, marker(Category::Todo)) {
        Some(
            TaskView { name: l.skip(marker(Category::Todo).len() as int), category: Category::Todo },
        )
    } else if starts_with(l, marker(Category::InProgress)) {
        Some(
            TaskView {
                name: l.skip(marker(Category::InProgress).len() as int),
                category: Category::InProgress,
            },
        )
    } else if starts_with(l, marker(Category::Done)) {
        Some(
            TaskView { name: l.skip(marker(Category::Done).len() as int), category: Category::Done },
        )
    } else {
        None
    }
}

/// The text split at every line break. Splitting never loses characters: the
/// result always has one more segment than the text has `'\n'` characters,
/// and the segment after the last break is kept even when empty.
pub open spec fn split_lines(t: Seq<char>) -> Seq<Seq<char>>
    decreases t.len(),
{
    if t.len() == 0 {
        seq![Seq::<char>::empty()]
    } else if t[0] == '\n' {
        seq![Seq::<char>::empty()] + split_lines(t.skip(1))
    } else {
        let r = split_lines(t.skip(1));
        seq![seq![t[0]] + r[0]] + r.skip(1)
    }
}

/// The tasks parsed from a sequence of lines, malformed lines skipped.
pub open spec fn decode_lines(ls: Seq<Seq<char>>) -> Seq<TaskView>
    decreases ls.len(),
{
    if ls.len() == 0 {
        Seq::empty()
    } else {
        match spec_parse_line(ls[0]) {
            Some(t) => seq![t] + decode_lines(ls.skip(1)),
            None => decode_lines(ls.skip(1)),
        }
    }
}

/// The tasks decoded from a whole text: its lines parsed in order, malformed
/// lines skipped.
pub open spec fn spec_decode(t: Seq<char>) -> Seq<TaskView> {
    decode_lines(split_lines(t))
}

/// Whether a task's name is free of line breaks, as the line-oriented format
/// requires.
pub open spec fn line_free(t: TaskView) -> bool {
    forall|i: int| 0 <= i < t.name.len() ==> t.name[i] != '\n'
}

/// Encoding a task appended at the end appends its line to the encoded text.
proof fn lemma_encode_push(s: Seq<TaskView>, t: TaskView)
    ensures
        spec_encode(s.push(t)) == spec_encode(s) + encode_line(t),
    decreases s.len(),
{
    if s.len() == 0 {
        assert(s.push(t)[0] == t);
        assert(s.push(t).skip(1) =~= Seq::<TaskView>::empty());
        assert(spec_encode(s.push(t)) == encode_line(t) + spec_encode(s.push(t).skip(1)));
        assert(spec_encode(Seq::<TaskView>::empty()) == Seq::<char>::empty());
        assert(spec_encode(s.push(t)) =~= spec_encode(s) + encode_line(t));
    } else {
        assert(s.push(t)[0] == s[0]);
        assert(s.push(t).skip(1) =~= s.skip(1).push(t));
        lemma_encode_push(s.skip(1), t);
        assert(spec_encode(s.push(t)) == encode_line(s[0]) + spec_encode(s.skip(1).push(t)));
        assert(spec_encode(s) == encode_line(s[0]) + spec_encode(s.skip(1)));
        assert(spec_encode(s.push(t)) =~= spec_encode(s) + encode_line(t));
    }
}

/// A text without a line break splits into that one line.
proof fn lemma_split_line_free(a: Seq<char>)
    requires
        forall|i: int| 0 <= i < a.len() ==> a[i] != '\n',
    ensures
        split_lines(a) == seq![a],
    decreases a.len(),
{
    if a.len() == 0 {
        assert(a =~= Seq::<char>::empty());
    } else {
        lemma_split_line_free(a.skip(1));
        let r = split_lines(a.skip(1));
        assert(r == seq![a.skip(1)]);
        assert(r[0] == a.skip(1));
        assert(seq![a[0]] + r[0] =~= a);
        assert(r.skip(1) =~= Seq::<Seq<char>>::empty());
        assert(split_lines(a) == seq![seq![a[0]] + r[0]] + r.skip(1));
        assert(split_lines(a) =~= seq![a]);
    }
}

/// Splitting a text that opens with a break-free line followed by a line
/// break yields that line and then the split of the remainder.
proof fn lemma_split_at_break(a: Seq<char>, b: Seq<char>)
    requires
        forall|i: int| 0 <= i < a.len() ==> a[i] != '\n',
    ensures
        split_lines(a + seq!['\n'] + b) == seq![a] + split_lines(b),
    decreases a.len(),
{
    let t = a + seq!['\n'] + b;
    if a.len() == 0 {
        assert(t[0] == '\n');
        assert(t.skip(1) =~= b);
        assert(split_lines(t) == seq![Seq::<char>::empty()] + split_lines(b));
        assert(a =~= Seq::<char>::empty());
        assert(split_lines(t) == seq![a] + split_lines(b));
    } else {
        assert(t[0] == a[0]);
        assert(t.skip(1) =~= a.skip(1) + seq!['\n'] + b);
        lemma_split_at_break(a.skip(1), b);
        let r = split_lines(t.skip(1));
        assert(r == seq![a.skip(1)] + split_lines(b));
        assert(r[0] == a.skip(1));
        assert(seq![t[0]] + r[0] =~= a);
        assert(r.skip(1) =~= split_lines(b));
        assert(split_lines(t) == seq![seq![t[0]] + r[0]] + r.skip(1));
        assert(split_lines(t) =~= seq![a] + split_lines(b));
    }
}

/// A line that opens with a category's marker parses to that category, the
/// remainder of the line being the name.
proof fn lemma_parse_marker(c: Category, name: Seq<char>)
    ensures
        spec_parse_line(marker(c) + name) == Some(TaskView { name: name, category: c }),
{
    let l = marker(c) + name;
    assert(l.take(marker(c).len() as int) =~= marker(c));
    assert(l[1] == marker(c)[1]);
    if l.len() >= marker(Category::Any).len() {
        assert(l.take(marker(Category::Any).len() as int)[1] == l[1]);
    }
    if l.len() >= marker(Category::Todo).len() {
        assert(l.take(marker(Category::Todo).len() as int)[1] == l[1]);
    }
    if l.len() >= marker(Category::InProgress).len() {
        assert(l.take(marker(Category::InProgress).len() as int)[1] == l[1]);
    }
    assert(l.skip(marker(c).len() as int) =~= name);
}

/// Whether `p` is a prefix of `s`, compared character by character.
fn has_prefix(s: &str, p: &str) -> (r: bool)
    ensures
        r == starts_with(s@, p@),
{
    let sn: usize = s.unicode_len();
    let pn: usize = p.unicode_len();
    if sn < pn {
        return false;
    }
    let mut j: usize = 0;
    while j < pn
        invariant
            j <= pn,
            pn <= sn,
            sn == s@.len(),
            pn == p@.len(),
            forall|k: int| 0 <= k < j ==> s@[k] == p@[k],
        decreases pn - j,
    {
        if s.get_char(j) != p.get_char(j) {
            proof {
                assert(s@.take(pn as int)[j as int] == s@[j as int]);
            }
            return false;
        }
        j += 1;
    }
    proof {
        assert(s@.take(pn as int) =~= p@);
    }
    true
}

/// Parses one line against the `[Category] Name` grammar, returning `None`
/// for any line that does not match it.
fn parse_line(line: &str) -> (r: Option<Task>)
    ensures
        match r {
            Some(task) => spec_parse_line(line@) == Some(task@),
            None => spec_parse_line(line@) is None,
        },
{
    let n: usize = line.unicode_len();
    if has_prefix(line, "[Any] ") {
        proof {
            reveal_strlit("[Any] ");
            assert("[Any] "@ =~= marker(Category::Any));
        }
        let name = String::from_str(line.substring_char(6, n));
        proof {
            assert(name@ =~= line@.skip(marker(Category::Any).len() as int));
        }
        Some(Task { name, category: Category::Any })
    } else if has_prefix(line, "[Todo] ") {
        proof {
            reveal_strlit("[Any] ");
            reveal_strlit("[Todo] ");
            assert("[Any] "@ =~= marker(Category::Any));
            assert("[Todo] "@ =~= marker(Category::Todo));
        }
        let name = String::from_str(line.substring_char(7, n));
        proof {
            assert(name@ =~= line@.skip(marker(Category::Todo).len() as int));
        }
        Some(Task { name, category: Category::Todo })
    } else if has_prefix(line, "[InProgress] ") {
        proof {
            reveal_strlit("[Any] ");
            reveal_strlit("[Todo] ");
            reveal_strlit("[InProgress] ");
            assert("[Any] "@ =~= marker(Category::Any));
            assert("[Todo] "@ =~= marker(Category::Todo));
            assert("[InProgress] "@ =~= marker(Category::InProgress));
        }
        let name = String::from_str(line.substring_char(13, n));
        proof {
            assert(name@ =~= line@.skip(marker(Category::InProgress).len() as int));
        }
        Some(Task { name, category: Category::InProgress })
    } else if has_prefix(line, "[Done] ") {
        proof {
            reveal_strlit("[Any] ");
            reveal_strlit("[Todo] ");
            reveal_strlit("[InProgress] ");
            reveal_strlit("[Done] ");
            assert("[Any] "@ =~= marker(Category::Any));
            assert("[Todo] "@ =~= marker(Category::Todo));
            assert("[InProgress] "@ =~= marker(Category::InProgress));
            assert("[Done] "@ =~= marker(Category::Done));
        }
        let name = String::from_str(line.substring_char(7, n));
        proof {
            assert(name@ =~= line@.skip(marker(Category::Done).len() as int));
        }
        Some(Task { name, category: Category::Done })
    } else {
        proof {
            reveal_strlit("[Any] ");
            reveal_strlit("[Todo] ");
            reveal_strlit("[InProgress] ");
            reveal_strlit("[Done] ");
            assert("[Any] "@ =~= marker(Category::Any));
            assert("[Todo] "@ =~= marker(Category::Todo));
            assert("[InProgress] "@ =~= marker(Category::InProgress));
            assert("[Done] "@ =~= marker(Category::Done));
        }
        None
    }
}

impl TodoList {
    /// Serializes every task, in storage order, as one `[Category] Name`
    /// line followed by a line break.
    pub fn encode(&self) -> (r: String)
        ensures
            r@ == spec_encode(self@),
    {
        let mut out = String::new();
        let n: usize = self.len();
        let mut i: usize = 0;
        while i < n
            invariant
                i <= n,
                n == self@.len(),
                out@ == spec_encode(self@.take(i as int)),
            decreases n - i,
        {
            let ghost prev = out@;
            let task = self.get(i);
            out.append("[");
            out.append(task.category.label());
            out.append("] ");
            out.append(task.name.as_str());
            out.append("\n");
            proof {
                reveal_strlit("[");
                reveal_strlit("] ");
                reveal_strlit("\n");
                lemma_encode_push(self@.take(i as int), self@[i as int]);
                assert(self@.take(i + 1) =~= self@.take(i as int).push(self@[i as int]));
                assert(out@ =~= prev + encode_line(self@[i as int]));
            }
            i += 1;
        }
        proof {
            assert(self@.take(n as int) =~= self@);
        }
        out
    }

    /// Parses a whole text: each line against the `[Category] Name` grammar,
    /// in order, silently skipping every line that does not match it.
    pub fn decode(text: &str) -> (r: TodoList)
        ensures
            r@ == spec_decode(text@),
    {
        let n: usize = text.unicode_len();
        let mut list = TodoList::new();
        let mut line_start: usize = 0;
        let mut i: usize = 0;
        proof {
            assert(text@.skip(0) =~= text@);
            assert(Seq::<TaskView>::empty() + spec_decode(text@) =~= spec_decode(text@));
        }
        while i < n
            invariant
                line_start <= i <= n,
                n == text@.len(),
                forall|j: int| line_start <= j < i ==> text@[j] != '\n',
                list@ + spec_decode(text@.skip(line_start as int)) == spec_decode(text@),
            decreases n - i,
        {
            let c = text.get_char(i);
            if c == '\n' {
                let line = text.substring_char(line_start, i);
                let ghost lseq = line@;
                let ghost rest = text@.skip(i + 1);
                let ghost ls = seq![lseq] + split_lines(rest);
                proof {
                    assert(text@.skip(line_start as int) =~= lseq + seq!['\n'] + rest);
                    lemma_split_at_break(lseq, rest);
                    assert(split_lines(text@.skip(line_start as int)) == ls);
                    assert(ls[0] == lseq);
                    assert(ls.skip(1) =~= split_lines(rest));
                }
                if let Some(task) = parse_line(line) {
                    let ghost prev = list@;
                    list.add(task);
                    proof {
                        assert(spec_decode(text@.skip(line_start as int)) == seq![task@]
                            + spec_decode(rest));
                        assert(prev.push(task@) =~= prev + seq![task@]);
                        assert(list@ + spec_decode(text@.skip(i + 1)) =~= prev + spec_decode(
                            text@.skip(line_start as int),
                        ));
                    }
                } else {
                    proof {
                        assert(spec_decode(text@.skip(line_start as int)) == spec_decode(rest));
                    }
                }
                line_start = i + 1;
            }
            i += 1;
        }
        let line = text.substring_char(line_start, n);
        let ghost lseq = line@;
        proof {
            assert(lseq =~= text@.skip(line_start as int));
            lemma_split_line_free(lseq);
            assert(split_lines(text@.skip(line_start as int)) == seq![lseq]);
            assert(seq![lseq].skip(1) =~= Seq::<Seq<char>>::empty());
        }
        if let Some(task) = parse_line(line) {
            let ghost prev = list@;
            list.add(task);
            proof {
                assert(decode_lines(Seq::<Seq<char>>::empty()) == Seq::<TaskView>::empty());
                assert(spec_decode(text@.skip(line_start as int)) == seq![task@]
                    + Seq::<TaskView>::empty());
                assert(prev.push(task@) =~= prev + spec_decode(text@.skip(line_start as int)));
            }
        } else {
            proof {
                assert(decode_lines(Seq::<Seq<char>>::empty()) == Seq::<TaskView>::empty());
                assert(spec_decode(text@.skip(line_start as int)) == Seq::<TaskView>::empty());
                assert(list@ + Seq::<TaskView>::empty() =~= list@);
            }
        }
        list
    }
}

/// Round trip: decoding an encoded task list reproduces the same sequence of
/// name and category pairs, provided every name is free of line breaks. The
/// marker that opens each encoded line is recovered exactly, so the law asks
/// nothing further of the names: a name may itself open with a bracketed
/// token.
pub proof fn lemma_round_trip(s: Seq<TaskView>)
    requires
        forall|i: int| 0 <= i < s.len() ==> line_free(#[trigger] s[i]),
    ensures
        spec_decode(spec_encode(s)) == s,
    decreases s.len(),
{
    if s.len() == 0 {
        assert(spec_encode(s) == Seq::<char>::empty());
        assert(split_lines(Seq::<char>::empty()) == seq![Seq::<char>::empty()]);
        assert(spec_parse_line(Seq::<char>::empty()) is None);
        assert(seq![Seq::<char>::empty()].skip(1) =~= Seq::<Seq<char>>::empty());
        assert(decode_lines(Seq::<Seq<char>>::empty()) == Seq::<TaskView>::empty());
        assert(spec_decode(spec_encode(s)) =~= s);
    } else {
        let t = s[0];
        let content = marker(t.category) + t.name;
        let rest = spec_encode(s.skip(1));
        assert(spec_encode(s) == encode_line(t) + rest);
        assert(spec_encode(s) =~= content + seq!['\n'] + rest);
        assert(forall|i: int| 0 <= i < content.len() ==> content[i] != '\n') by {
            assert(line_free(s[0]));
            assert(forall|i: int|
                0 <= i < marker(t.category).len() ==> #[trigger] marker(t.category)[i] != '\n');
            assert(forall|i: int|
                0 <= i < content.len() ==> content[i] == (if i < marker(t.category).len() {
                    marker(t.category)[i]
                } else {
                    t.name[i - marker(t.category).len()]
                }));
        }
        lemma_split_at_break(content, rest);
        assert(split_lines(spec_encode(s)) == seq![content] + split_lines(rest));
        lemma_parse_marker(t.category, t.name);
        assert(TaskView { name: t.name, category: t.category } == t);
        let ls = seq![content] + split_lines(rest);
        assert(ls[0] == content);
        assert(ls.skip(1) =~= split_lines(rest));
        assert(decode_lines(ls) == seq![t] + decode_lines(split_lines(rest)));
        assert(forall|i: int|
            0 <= i < s.skip(1).len() ==> line_free(#[trigger] s.skip(1)[i]));
        lemma_round_trip(s.skip(1));
        assert(decode_lines(split_lines(rest)) == s.skip(1));
        assert(seq![t] + s.skip(1) =~= s);
    }
}

} // verus!
