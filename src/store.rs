//! The tasks document and the tags document: their text, how it is read,
//! and the laws that connect the two.

use vstd::prelude::*;

use crate::json::{
    all_ws, at, bool_at, bool_text, digits, is_ws, lemma_bool, lemma_nl_ws,
    lemma_number, lemma_quoted, lemma_split, lemma_str_array, lemma_token, lemma_token_not, lemma_token_differs, nl,
    number_at, prepend, quoted, quoted_at, skip_ws, str_array, str_array_at, token, value_end,
    value_end_exec,
    bool_exec, chars_of, lemma_prepend_push, number_exec, push_all, quoted_exec, str_array_exec,
    text_of, token_char_exec, token_exec, write_digits, write_nl, write_quoted, write_str_array,
    skip_ws_exec,
};
use crate::task::{strs_view, tasks_view, Task, TaskView};

verus! {

/// Why the tasks or the tags could not be loaded or saved.
#[derive(Debug, PartialEq)]
pub enum StoreError {
    /// A file that exists could not be read.
    ReadError(String),
    /// The text is not a document of the expected shape.
    ParseError,
    /// A file could not be written.
    WriteError(String),
}

pub open spec fn key_id() -> Seq<char> {
    seq!['"', 'i', 'd', '"']
}

pub open spec fn key_description() -> Seq<char> {
    seq!['"', 'd', 'e', 's', 'c', 'r', 'i', 'p', 't', 'i', 'o', 'n', '"']
}

pub open spec fn key_done() -> Seq<char> {
    seq!['"', 'd', 'o', 'n', 'e', '"']
}

pub open spec fn key_tags() -> Seq<char> {
    seq!['"', 't', 'a', 'g', 's', '"']
}

pub open spec fn key_tasks() -> Seq<char> {
    seq!['"', 't', 'a', 's', 'k', 's', '"']
}

/// After optional whitespace, the quoted key `k` and a colon.
pub open spec fn field_at(s: Seq<char>, i: int, k: Seq<char>) -> Option<int> {
    match token(s, i, k) {
        Some(a) => token(s, a, seq![':']),
        None => None,
    }
}

/// The fields of a task object read so far.
pub struct Fields {
    pub id: Option<u32>,
    pub description: Option<Seq<char>>,
    pub done: Option<bool>,
    pub tags: Option<Seq<Seq<char>>>,
}

pub open spec fn no_fields() -> Fields {
    Fields { id: None, description: None, done: None, tags: None }
}

/// One `"key": value` member of a task object at `i`, added to the fields
/// `f`; a known key that was already read is refused, and a member with any
/// other key is skipped.
#[verifier::opaque]
pub open spec fn member_at(s: Seq<char>, i: int, f: Fields) -> Option<(Fields, int)> {
    match field_at(s, i, key_id()) {
        Some(p) => if f.id is Some {
            None
        } else {
            match number_at(s, p) {
                Some((v, e)) => Some(
                    (Fields { id: Some(v), description: f.description, done: f.done, tags: f.tags }, e),
                ),
                None => None,
            }
        },
        None => match field_at(s, i, key_description()) {
            Some(p) => if f.description is Some {
                None
            } else {
                match quoted_at(s, p) {
                    Some((v, e)) => Some(
                        (Fields { id: f.id, description: Some(v), done: f.done, tags: f.tags }, e),
                    ),
                    None => None,
                }
            },
            None => match field_at(s, i, key_done()) {
                Some(p) => if f.done is Some {
                    None
                } else {
                    match bool_at(s, p) {
                        Some((v, e)) => Some(
                            (
                                Fields {
                                    id: f.id,
                                    description: f.description,
                                    done: Some(v),
                                    tags: f.tags,
                                },
                                e,
                            ),
                        ),
                        None => None,
                    }
                },
                None => match field_at(s, i, key_tags()) {
                    Some(p) => if f.tags is Some {
                        None
                    } else {
                        match str_array_at(s, p) {
                            Some((v, e)) => Some(
                                (
                                    Fields {
                                        id: f.id,
                                        description: f.description,
                                        done: f.done,
                                        tags: Some(v),
                                    },
                                    e,
                                ),
                            ),
                            None => None,
                        }
                    },
                    None => match quoted_at(s, i) {
                        Some((_k, p)) => match token(s, p, seq![':']) {
                            Some(c) => match value_end(s, c) {
                                Some(e) => Some((f, e)),
                                None => None,
                            },
                            None => None,
                        },
                        None => None,
                    },
                },
            },
        },
    }
}

/// The members of a task object from `i` through its closing brace, added
/// to the fields `f`.
pub open spec fn members_at(s: Seq<char>, i: int, f: Fields) -> Option<(Fields, int)>
    decreases s.len() - i,
{
    match member_at(s, i, f) {
        None => None,
        Some((g, b)) => match token(s, b, seq![',']) {
            Some(c) => if i < c <= s.len() {
                members_at(s, c, g)
            } else {
                None
            },
            None => match token(s, b, seq!['}']) {
                Some(c) => Some((g, c)),
                None => None,
            },
        },
    }
}

/// After optional whitespace, a task object: the members id, description,
/// done and tags, each once, in any order, among any other members.
#[verifier::opaque]
pub open spec fn task_at(s: Seq<char>, i: int) -> Option<(TaskView, int)> {
    match token(s, i, seq!['{']) {
        None => None,
        Some(a) => match members_at(s, a, no_fields()) {
            None => None,
            Some((g, e)) => if g.id is Some && g.description is Some && g.done is Some
                && g.tags is Some {
                Some(
                    (
                        TaskView {
                            id: g.id->0,
                            description: g.description->0,
                            done: g.done->0,
                            tags: g.tags->0,
                        },
                        e,
                    ),
                )
            } else {
                None
            },
        },
    }
}

/// The items of a non-empty array of tasks, from `i` (after `[`) through `]`.
pub open spec fn task_items_at(s: Seq<char>, i: int) -> Option<(Seq<TaskView>, int)>
    decreases s.len() - i,
{
    match task_at(s, i) {
        None => None,
        Some((x, b)) => match token(s, b, seq![',']) {
            Some(c) => if i < c <= s.len() {
                prepend(seq![x], task_items_at(s, c))
            } else {
                None
            },
            None => match token(s, b, seq![']']) {
                Some(c) => Some((seq![x], c)),
                None => None,
            },
        },
    }
}

/// After optional whitespace, an array of tasks.
pub open spec fn task_array_at(s: Seq<char>, i: int) -> Option<(Seq<TaskView>, int)> {
    match token(s, i, seq!['[']) {
        None => None,
        Some(a) => match token(s, a, seq![']']) {
            Some(b) => Some((Seq::empty(), b)),
            None => task_items_at(s, a),
        },
    }
}

/// One member of the tasks document at `i`: the `tasks` array, which must
/// not have been read before, or a member with any other key, skipped.
#[verifier::opaque]
pub open spec fn doc_member_at(s: Seq<char>, i: int, found: Option<Seq<TaskView>>) -> Option<
    (Option<Seq<TaskView>>, int),
> {
    match field_at(s, i, key_tasks()) {
        Some(p) => if found is Some {
            None
        } else {
            match task_array_at(s, p) {
                Some((ts, e)) => Some((Some(ts), e)),
                None => None,
            }
        },
        None => match quoted_at(s, i) {
            Some((_k, p)) => match token(s, p, seq![':']) {
                Some(c) => match value_end(s, c) {
                    Some(e) => Some((found, e)),
                    None => None,
                },
                None => None,
            },
            None => None,
        },
    }
}

/// The members of the tasks document from `i` through its closing brace.
pub open spec fn doc_members_at(s: Seq<char>, i: int, found: Option<Seq<TaskView>>) -> Option<
    (Option<Seq<TaskView>>, int),
>
    decreases s.len() - i,
{
    match doc_member_at(s, i, found) {
        None => None,
        Some((g, b)) => match token(s, b, seq![',']) {
            Some(c) => if i < c <= s.len() {
                doc_members_at(s, c, g)
            } else {
                None
            },
            None => match token(s, b, seq!['}']) {
                Some(c) => Some((g, c)),
                None => None,
            },
        },
    }
}

/// The tasks that a tasks document holds: an object with a member `tasks`,
/// an array of task objects, among any other members; `None` for any other
/// text.
pub open spec fn tasks_doc(s: Seq<char>) -> Option<Seq<TaskView>> {
    match token(s, 0, seq!['{']) {
        None => None,
        Some(a) => match doc_members_at(s, a, None) {
            Some((Some(ts), e)) => if skip_ws(s, e) == s.len() {
                Some(ts)
            } else {
                None
            },
            _ => None,
        },
    }
}

/// The tags that a tags document holds: a bare array of strings; `None`
/// for any other text.
pub open spec fn tags_doc(s: Seq<char>) -> Option<Seq<Seq<char>>> {
    match str_array_at(s, 0) {
        None => None,
        Some((tags, e)) => if skip_ws(s, e) == s.len() {
            Some(tags)
        } else {
            None
        },
    }
}

/// A line at indent `d` that opens the field with key `k`.
pub open spec fn field_text(k: Seq<char>, d: nat) -> Seq<char> {
    nl(d) + k + seq![':', ' ']
}

/// The tags field of a task object and its closing brace at indent `d`.
pub open spec fn tags_part(t: TaskView, d: nat) -> Seq<char> {
    field_text(key_tags(), d + 2) + (str_array(t.tags, d + 2) + (nl(d) + seq!['}']))
}

/// The done field of a task object and what follows it.
pub open spec fn done_part(t: TaskView, d: nat) -> Seq<char> {
    field_text(key_done(), d + 2) + (bool_text(t.done) + (seq![','] + tags_part(t, d)))
}

/// The description field of a task object and what follows it.
pub open spec fn description_part(t: TaskView, d: nat) -> Seq<char> {
    field_text(key_description(), d + 2) + (quoted(t.description) + (seq![','] + done_part(t, d)))
}

/// A task object whose closing brace stands at indent `d`.
#[verifier::opaque]
pub open spec fn task_text(t: TaskView, d: nat) -> Seq<char> {
    seq!['{'] + (field_text(key_id(), d + 2) + (digits(t.id as nat) + (seq![','] + description_part(
        t,
        d,
    ))))
}

/// The items of a non-empty array of tasks, one per line at indent `d + 2`.
pub open spec fn task_items(ts: Seq<TaskView>, d: nat) -> Seq<char>
    decreases ts.len(),
{
    if ts.len() <= 1 {
        nl(d + 2) + task_text(ts[0], d + 2)
    } else {
        nl(d + 2) + task_text(ts[0], d + 2) + seq![','] + task_items(ts.drop_first(), d)
    }
}

/// An array of tasks whose closing bracket stands at indent `d`.
pub open spec fn task_array(ts: Seq<TaskView>, d: nat) -> Seq<char> {
    if ts.len() == 0 {
        seq!['[', ']']
    } else {
        seq!['['] + task_items(ts, d) + nl(d) + seq![']']
    }
}

/// The text of the tasks file.
pub open spec fn tasks_text(ts: Seq<TaskView>) -> Seq<char> {
    seq!['{'] + field_text(key_tasks(), 2) + task_array(ts, 2) + nl(0) + seq!['}']
}

/// The text of the tags file.
pub open spec fn tags_text(tags: Seq<Seq<char>>) -> Seq<char> {
    str_array(tags, 0)
}

proof fn lemma_punct(s: Seq<char>, p: int, c: char, rest: Seq<char>)
    requires
        at(s, p, seq![c] + rest),
        !is_ws(c),
    ensures
        token(s, p, seq![c]) == Some(p + 1),
        at(s, p + 1, rest),
{
    let e = Seq::<char>::empty();
    lemma_split(s, p, seq![c], rest);
    assert(e + seq![c] =~= seq![c]);
    lemma_token(s, p, e, seq![c]);
}

proof fn lemma_field(s: Seq<char>, i: int, k: Seq<char>, d: nat, rest: Seq<char>)
    requires
        at(s, i, field_text(k, d) + rest),
        k.len() > 0,
        k[0] == '"',
    ensures
        field_at(s, i, k) == Some(i + field_text(k, d).len() - 1),
        at(s, i + field_text(k, d).len() - 1, seq![' '] + rest),
{
    lemma_nl_ws(d);
    assert(field_text(k, d) + rest =~= (nl(d) + k) + (seq![':'] + (seq![' '] + rest)));
    lemma_split(s, i, nl(d) + k, seq![':'] + (seq![' '] + rest));
    lemma_split(s, i, nl(d), k);
    lemma_token(s, i, nl(d), k);
    lemma_punct(s, i + nl(d).len() + k.len(), ':', seq![' '] + rest);
}

/// A member whose key is `k_here` is not read as one with key `k_other`.
proof fn lemma_other_key(
    s: Seq<char>,
    p: int,
    k_here: Seq<char>,
    k_other: Seq<char>,
    idx: int,
    d: nat,
    tail: Seq<char>,
)
    requires
        at(s, p, field_text(k_here, d) + tail),
        0 <= idx < k_here.len(),
        idx < k_other.len(),
        k_here[0] == '"',
        k_other[idx] != k_here[idx],
    ensures
        field_at(s, p, k_other) is None,
{
    let rest = k_here + (seq![':', ' '] + tail);
    assert(field_text(k_here, d) + tail =~= nl(d) + rest);
    lemma_nl_ws(d);
    lemma_token_differs(s, p, nl(d), rest, k_other, idx);
}

proof fn lemma_member_id(s: Seq<char>, p: int, f: Fields, t: TaskView, d: nat)
    requires
        at(
            s,
            p,
            field_text(key_id(), d + 2) + (digits(t.id as nat) + (seq![','] + description_part(
                t,
                d,
            ))),
        ),
        f.id is None,
    ensures
        member_at(s, p, f) == Some(
            (
                Fields { id: Some(t.id), description: f.description, done: f.done, tags: f.tags },
                p + field_text(key_id(), d + 2).len() + digits(t.id as nat).len(),
            ),
        ),
        at(
            s,
            p + field_text(key_id(), d + 2).len() + digits(t.id as nat).len(),
            seq![','] + description_part(t, d),
        ),
{
    reveal(member_at);
    let sp = seq![' '];
    assert(all_ws(sp));
    let dd = digits(t.id as nat);
    let r2 = seq![','] + description_part(t, d);
    lemma_field(s, p, key_id(), d + 2, dd + r2);
    let p1 = p + field_text(key_id(), d + 2).len() - 1;
    assert(sp + (dd + r2) =~= (sp + dd) + r2);
    lemma_split(s, p1, sp + dd, r2);
    let p2 = p1 + 1 + dd.len();
    assert(s[p2 + 0] == r2[0]);
    lemma_number(s, p1, sp, t.id);
}

proof fn lemma_member_description(s: Seq<char>, p: int, f: Fields, t: TaskView, d: nat)
    requires
        at(s, p, description_part(t, d)),
        f.description is None,
    ensures
        member_at(s, p, f) == Some(
            (
                Fields { id: f.id, description: Some(t.description), done: f.done, tags: f.tags },
                p + field_text(key_description(), d + 2).len() + quoted(t.description).len(),
            ),
        ),
        at(
            s,
            p + field_text(key_description(), d + 2).len() + quoted(t.description).len(),
            seq![','] + done_part(t, d),
        ),
{
    reveal(member_at);
    let sp = seq![' '];
    assert(all_ws(sp));
    let q = quoted(t.description);
    let r = seq![','] + done_part(t, d);
    lemma_other_key(s, p, key_description(), key_id(), 1, d + 2, q + r);
    lemma_field(s, p, key_description(), d + 2, q + r);
    let p1 = p + field_text(key_description(), d + 2).len() - 1;
    assert(sp + (q + r) =~= (sp + q) + r);
    lemma_split(s, p1, sp + q, r);
    lemma_quoted(s, p1, sp, t.description);
}

proof fn lemma_member_done(s: Seq<char>, p: int, f: Fields, t: TaskView, d: nat)
    requires
        at(s, p, done_part(t, d)),
        f.done is None,
    ensures
        member_at(s, p, f) == Some(
            (
                Fields { id: f.id, description: f.description, done: Some(t.done), tags: f.tags },
                p + field_text(key_done(), d + 2).len() + bool_text(t.done).len(),
            ),
        ),
        at(
            s,
            p + field_text(key_done(), d + 2).len() + bool_text(t.done).len(),
            seq![','] + tags_part(t, d),
        ),
{
    reveal(member_at);
    let sp = seq![' '];
    assert(all_ws(sp));
    let b = bool_text(t.done);
    let r = seq![','] + tags_part(t, d);
    lemma_other_key(s, p, key_done(), key_id(), 1, d + 2, b + r);
    lemma_other_key(s, p, key_done(), key_description(), 2, d + 2, b + r);
    lemma_field(s, p, key_done(), d + 2, b + r);
    let p1 = p + field_text(key_done(), d + 2).len() - 1;
    assert(sp + (b + r) =~= (sp + b) + r);
    lemma_split(s, p1, sp + b, r);
    lemma_bool(s, p1, sp, t.done);
}

proof fn lemma_member_tags(s: Seq<char>, p: int, f: Fields, t: TaskView, d: nat)
    requires
        at(s, p, tags_part(t, d)),
        f.tags is None,
    ensures
        member_at(s, p, f) == Some(
            (
                Fields { id: f.id, description: f.description, done: f.done, tags: Some(t.tags) },
                p + field_text(key_tags(), d + 2).len() + str_array(t.tags, d + 2).len(),
            ),
        ),
        at(
            s,
            p + field_text(key_tags(), d + 2).len() + str_array(t.tags, d + 2).len(),
            nl(d) + seq!['}'],
        ),
{
    reveal(member_at);
    let sp = seq![' '];
    assert(all_ws(sp));
    let a = str_array(t.tags, d + 2);
    let r = nl(d) + seq!['}'];
    assert(tags_part(t, d) == field_text(key_tags(), d + 2) + (a + r));
    lemma_other_key(s, p, key_tags(), key_id(), 1, d + 2, a + r);
    lemma_other_key(s, p, key_tags(), key_description(), 1, d + 2, a + r);
    lemma_other_key(s, p, key_tags(), key_done(), 1, d + 2, a + r);
    lemma_field(s, p, key_tags(), d + 2, a + r);
    let p1 = p + field_text(key_tags(), d + 2).len() - 1;
    assert(sp + (a + r) =~= (sp + a) + r);
    lemma_split(s, p1, sp + a, r);
    lemma_str_array(s, p1, sp, t.tags, d + 2);
}

#[verifier::rlimit(40)]
proof fn lemma_task(s: Seq<char>, i: int, w: Seq<char>, t: TaskView, d: nat)
    requires
        at(s, i, w + task_text(t, d)),
        all_ws(w),
    ensures
        task_at(s, i) == Some((t, i + w.len() + task_text(t, d).len())),
{
    reveal(task_text);
    reveal(task_at);
    let dd = digits(t.id as nat);
    let r0 = field_text(key_id(), d + 2) + (dd + (seq![','] + description_part(t, d)));
    assert(w + task_text(t, d) =~= (w + seq!['{']) + r0);
    lemma_split(s, i, w + seq!['{'], r0);
    lemma_token(s, i, w, seq!['{']);
    let p0 = i + w.len() + 1;
    let f0 = no_fields();
    let f1 = Fields { id: Some(t.id), description: None, done: None, tags: None };
    let f2 = Fields { id: Some(t.id), description: Some(t.description), done: None, tags: None };
    let f3 = Fields {
        id: Some(t.id),
        description: Some(t.description),
        done: Some(t.done),
        tags: None,
    };
    let f4 = Fields {
        id: Some(t.id),
        description: Some(t.description),
        done: Some(t.done),
        tags: Some(t.tags),
    };
    lemma_member_id(s, p0, f0, t, d);
    let q1 = p0 + field_text(key_id(), d + 2).len() + dd.len();
    lemma_punct(s, q1, ',', description_part(t, d));
    lemma_member_description(s, q1 + 1, f1, t, d);
    let q2 = q1 + 1 + field_text(key_description(), d + 2).len() + quoted(t.description).len();
    lemma_punct(s, q2, ',', done_part(t, d));
    lemma_member_done(s, q2 + 1, f2, t, d);
    let q3 = q2 + 1 + field_text(key_done(), d + 2).len() + bool_text(t.done).len();
    lemma_punct(s, q3, ',', tags_part(t, d));
    lemma_member_tags(s, q3 + 1, f3, t, d);
    let q4 = q3 + 1 + field_text(key_tags(), d + 2).len() + str_array(t.tags, d + 2).len();
    lemma_nl_ws(d);
    lemma_token_not(s, q4, nl(d), seq!['}'], seq![',']);
    lemma_token(s, q4, nl(d), seq!['}']);
    let end = q4 + d + 2;
    assert(members_at(s, q3 + 1, f3) == Some((f4, end)));
    assert(members_at(s, q2 + 1, f2) == Some((f4, end)));
    assert(members_at(s, q1 + 1, f1) == Some((f4, end)));
    assert(members_at(s, p0, f0) == Some((f4, end)));
}

proof fn lemma_task_text_first(t: TaskView, d: nat)
    ensures
        task_text(t, d).len() >= 1,
        task_text(t, d)[0] == '{',
{
    reveal(task_text);
}

proof fn lemma_task_items(s: Seq<char>, i: int, ts: Seq<TaskView>, d: nat)
    requires
        ts.len() >= 1,
        at(s, i, task_items(ts, d) + nl(d) + seq![']']),
    ensures
        task_items_at(s, i) == Some((ts, i + task_items(ts, d).len() + d + 2)),
    decreases ts.len(),
{
    let x = ts[0];
    let w = nl(d + 2);
    let q = task_text(x, d + 2);
    lemma_nl_ws(d);
    lemma_nl_ws(d + 2);
    let b = i + w.len() + q.len();
    if ts.len() == 1 {
        assert(task_items(ts, d) + nl(d) + seq![']'] =~= (w + q) + (nl(d) + seq![']']));
        lemma_split(s, i, w + q, nl(d) + seq![']']);
        lemma_task(s, i, w, x, d + 2);
        lemma_token_not(s, b, nl(d), seq![']'], seq![',']);
        lemma_token(s, b, nl(d), seq![']']);
        assert(seq![x] =~= ts);
    } else {
        let rest = ts.drop_first();
        let tail = task_items(rest, d) + nl(d) + seq![']'];
        assert(task_items(ts, d) + nl(d) + seq![']'] =~= (w + q) + (seq![','] + tail));
        lemma_split(s, i, w + q, seq![','] + tail);
        lemma_task(s, i, w, x, d + 2);
        lemma_punct(s, b, ',', tail);
        lemma_task_items(s, b + 1, rest, d);
        assert(seq![x] + rest =~= ts);
    }
}

proof fn lemma_task_array(s: Seq<char>, i: int, w: Seq<char>, ts: Seq<TaskView>, d: nat)
    requires
        at(s, i, w + task_array(ts, d)),
        all_ws(w),
    ensures
        task_array_at(s, i) == Some((ts, i + w.len() + task_array(ts, d).len())),
{
    let a = i + w.len() + 1;
    let e = Seq::<char>::empty();
    assert(e + seq![']'] =~= seq![']']);
    if ts.len() == 0 {
        assert(w + task_array(ts, d) =~= (w + seq!['[']) + seq![']']);
        lemma_split(s, i, w + seq!['['], seq![']']);
        lemma_token(s, i, w, seq!['[']);
        assert(at(s, a, e + seq![']']));
        lemma_token(s, a, e, seq![']']);
        assert(ts =~= Seq::<TaskView>::empty());
    } else {
        let body = task_items(ts, d) + nl(d) + seq![']'];
        assert(w + task_array(ts, d) =~= (w + seq!['[']) + body);
        lemma_split(s, i, w + seq!['['], body);
        lemma_token(s, i, w, seq!['[']);
        lemma_nl_ws(d + 2);
        let x = ts[0];
        let r = body.subrange((d + 3) as int, body.len() as int);
        if ts.len() == 1 {
            assert(body =~= nl(d + 2) + (task_text(x, d + 2) + nl(d) + seq![']']));
        } else {
            assert(body =~= nl(d + 2) + (task_text(x, d + 2) + seq![','] + task_items(
                ts.drop_first(),
                d,
            ) + nl(d) + seq![']']));
        }
        assert(body =~= nl(d + 2) + r);
        lemma_task_text_first(x, d + 2);
        assert(r[0] == '{');
        lemma_token_not(s, a, nl(d + 2), r, seq![']']);
        lemma_task_items(s, a, ts, d);
    }
}

proof fn lemma_at_self(s: Seq<char>)
    ensures
        at(s, 0, Seq::<char>::empty() + s),
{
    assert(Seq::<char>::empty() + s =~= s);
}

proof fn lemma_doc_member(s: Seq<char>, i: int, ts: Seq<TaskView>, rest: Seq<char>)
    requires
        at(s, i, field_text(key_tasks(), 2) + (task_array(ts, 2) + rest)),
    ensures
        doc_member_at(s, i, None) == Some(
            (Some(ts), i + field_text(key_tasks(), 2).len() + task_array(ts, 2).len()),
        ),
        at(s, i + field_text(key_tasks(), 2).len() + task_array(ts, 2).len(), rest),
{
    reveal(doc_member_at);
    let arr = task_array(ts, 2);
    lemma_field(s, i, key_tasks(), 2, arr + rest);
    let b = i + field_text(key_tasks(), 2).len() - 1;
    assert(seq![' '] + (arr + rest) =~= (seq![' '] + arr) + rest);
    lemma_split(s, b, seq![' '] + arr, rest);
    assert(all_ws(seq![' ']));
    lemma_task_array(s, b, seq![' '], ts, 2);
}

/// Saving tasks and loading them back gives the same tasks, field for
/// field and in the same order.
pub proof fn lemma_tasks_round_trip(ts: Seq<TaskView>)
    ensures
        tasks_doc(tasks_text(ts)) == Some(ts),
{
    let s = tasks_text(ts);
    let arr = task_array(ts, 2);
    let r1 = arr + (nl(0) + seq!['}']);
    lemma_at_self(s);
    assert(Seq::<char>::empty() + s =~= seq!['{'] + (field_text(key_tasks(), 2) + r1));
    lemma_punct(s, 0, '{', field_text(key_tasks(), 2) + r1);
    lemma_doc_member(s, 1, ts, nl(0) + seq!['}']);
    let c = (1 + field_text(key_tasks(), 2).len() + arr.len()) as int;
    lemma_nl_ws(0);
    lemma_token_not(s, c, nl(0), seq!['}'], seq![',']);
    lemma_token(s, c, nl(0), seq!['}']);
    assert(doc_members_at(s, 1, None) == Some((Some(ts), s.len() as int)));
}

/// Saving tags and loading them back gives the same tags in the same order.
pub proof fn lemma_tags_round_trip(tags: Seq<Seq<char>>)
    ensures
        tags_doc(tags_text(tags)) == Some(tags),
{
    let s = tags_text(tags);
    lemma_at_self(s);
    assert(all_ws(Seq::<char>::empty()));
    lemma_str_array(s, 0, Seq::<char>::empty(), tags, 0);
}

/// Saving the same tasks twice writes the same text.
pub proof fn lemma_tasks_text_deterministic(a: Seq<TaskView>, b: Seq<TaskView>)
    requires
        a == b,
    ensures
        tasks_text(a) == tasks_text(b),
{
}

/// Saving the same tags twice writes the same text.
pub proof fn lemma_tags_text_deterministic(a: Seq<Seq<char>>, b: Seq<Seq<char>>)
    requires
        a == b,
    ensures
        tags_text(a) == tags_text(b),
{
}

fn field_exec(s: &[char], i: usize, k: &[char]) -> (r: Option<usize>)
    requires
        i <= s@.len(),
    ensures
        match r {
            Some(j) => field_at(s@, i as int, k@) == Some(j as int) && j <= s@.len(),
            None => field_at(s@, i as int, k@) is None,
        },
{
    match token_exec(s, i, k) {
        Some(a) => token_char_exec(s, a, ':'),
        None => None,
    }
}

/// The model of the fields read so far.
pub open spec fn fields_of(
    id: Option<u32>,
    description: Option<String>,
    done: Option<bool>,
    tags: Option<Vec<String>>,
) -> Fields {
    Fields {
        id,
        description: match description {
            Some(x) => Some(x@),
            None => None,
        },
        done,
        tags: match tags {
            Some(v) => Some(strs_view(v@)),
            None => None,
        },
    }
}

/// A task object at `i`.
fn task_exec(s: &[char], i: usize) -> (r: Option<(Task, usize)>)
    requires
        i <= s@.len(),
    ensures
        match r {
            Some((t, e)) => task_at(s@, i as int) == Some((t@, e as int)) && e <= s@.len(),
            None => task_at(s@, i as int) is None,
        },
{
    proof {
        reveal(task_at);
        reveal(member_at);
    }
    let k_id: [char; 4] = ['"', 'i', 'd', '"'];
    let k_desc: [char; 13] = ['"', 'd', 'e', 's', 'c', 'r', 'i', 'p', 't', 'i', 'o', 'n', '"'];
    let k_done: [char; 6] = ['"', 'd', 'o', 'n', 'e', '"'];
    let k_tags: [char; 6] = ['"', 't', 'a', 'g', 's', '"'];
    assert(k_id@ == key_id());
    assert(k_desc@ == key_description());
    assert(k_done@ == key_done());
    assert(k_tags@ == key_tags());
    let a = match token_char_exec(s, i, '{') {
        Some(a) => a,
        None => {
            return None;
        },
    };
    let mut id: Option<u32> = None;
    let mut description: Option<String> = None;
    let mut done: Option<bool> = None;
    let mut tags: Option<Vec<String>> = None;
    let mut p = a;
    let mut end: usize = 0;
    loop
        invariant_except_break
            members_at(s@, a as int, no_fields()) == members_at(
                s@,
                p as int,
                fields_of(id, description, done, tags),
            ),
        invariant
            p <= s@.len(),
            k_id@ == key_id(),
            k_desc@ == key_description(),
            k_done@ == key_done(),
            k_tags@ == key_tags(),
            token(s@, i as int, seq!['{']) == Some(a as int),
        ensures
            end <= s@.len(),
            members_at(s@, a as int, no_fields()) == Some(
                (fields_of(id, description, done, tags), end as int),
            ),
        decreases s@.len() - p,
    {
        proof {
            reveal(task_at);
            reveal(member_at);
        }
        let ghost f = fields_of(id, description, done, tags);
        let mut q: usize = 0;
        if let Some(fp) = field_exec(s, p, &k_id) {
            if id.is_some() {
                return None;
            }
            match number_exec(s, fp) {
                Some((v, e)) => {
                    id = Some(v);
                    q = e;
                },
                None => {
                    return None;
                },
            }
        } else if let Some(fp) = field_exec(s, p, &k_desc) {
            if description.is_some() {
                return None;
            }
            match quoted_exec(s, fp) {
                Some((v, e)) => {
                    description = Some(text_of(v.as_slice()));
                    q = e;
                },
                None => {
                    return None;
                },
            }
        } else if let Some(fp) = field_exec(s, p, &k_done) {
            if done.is_some() {
                return None;
            }
            match bool_exec(s, fp) {
                Some((v, e)) => {
                    done = Some(v);
                    q = e;
                },
                None => {
                    return None;
                },
            }
        } else if let Some(fp) = field_exec(s, p, &k_tags) {
            if tags.is_some() {
                return None;
            }
            match str_array_exec(s, fp) {
                Some((v, e)) => {
                    tags = Some(v);
                    q = e;
                },
                None => {
                    return None;
                },
            }
        } else {
            q = match skip_member_exec(s, p) {
                Some(e) => e,
                None => {
                    return None;
                },
            };
        }
        assert(member_at(s@, p as int, f) == Some((fields_of(id, description, done, tags), q as int)));
        match token_char_exec(s, q, ',') {
            Some(c) => {
                if !(p < c) {
                    return None;
                }
                p = c;
            },
            None => match token_char_exec(s, q, '}') {
                Some(c) => {
                    end = c;
                    break ;
                },
                None => {
                    return None;
                },
            },
        }
    }
    match (id, description, done, tags) {
        (Some(id), Some(description), Some(done), Some(tags)) => Some(
            (Task { id, description, done, tags }, end),
        ),
        _ => None,
    }
}

/// An array of tasks at `i`.
fn task_array_exec(s: &[char], i: usize) -> (r: Option<(Vec<Task>, usize)>)
    requires
        i <= s@.len(),
    ensures
        match r {
            Some((v, e)) => task_array_at(s@, i as int) == Some((tasks_view(v@), e as int)) && e
                <= s@.len(),
            None => task_array_at(s@, i as int) is None,
        },
{
    let a = match token_char_exec(s, i, '[') {
        Some(a) => a,
        None => {
            return None;
        },
    };
    let mut out: Vec<Task> = Vec::new();
    if let Some(b) = token_char_exec(s, a, ']') {
        assert(tasks_view(out@) =~= Seq::<TaskView>::empty());
        return Some((out, b));
    }
    let mut p = a;
    assert(prepend(tasks_view(out@), task_items_at(s@, p as int)) == task_items_at(s@, p as int))
        by {
        if let Some((r, e)) = task_items_at(s@, p as int) {
            assert(tasks_view(out@) + r =~= r);
        }
    }
    loop
        invariant
            p <= s@.len(),
            task_array_at(s@, i as int) == prepend(tasks_view(out@), task_items_at(s@, p as int)),
        decreases s@.len() - p,
    {
        let (x, b) = match task_exec(s, p) {
            Some(q) => q,
            None => {
                return None;
            },
        };
        let ghost o0 = out@;
        let ghost xv = x@;
        out.push(x);
        assert(tasks_view(out@) =~= tasks_view(o0).push(xv));
        match token_char_exec(s, b, ',') {
            Some(c) => {
                if !(p < c) {
                    return None;
                }
                proof {
                    lemma_prepend_push(tasks_view(o0), xv, task_items_at(s@, c as int));
                }
                p = c;
            },
            None => match token_char_exec(s, b, ']') {
                Some(c) => {
                    assert(tasks_view(o0) + seq![xv] =~= tasks_view(out@));
                    return Some((out, c));
                },
                None => {
                    return None;
                },
            },
        }
    }
}

/// A member `"key": value` at `i` with any key, skipped; the position after it.
fn skip_member_exec(s: &[char], i: usize) -> (r: Option<usize>)
    requires
        i <= s@.len(),
    ensures
        match r {
            Some(e) => e <= s@.len() && match quoted_at(s@, i as int) {
                Some((_k, p)) => match token(s@, p, seq![':']) {
                    Some(c) => value_end(s@, c) == Some(e as int),
                    None => false,
                },
                None => false,
            },
            None => match quoted_at(s@, i as int) {
                Some((_k, p)) => match token(s@, p, seq![':']) {
                    Some(c) => value_end(s@, c) is None,
                    None => true,
                },
                None => true,
            },
        },
{
    match quoted_exec(s, i) {
        Some((_k, p)) => match token_char_exec(s, p, ':') {
            Some(c) => value_end_exec(s, c),
            None => None,
        },
        None => None,
    }
}

/// Reads the text of a tasks file.
pub fn decode_tasks(text: &str) -> (r: Result<Vec<Task>, StoreError>)
    ensures
        match r {
            Ok(v) => tasks_doc(text@) == Some(tasks_view(v@)),
            Err(e) => tasks_doc(text@) is None && e is ParseError,
        },
{
    let cs = chars_of(text);
    let s = cs.as_slice();
    let k: [char; 7] = ['"', 't', 'a', 's', 'k', 's', '"'];
    let ks: &[char] = &k;
    assert(ks@ == key_tasks());
    let a = match token_char_exec(s, 0, '{') {
        Some(a) => a,
        None => {
            return Err(StoreError::ParseError);
        },
    };
    let mut found: Option<Vec<Task>> = None;
    let mut p = a;
    let mut end: usize = 0;
    loop
        invariant_except_break
            doc_members_at(s@, a as int, None) == doc_members_at(s@, p as int, found_view(found)),
        invariant
            p <= s@.len(),
            s@ == text@,
            ks@ == key_tasks(),
            token(s@, 0, seq!['{']) == Some(a as int),
        ensures
            end <= s@.len(),
            doc_members_at(s@, a as int, None) == Some((found_view(found), end as int)),
        decreases s@.len() - p,
    {
        proof {
            reveal(doc_member_at);
        }
        let ghost g = found_view(found);
        let mut q: usize = 0;
        if let Some(fp) = field_exec(s, p, ks) {
            if found.is_some() {
                return Err(StoreError::ParseError);
            }
            match task_array_exec(s, fp) {
                Some((ts, e)) => {
                    found = Some(ts);
                    q = e;
                },
                None => {
                    return Err(StoreError::ParseError);
                },
            }
        } else {
            q = match skip_member_exec(s, p) {
                Some(e) => e,
                None => {
                    return Err(StoreError::ParseError);
                },
            };
        }
        assert(doc_member_at(s@, p as int, g) == Some((found_view(found), q as int)));
        match token_char_exec(s, q, ',') {
            Some(c) => {
                if !(p < c) {
                    return Err(StoreError::ParseError);
                }
                p = c;
            },
            None => match token_char_exec(s, q, '}') {
                Some(c) => {
                    end = c;
                    break ;
                },
                None => {
                    return Err(StoreError::ParseError);
                },
            },
        }
    }
    match found {
        Some(ts) => if skip_ws_exec(s, end) == s.len() {
            Ok(ts)
        } else {
            Err(StoreError::ParseError)
        },
        None => Err(StoreError::ParseError),
    }
}

/// The model of the tasks array read so far, if any.
pub open spec fn found_view(found: Option<Vec<Task>>) -> Option<Seq<TaskView>> {
    match found {
        Some(v) => Some(tasks_view(v@)),
        None => None,
    }
}

/// Reads the text of a tags file.
pub fn decode_tags(text: &str) -> (r: Result<Vec<String>, StoreError>)
    ensures
        match r {
            Ok(v) => tags_doc(text@) == Some(strs_view(v@)),
            Err(e) => tags_doc(text@) is None && e is ParseError,
        },
{
    let cs = chars_of(text);
    let s = cs.as_slice();
    match str_array_exec(s, 0) {
        Some((tags, e)) => if skip_ws_exec(s, e) == s.len() {
            Ok(tags)
        } else {
            Err(StoreError::ParseError)
        },
        None => Err(StoreError::ParseError),
    }
}

/// The tasks stored in a file with these contents; `None` stands for a
/// file that does not exist, which holds no tasks.
pub fn tasks_from_contents(contents: Option<String>) -> (r: Result<Vec<Task>, StoreError>)
    ensures
        contents is None ==> (r matches Ok(v) && v@.len() == 0),
        contents matches Some(text) ==> match r {
            Ok(v) => tasks_doc(text@) == Some(tasks_view(v@)),
            Err(e) => tasks_doc(text@) is None && e is ParseError,
        },
{
    match contents {
        None => Ok(Vec::new()),
        Some(text) => decode_tasks(text.as_str()),
    }
}

/// The tags stored in a file with these contents; `None` stands for a
/// file that does not exist, which holds no tags.
pub fn tags_from_contents(contents: Option<String>) -> (r: Result<Vec<String>, StoreError>)
    ensures
        contents is None ==> (r matches Ok(v) && v@.len() == 0),
        contents matches Some(text) ==> match r {
            Ok(v) => tags_doc(text@) == Some(strs_view(v@)),
            Err(e) => tags_doc(text@) is None && e is ParseError,
        },
{
    match contents {
        None => Ok(Vec::new()),
        Some(text) => decode_tags(text.as_str()),
    }
}

fn write_field(out: &mut Vec<char>, k: &[char], d: usize)
    ensures
        final(out)@ == old(out)@ + field_text(k@, d as nat),
{
    write_nl(out, d);
    push_all(out, k);
    push_all(out, &[':', ' ']);
    assert(final(out)@ =~= old(out)@ + field_text(k@, d as nat));
}

fn write_tags_part(out: &mut Vec<char>, t: &Task, d: usize)
    requires
        d < 90,
    ensures
        final(out)@ == old(out)@ + tags_part(t@, d as nat),
{
    let k: [char; 6] = ['"', 't', 'a', 'g', 's', '"'];
    assert(k@ == key_tags());
    write_field(out, &k, d + 2);
    write_str_array(out, &t.tags, d + 2);
    write_nl(out, d);
    out.push('}');
    assert(final(out)@ =~= old(out)@ + tags_part(t@, d as nat));
}

fn write_done_part(out: &mut Vec<char>, t: &Task, d: usize)
    requires
        d < 90,
    ensures
        final(out)@ == old(out)@ + done_part(t@, d as nat),
{
    let k: [char; 6] = ['"', 'd', 'o', 'n', 'e', '"'];
    assert(k@ == key_done());
    write_field(out, &k, d + 2);
    if t.done {
        push_all(out, &['t', 'r', 'u', 'e']);
    } else {
        push_all(out, &['f', 'a', 'l', 's', 'e']);
    }
    out.push(',');
    write_tags_part(out, t, d);
    assert(final(out)@ =~= old(out)@ + done_part(t@, d as nat));
}

fn write_description_part(out: &mut Vec<char>, t: &Task, d: usize)
    requires
        d < 90,
    ensures
        final(out)@ == old(out)@ + description_part(t@, d as nat),
{
    let k: [char; 13] = ['"', 'd', 'e', 's', 'c', 'r', 'i', 'p', 't', 'i', 'o', 'n', '"'];
    assert(k@ == key_description());
    write_field(out, &k, d + 2);
    write_quoted(out, t.description.as_str());
    out.push(',');
    write_done_part(out, t, d);
    assert(final(out)@ =~= old(out)@ + description_part(t@, d as nat));
}

fn write_task(out: &mut Vec<char>, t: &Task, d: usize)
    requires
        d < 90,
    ensures
        final(out)@ == old(out)@ + task_text(t@, d as nat),
{
    reveal(task_text);
    let k: [char; 4] = ['"', 'i', 'd', '"'];
    assert(k@ == key_id());
    out.push('{');
    write_field(out, &k, d + 2);
    write_digits(out, t.id);
    out.push(',');
    write_description_part(out, t, d);
    assert(final(out)@ =~= old(out)@ + task_text(t@, d as nat));
}

proof fn lemma_task_items_push(ts: Seq<TaskView>, x: TaskView, d: nat)
    requires
        ts.len() >= 1,
    ensures
        task_items(ts.push(x), d) == task_items(ts, d) + seq![','] + nl(d + 2) + task_text(x, d + 2),
    decreases ts.len(),
{
    assert(ts.push(x)[0] == ts[0]);
    if ts.len() == 1 {
        assert(ts.push(x).drop_first() =~= seq![x]);
        assert(task_items(seq![x], d) == nl(d + 2) + task_text(seq![x][0], d + 2));
        assert(task_items(ts.push(x), d) =~= task_items(ts, d) + seq![','] + nl(d + 2) + task_text(
            x,
            d + 2,
        ));
    } else {
        assert(ts.push(x).drop_first() =~= ts.drop_first().push(x));
        lemma_task_items_push(ts.drop_first(), x, d);
        assert(task_items(ts.push(x), d) =~= task_items(ts, d) + seq![','] + nl(d + 2) + task_text(
            x,
            d + 2,
        ));
    }
}

fn write_task_array(out: &mut Vec<char>, ts: &Vec<Task>, d: usize)
    requires
        d < 80,
    ensures
        final(out)@ == old(out)@ + task_array(tasks_view(ts@), d as nat),
{
    let ghost v = tasks_view(ts@);
    if ts.len() == 0 {
        push_all(out, &['[', ']']);
        return;
    }
    out.push('[');
    write_nl(out, d + 2);
    write_task(out, &ts[0], d + 2);
    assert(v.take(1) =~= seq![v[0]]);
    assert(task_items(v.take(1), d as nat) =~= nl(d as nat + 2) + task_text(v[0], d as nat + 2));
    assert(out@ =~= old(out)@ + seq!['['] + task_items(v.take(1), d as nat));
    let mut k: usize = 1;
    while k < ts.len()
        invariant
            1 <= k <= ts@.len(),
            d < 80,
            v == tasks_view(ts@),
            out@ == old(out)@ + seq!['['] + task_items(v.take(k as int), d as nat),
        decreases ts@.len() - k,
    {
        out.push(',');
        write_nl(out, d + 2);
        write_task(out, &ts[k], d + 2);
        proof {
            assert(v.take(k as int + 1) =~= v.take(k as int).push(v[k as int]));
            lemma_task_items_push(v.take(k as int), v[k as int], d as nat);
            assert(out@ =~= old(out)@ + seq!['['] + task_items(v.take(k as int + 1), d as nat));
        }
        k += 1;
    }
    write_nl(out, d);
    out.push(']');
    assert(v.take(k as int) =~= v);
    assert(out@ =~= old(out)@ + task_array(v, d as nat));
}

/// The text of the tasks file that holds these tasks: an object whose one
/// field, `tasks`, is the array of task objects, indented by two spaces.
pub fn encode_tasks(tasks: &Vec<Task>) -> (r: String)
    ensures
        r@ == tasks_text(tasks_view(tasks@)),
{
    let k: [char; 7] = ['"', 't', 'a', 's', 'k', 's', '"'];
    assert(k@ == key_tasks());
    let mut out: Vec<char> = Vec::new();
    out.push('{');
    write_field(&mut out, &k, 2);
    write_task_array(&mut out, tasks, 2);
    write_nl(&mut out, 0);
    out.push('}');
    assert(out@ =~= tasks_text(tasks_view(tasks@)));
    text_of(out.as_slice())
}

/// The text of the tags file that holds these tags: an array of strings,
/// indented by two spaces.
pub fn encode_tags(tags: &Vec<String>) -> (r: String)
    ensures
        r@ == tags_text(strs_view(tags@)),
{
    let mut out: Vec<char> = Vec::new();
    write_str_array(&mut out, tags, 0);
    assert(out@ =~= tags_text(strs_view(tags@)));
    text_of(out.as_slice())
}

} // verus!
