//! Operations on the task list and the tag list.

use vstd::prelude::*;

use crate::json::{chars_of, push_all, text_of};

use crate::task::{strs_view, tasks_view, Task, TaskView};

verus! {

/// Some task of the list carries this id.
pub open spec fn has_id(ts: Seq<TaskView>, id: u32) -> bool {
    exists|i: int| 0 <= i < ts.len() && ts[i].id == id
}

/// No two tasks of the list share an id.
pub open spec fn ids_unique(ts: Seq<TaskView>) -> bool {
    forall|i: int, j: int| 0 <= i < ts.len() && 0 <= j < ts.len() && i != j ==> ts[i].id != ts[j].id
}

/// No string occurs twice in the list.
pub open spec fn no_duplicates(s: Seq<Seq<char>>) -> bool {
    forall|i: int, j: int| 0 <= i < s.len() && 0 <= j < s.len() && i != j ==> s[i] != s[j]
}

/// The largest id of the list, 0 for an empty list.
pub open spec fn max_id(ts: Seq<TaskView>) -> nat
    decreases ts.len(),
{
    if ts.len() == 0 {
        0
    } else {
        let m = max_id(ts.drop_last());
        if ts.last().id as nat > m {
            ts.last().id as nat
        } else {
            m
        }
    }
}

/// The list without the tasks that carry `id`, in their order.
pub open spec fn without_id(ts: Seq<TaskView>, id: u32) -> Seq<TaskView>
    decreases ts.len(),
{
    if ts.len() == 0 {
        ts
    } else if ts.last().id == id {
        without_id(ts.drop_last(), id)
    } else {
        without_id(ts.drop_last(), id).push(ts.last())
    }
}

/// The same task, marked done.
pub open spec fn completed(t: TaskView) -> TaskView {
    TaskView { id: t.id, description: t.description, done: true, tags: t.tags }
}

/// Adds `tag` to the tag list unless it is already there.
pub fn add_tag(tags: &mut Vec<String>, tag: String) -> (added: bool)
    ensures
        added == !strs_view(old(tags)@).contains(tag@),
        strs_view(final(tags)@) == if added {
            strs_view(old(tags)@).push(tag@)
        } else {
            strs_view(old(tags)@)
        },
        no_duplicates(strs_view(old(tags)@)) ==> no_duplicates(strs_view(final(tags)@)),
{
    let ghost s0 = strs_view(tags@);
    let mut i: usize = 0;
    while i < tags.len()
        invariant
            i <= tags@.len(),
            strs_view(tags@) == s0,
            forall|j: int| 0 <= j < i ==> s0[j] != tag@,
        decreases tags@.len() - i,
    {
        if tags[i] == tag {
            assert(s0[i as int] == tag@);
            return false;
        }
        i += 1;
    }
    assert(!s0.contains(tag@));
    tags.push(tag);
    assert(strs_view(tags@) =~= s0.push(tag@));
    true
}

/// The id for a task added to the list: one more than the largest id in
/// use, or `None` when that would not fit in a `u32`.
pub fn next_id(tasks: &Vec<Task>) -> (r: Option<u32>)
    ensures
        max_id(tasks_view(tasks@)) < u32::MAX ==> r == Some((max_id(tasks_view(tasks@)) + 1) as u32),
        max_id(tasks_view(tasks@)) >= u32::MAX ==> r is None,
{
    let mut m: u32 = 0;
    let mut i: usize = 0;
    while i < tasks.len()
        invariant
            i <= tasks@.len(),
            m as nat == max_id(tasks_view(tasks@).take(i as int)),
        decreases tasks@.len() - i,
    {
        assert(tasks_view(tasks@).take(i as int + 1).drop_last() =~= tasks_view(tasks@).take(
            i as int,
        ));
        if tasks[i].id > m {
            m = tasks[i].id;
        }
        i += 1;
    }
    assert(tasks_view(tasks@).take(i as int) =~= tasks_view(tasks@));
    if m == u32::MAX {
        None
    } else {
        Some(m + 1)
    }
}

proof fn lemma_max_id_bounds(ts: Seq<TaskView>, k: int)
    requires
        0 <= k < ts.len(),
    ensures
        ts[k].id as nat <= max_id(ts),
    decreases ts.len(),
{
    if k < ts.len() - 1 {
        lemma_max_id_bounds(ts.drop_last(), k);
    }
}

/// Adds a new task, not yet done, with the next id; returns that id, or
/// `None` with the list unchanged when no id is left.
pub fn add_task(tasks: &mut Vec<Task>, description: String, tags: Vec<String>) -> (r: Option<u32>)
    ensures
        r == (if max_id(tasks_view(old(tasks)@)) < u32::MAX {
            Some((max_id(tasks_view(old(tasks)@)) + 1) as u32)
        } else {
            None::<u32>
        }),
        r is None ==> final(tasks)@ == old(tasks)@,
        r matches Some(id) ==> tasks_view(final(tasks)@) == tasks_view(old(tasks)@).push(
            TaskView { id, description: description@, done: false, tags: strs_view(tags@) },
        ),
        r matches Some(id) ==> !has_id(tasks_view(old(tasks)@), id),
        ids_unique(tasks_view(old(tasks)@)) ==> ids_unique(tasks_view(final(tasks)@)),
{
    match next_id(tasks) {
        None => None,
        Some(id) => {
            let ghost s0 = tasks_view(tasks@);
            proof {
                assert forall|k: int| 0 <= k < s0.len() implies s0[k].id != id by {
                    lemma_max_id_bounds(s0, k);
                }
            }
            tasks.push(Task::new(id, description, tags));
            assert(tasks_view(tasks@) =~= s0.push(tasks@.last()@));
            Some(id)
        },
    }
}

/// Marks done the first task that carries `id`; returns whether there was one.
pub fn complete_task(tasks: &mut Vec<Task>, id: u32) -> (found: bool)
    ensures
        found == has_id(tasks_view(old(tasks)@), id),
        !found ==> final(tasks)@ == old(tasks)@,
        found ==> exists|k: int|
            0 <= k < old(tasks)@.len() && old(tasks)@[k].id == id && (forall|j: int|
                0 <= j < k ==> old(tasks)@[j].id != id) && tasks_view(final(tasks)@)
                == tasks_view(old(tasks)@).update(k, completed(old(tasks)@[k]@)),
        ids_unique(tasks_view(old(tasks)@)) ==> tasks_view(final(tasks)@).len() == old(tasks)@.len()
            && forall|i: int|
            0 <= i < old(tasks)@.len() ==> #[trigger] tasks_view(final(tasks)@)[i] == if old(
                tasks,
            )@[i].id == id {
                completed(old(tasks)@[i]@)
            } else {
                old(tasks)@[i]@
            },
{
    let ghost v_orig = tasks@;
    let ghost s0 = tasks_view(tasks@);
    let mut i: usize = 0;
    while i < tasks.len()
        invariant
            i <= tasks@.len(),
            tasks@ == v_orig,
            v_orig == old(tasks)@,
            s0 == tasks_view(v_orig),
            forall|j: int| 0 <= j < i ==> s0[j].id != id,
        decreases tasks@.len() - i,
    {
        assert(s0[i as int] == tasks@[i as int]@);
        if tasks[i].id == id {
            let ghost v0 = tasks@;
            assert(s0[i as int].id == id);
            let mut t = tasks.remove(i);
            t.done = true;
            tasks.insert(i, t);
            assert(tasks@ =~= v0.update(i as int, t));
            assert(tasks_view(tasks@) =~= s0.update(i as int, completed(v0[i as int]@)));
            assert(s0[i as int].id == id);
            assert forall|j: int| 0 <= j < i implies v_orig[j].id != id by {
                assert(s0[j] == v_orig[j]@);
            }
            return true;
        }
        i += 1;
    }
    assert(!has_id(s0, id));
    false
}

proof fn lemma_without_absent(ts: Seq<TaskView>, id: u32)
    requires
        !has_id(ts, id),
    ensures
        without_id(ts, id) == ts,
    decreases ts.len(),
{
    if ts.len() > 0 {
        assert(!has_id(ts.drop_last(), id)) by {
            if has_id(ts.drop_last(), id) {
                let i = choose|i: int| 0 <= i < ts.len() - 1 && ts.drop_last()[i].id == id;
                assert(ts[i].id == id);
            }
        }
        lemma_without_absent(ts.drop_last(), id);
        assert(ts.last().id != id);
        assert(ts.drop_last().push(ts.last()) =~= ts);
    }
}

proof fn lemma_without_present(ts: Seq<TaskView>, id: u32)
    requires
        ids_unique(ts),
        has_id(ts, id),
    ensures
        without_id(ts, id).len() == ts.len() - 1,
    decreases ts.len(),
{
    let p = ts.drop_last();
    assert(ids_unique(p));
    if ts.last().id == id {
        assert(!has_id(p, id)) by {
            if has_id(p, id) {
                let i = choose|i: int| 0 <= i < p.len() && p[i].id == id;
                assert(ts[i].id == ts[ts.len() - 1].id);
            }
        }
        lemma_without_absent(p, id);
    } else {
        let i = choose|i: int| 0 <= i < ts.len() && ts[i].id == id;
        assert(p[i].id == id);
        lemma_without_present(p, id);
    }
}

proof fn lemma_without_keeps(ts: Seq<TaskView>, id: u32, k: int)
    requires
        0 <= k < ts.len(),
        ts[k].id != id,
    ensures
        without_id(ts, id).contains(ts[k]),
    decreases ts.len(),
{
    let w = without_id(ts.drop_last(), id);
    if k == ts.len() - 1 {
        assert(without_id(ts, id) == w.push(ts[k]));
        assert(without_id(ts, id)[w.len() as int] == ts[k]);
    } else {
        lemma_without_keeps(ts.drop_last(), id, k);
        let j = choose|j: int| 0 <= j < w.len() && w[j] == ts[k];
        if ts.last().id != id {
            assert(without_id(ts, id)[j] == ts[k]);
        }
    }
}

/// Removes every task that carries `id`; returns whether there was one.
pub fn remove_task(tasks: &mut Vec<Task>, id: u32) -> (found: bool)
    ensures
        found == has_id(tasks_view(old(tasks)@), id),
        tasks_view(final(tasks)@) == without_id(tasks_view(old(tasks)@), id),
        !found ==> tasks_view(final(tasks)@) == tasks_view(old(tasks)@),
        found && ids_unique(tasks_view(old(tasks)@)) ==> final(tasks)@.len() == old(tasks)@.len()
            - 1,
        forall|k: int|
            0 <= k < old(tasks)@.len() && old(tasks)@[k].id != id ==> tasks_view(
                final(tasks)@,
            ).contains(#[trigger] old(tasks)@[k]@),
{
    let ghost v_orig = tasks@;
    let ghost s0 = tasks_view(tasks@);
    let mut kept: Vec<Task> = Vec::new();
    let mut found = false;
    let mut i: usize = 0;
    while i < tasks.len()
        invariant
            i <= tasks@.len(),
            s0 == tasks_view(tasks@),
            tasks_view(kept@) == without_id(s0.take(i as int), id),
            found == has_id(s0.take(i as int), id),
        decreases tasks@.len() - i,
    {
        let ghost k0 = kept@;
        assert(s0.take(i as int + 1).drop_last() =~= s0.take(i as int));
        if tasks[i].id != id {
            kept.push(tasks[i].duplicate());
            assert(tasks_view(kept@) =~= tasks_view(k0).push(s0[i as int]));
        } else {
            found = true;
        }
        proof {
            let a = s0.take(i as int);
            let b = s0.take(i as int + 1);
            if has_id(b, id) {
                let j = choose|j: int| 0 <= j < b.len() && #[trigger] b[j].id == id;
                if j < i {
                    assert(a[j].id == id);
                }
            }
            if has_id(a, id) {
                let j = choose|j: int| 0 <= j < a.len() && #[trigger] a[j].id == id;
                assert(b[j].id == id);
            }
            if s0[i as int].id == id {
                assert(b[i as int].id == id);
            }
        }
        i += 1;
    }
    assert(s0.take(i as int) =~= s0);
    *tasks = kept;
    proof {
        if !found {
            lemma_without_absent(s0, id);
        }
        if found && ids_unique(s0) {
            lemma_without_present(s0, id);
        }
        assert forall|k: int|
            0 <= k < v_orig.len() && v_orig[k].id != id implies without_id(s0, id).contains(
            #[trigger] v_orig[k]@,
        ) by {
            assert(s0[k] == v_orig[k]@);
            lemma_without_keeps(s0, id, k);
        }
    }
    found
}

/// A character with the Unicode `White_Space` property.
pub open spec fn is_space(c: char) -> bool {
    let v = c as u32;
    (9 <= v && v <= 13) || v == 32 || v == 0x85 || v == 0xA0 || v == 0x1680 || (0x2000 <= v && v
        <= 0x200A) || v == 0x2028 || v == 0x2029 || v == 0x202F || v == 0x205F || v == 0x3000
}

/// Text that holds nothing but white space.
pub open spec fn is_blank(s: Seq<char>) -> bool {
    forall|k: int| 0 <= k < s.len() ==> is_space(#[trigger] s[k])
}

/// Whether `s` holds nothing but white space.
pub fn blank(s: &str) -> (r: bool)
    ensures
        r == is_blank(s@),
{
    let cs = chars_of(s);
    let mut k: usize = 0;
    while k < cs.len()
        invariant
            cs@ == s@,
            k <= cs@.len(),
            forall|j: int| 0 <= j < k ==> is_space(#[trigger] cs@[j]),
        decreases cs@.len() - k,
    {
        let v = cs[k] as u32;
        if !((9 <= v && v <= 13) || v == 32 || v == 0x85 || v == 0xA0 || v == 0x1680 || (0x2000
            <= v && v <= 0x200A) || v == 0x2028 || v == 0x2029 || v == 0x202F || v == 0x205F || v
            == 0x3000) {
            assert(!is_space(cs@[k as int]));
            return false;
        }
        k += 1;
    }
    true
}

/// One entry while new tags are being typed in: a blank entry ends the
/// entering and leaves the tags as they are (the result is `false`); any
/// other entry is added unless it is already there (the result is `true`).
pub fn add_entered_tag(tags: &mut Vec<String>, entry: String) -> (more: bool)
    ensures
        more == !is_blank(entry@),
        !more ==> final(tags)@ == old(tags)@,
        more ==> strs_view(final(tags)@) == if strs_view(old(tags)@).contains(entry@) {
            strs_view(old(tags)@)
        } else {
            strs_view(old(tags)@).push(entry@)
        },
        no_duplicates(strs_view(old(tags)@)) ==> no_duplicates(strs_view(final(tags)@)),
{
    if blank(entry.as_str()) {
        false
    } else {
        add_tag(tags, entry);
        true
    }
}

/// `s` padded with spaces on the right to at least `w` characters.
pub open spec fn padded(s: Seq<char>, w: nat) -> Seq<char> {
    if s.len() >= w {
        s
    } else {
        s + Seq::new((w - s.len()) as nat, |_k: int| ' ')
    }
}

/// The tags laid out in rows of `columns` cells of 15 characters, each row
/// ended by a line break (the last one only when it is full).
pub open spec fn tag_grid(tags: Seq<Seq<char>>, columns: nat) -> Seq<char>
    decreases tags.len(),
{
    if tags.len() == 0 {
        Seq::empty()
    } else {
        tag_grid(tags.drop_last(), columns) + padded(tags.last(), 15) + if tags.len() % columns
            == 0 {
            seq!['\n']
        } else {
            Seq::empty()
        }
    }
}

/// Lays the tags out in rows of `columns` cells of 15 characters.
pub fn format_tags(tags: &[String], columns: usize) -> (r: String)
    requires
        columns > 0 || tags@.len() == 0,
    ensures
        r@ == tag_grid(strs_view(tags@), columns as nat),
{
    let ghost v = strs_view(tags@);
    let mut out: Vec<char> = Vec::new();
    let mut i: usize = 0;
    while i < tags.len()
        invariant
            i <= tags@.len(),
            columns > 0 || tags@.len() == 0,
            v == strs_view(tags@),
            out@ == tag_grid(v.take(i as int), columns as nat),
        decreases tags@.len() - i,
    {
        let ghost o0 = out@;
        let cs = chars_of(tags[i].as_str());
        push_all(&mut out, cs.as_slice());
        let mut n: usize = cs.len();
        while n < 15
            invariant
                cs@.len() <= n <= 15 || (n == cs@.len() && n >= 15),
                out@ == o0 + cs@ + Seq::new((n - cs@.len()) as nat, |_k: int| ' '),
            decreases 15 - n,
        {
            out.push(' ');
            assert(out@ =~= o0 + cs@ + Seq::new((n + 1 - cs@.len()) as nat, |_k: int| ' '));
            n += 1;
        }
        assert(o0 + cs@ + Seq::new((n - cs@.len()) as nat, |_k: int| ' ') =~= o0 + padded(
            v[i as int],
            15,
        ));
        if (i + 1) % columns == 0 {
            out.push('\n');
        }
        proof {
            let t = v.take(i as int + 1);
            assert(t.drop_last() =~= v.take(i as int));
            assert(t.last() == v[i as int]);
            assert(out@ =~= tag_grid(t, columns as nat));
        }
        i += 1;
    }
    assert(v.take(i as int) =~= v);
    text_of(out.as_slice())
}

} // verus!
