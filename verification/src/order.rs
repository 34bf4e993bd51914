//! The one total order in which tasks are listed and traversed: priority
//! ascending (0 first), then creation time ascending, then identifier
//! ascending.

use vstd::prelude::*;

use crate::types::{learnings_view, Learning, LearningView, Task, TaskView};

verus! {

/// Strict lexicographic order on texts, character by character.
pub open spec fn text_lt(a: Seq<char>, b: Seq<char>) -> bool
    decreases a.len(),
{
    if b.len() == 0 {
        false
    } else if a.len() == 0 {
        true
    } else if a[0] != b[0] {
        a[0] < b[0]
    } else {
        text_lt(a.skip(1), b.skip(1))
    }
}

/// `a` comes strictly before `b` in the traversal order.
pub open spec fn task_lt(a: TaskView, b: TaskView) -> bool {
    ||| a.priority < b.priority
    ||| (a.priority == b.priority && a.created_at.before(b.created_at))
    ||| (a.priority == b.priority && a.created_at == b.created_at && text_lt(a.id, b.id))
}

/// Where `t` goes in the sorted sequence `s`: behind every element that
/// does not come after it.
pub open spec fn insert_pos(s: Seq<TaskView>, t: TaskView) -> int
    decreases s.len(),
{
    if s.len() == 0 {
        0
    } else if task_lt(t, s.last()) {
        insert_pos(s.drop_last(), t)
    } else {
        s.len() as int
    }
}

/// `s` in traversal order: each element in turn is put into the sorted
/// sequence of those before it.
pub open spec fn sorted(s: Seq<TaskView>) -> Seq<TaskView>
    decreases s.len(),
{
    if s.len() == 0 {
        Seq::empty()
    } else {
        let rest = sorted(s.drop_last());
        rest.insert(insert_pos(rest, s.last()), s.last())
    }
}

/// Every element comes before each later element with another key, that is,
/// no later element comes strictly before an earlier one.
pub open spec fn is_ordered(s: Seq<TaskView>) -> bool {
    forall|i: int, j: int| 0 <= i < j < s.len() ==> !task_lt(#[trigger] s[j], #[trigger] s[i])
}

/// The views of a list of tasks, in order.
pub open spec fn tasks_view(v: Seq<Task>) -> Seq<TaskView> {
    Seq::new(v.len(), |i: int| v[i]@)
}

pub proof fn lemma_insert_pos_bounds(s: Seq<TaskView>, t: TaskView)
    ensures
        0 <= insert_pos(s, t) <= s.len(),
    decreases s.len(),
{
    if s.len() > 0 && task_lt(t, s.last()) {
        lemma_insert_pos_bounds(s.drop_last(), t);
    }
}

/// Whether text `a` comes strictly before text `b`.
pub fn text_before(a: &str, b: &str) -> (r: bool)
    ensures
        r == text_lt(a@, b@),
{
    let la = a.unicode_len();
    let lb = b.unicode_len();
    let mut i: usize = 0;
    proof {
        assert(a@.skip(0) =~= a@);
        assert(b@.skip(0) =~= b@);
    }
    while i < la && i < lb
        invariant
            la == a@.len(),
            lb == b@.len(),
            i <= la,
            i <= lb,
            text_lt(a@, b@) == text_lt(a@.skip(i as int), b@.skip(i as int)),
        decreases la - i,
    {
        let ca = a.get_char(i);
        let cb = b.get_char(i);
        proof {
            let sa = a@.skip(i as int);
            let sb = b@.skip(i as int);
            assert(sa[0] == ca && sb[0] == cb);
            assert(sa.skip(1) =~= a@.skip(i + 1));
            assert(sb.skip(1) =~= b@.skip(i + 1));
        }
        if ca != cb {
            return ca < cb;
        }
        i += 1;
    }
    i < lb
}

/// Whether task `a` comes strictly before task `b` in the traversal order.
pub fn task_before(a: &Task, b: &Task) -> (r: bool)
    ensures
        r == task_lt(a@, b@),
{
    if a.priority != b.priority {
        return a.priority < b.priority;
    }
    if a.created_at.is_before(&b.created_at) {
        return true;
    }
    if b.created_at.is_before(&a.created_at) {
        return false;
    }
    text_before(a.id.as_str(), b.id.as_str())
}

/// Sorts tasks into the traversal order.
pub fn sort_tasks(tasks: Vec<Task>) -> (out: Vec<Task>)
    ensures
        tasks_view(out@) == sorted(tasks_view(tasks@)),
        forall|i: int| 0 <= i < out@.len() ==> tasks@.contains(#[trigger] out@[i]),
{
    let ghost input = tasks@;
    let mut rest = tasks;
    let mut out: Vec<Task> = Vec::new();
    let mut n: usize = 0;
    let total = rest.len();
    while rest.len() > 0
        invariant
            total == input.len(),
            n + rest@.len() == total,
            rest@ == input.skip(n as int),
            tasks_view(out@) == sorted(tasks_view(input).take(n as int)),
            out@.len() == n,
            forall|i: int| 0 <= i < out@.len() ==> input.contains(#[trigger] out@[i]),
        decreases rest@.len(),
    {
        let t = rest.remove(0);
        assert(t == input[n as int]);
        assert(rest@ =~= input.skip(n + 1));
        let mut p: usize = out.len();
        proof {
            assert(tasks_view(out@).take(p as int) =~= tasks_view(out@));
        }
        while p > 0 && task_before(&t, &out[p - 1])
            invariant
                p <= out@.len(),
                insert_pos(tasks_view(out@), t@) == insert_pos(tasks_view(out@).take(p as int), t@),
            decreases p,
        {
            proof {
                let s = tasks_view(out@).take(p as int);
                assert(s.last() == out@[p - 1]@);
                assert(s.drop_last() =~= tasks_view(out@).take(p - 1));
            }
            p -= 1;
        }
        proof {
            let s = tasks_view(out@).take(p as int);
            if p > 0 {
                assert(s.last() == out@[p - 1]@);
            }
            assert(insert_pos(s, t@) == p);
            let prefix = tasks_view(input).take(n + 1);
            assert(prefix.drop_last() =~= tasks_view(input).take(n as int));
            assert(prefix.last() == t@);
        }
        let ghost before = out@;
        out.insert(p, t);
        proof {
            assert(tasks_view(out@) =~= tasks_view(before).insert(p as int, t@));
            assert forall|i: int| 0 <= i < out@.len() implies input.contains(
                #[trigger] out@[i],
            ) by {
                if i < p {
                    assert(out@[i] == before[i]);
                } else if i == p {
                    assert(out@[i] == input[n as int]);
                } else {
                    assert(out@[i] == before[i - 1]);
                }
            }
        }
        n += 1;
    }
    proof {
        assert(tasks_view(input).take(n as int) =~= tasks_view(input));
    }
    out
}

/// Where `l` goes in the time-ordered sequence `s`: behind every element
/// that was not made after it.
pub open spec fn learning_pos(s: Seq<LearningView>, l: LearningView) -> int
    decreases s.len(),
{
    if s.len() == 0 {
        0
    } else if l.created_at.before(s.last().created_at) {
        learning_pos(s.drop_last(), l)
    } else {
        s.len() as int
    }
}

/// `s` by time of creation, oldest first; learnings of the same instant
/// keep their order.
pub open spec fn by_time(s: Seq<LearningView>) -> Seq<LearningView>
    decreases s.len(),
{
    if s.len() == 0 {
        Seq::empty()
    } else {
        let rest = by_time(s.drop_last());
        rest.insert(learning_pos(rest, s.last()), s.last())
    }
}

/// Ordering by time keeps every learning.
pub proof fn lemma_by_time_members(s: Seq<LearningView>)
    ensures
        by_time(s).len() == s.len(),
        forall|i: int| 0 <= i < s.len() ==> by_time(s).contains(#[trigger] s[i]),
    decreases s.len(),
{
    if s.len() > 0 {
        let front = s.drop_last();
        let rest = by_time(front);
        lemma_by_time_members(front);
        lemma_learning_pos_bounds(rest, s.last());
        let pos = learning_pos(rest, s.last());
        let out = rest.insert(pos, s.last());
        assert(out[pos] == s.last());
        assert forall|i: int| 0 <= i < s.len() implies out.contains(#[trigger] s[i]) by {
            if i < s.len() - 1 {
                assert(front[i] == s[i]);
                let j = choose|j: int| 0 <= j < rest.len() && rest[j] == front[i];
                if j < pos {
                    assert(out[j] == s[i]);
                } else {
                    assert(out[j + 1] == s[i]);
                }
            }
        }
    }
}

/// A learning goes to a place within the sequence or at its end.
pub proof fn lemma_learning_pos_bounds(s: Seq<LearningView>, l: LearningView)
    ensures
        0 <= learning_pos(s, l) <= s.len(),
    decreases s.len(),
{
    if s.len() > 0 && l.created_at.before(s.last().created_at) {
        lemma_learning_pos_bounds(s.drop_last(), l);
    }
}

/// Sorts learnings by time of creation, oldest first.
pub fn sort_learnings(learnings: Vec<Learning>) -> (out: Vec<Learning>)
    ensures
        learnings_view(out@) == by_time(learnings_view(learnings@)),
{
    let ghost input = learnings@;
    let mut rest = learnings;
    let mut out: Vec<Learning> = Vec::new();
    let mut n: usize = 0;
    let total = rest.len();
    proof {
        assert(learnings_view(input).take(0) =~= Seq::empty());
        assert(learnings_view(out@) =~= Seq::empty());
    }
    while rest.len() > 0
        invariant
            total == input.len(),
            n + rest@.len() == total,
            rest@ == input.skip(n as int),
            learnings_view(out@) == by_time(learnings_view(input).take(n as int)),
            out@.len() == n,
        decreases rest@.len(),
    {
        let l = rest.remove(0);
        assert(l == input[n as int]);
        assert(rest@ =~= input.skip(n + 1));
        let mut p: usize = out.len();
        proof {
            assert(learnings_view(out@).take(p as int) =~= learnings_view(out@));
        }
        while p > 0 && l.created_at.is_before(&out[p - 1].created_at)
            invariant
                p <= out@.len(),
                learning_pos(learnings_view(out@), l@) == learning_pos(
                    learnings_view(out@).take(p as int),
                    l@,
                ),
            decreases p,
        {
            proof {
                let s = learnings_view(out@).take(p as int);
                assert(s.last() == out@[p - 1]@);
                assert(s.drop_last() =~= learnings_view(out@).take(p - 1));
            }
            p -= 1;
        }
        proof {
            let s = learnings_view(out@).take(p as int);
            if p > 0 {
                assert(s.last() == out@[p - 1]@);
            }
            assert(learning_pos(s, l@) == p);
            let prefix = learnings_view(input).take(n + 1);
            assert(prefix.drop_last() =~= learnings_view(input).take(n as int));
            assert(prefix.last() == l@);
        }
        let ghost before = out@;
        out.insert(p, l);
        proof {
            assert(learnings_view(out@) =~= learnings_view(before).insert(p as int, l@));
        }
        n += 1;
    }
    proof {
        assert(learnings_view(input).take(n as int) =~= learnings_view(input));
    }
    out
}

/// Sorting keeps the members: what is in the sorted sequence was in the
/// sequence, and the other way round.
pub proof fn lemma_sorted_members(s: Seq<TaskView>)
    ensures
        forall|k: int| 0 <= k < sorted(s).len() ==> s.contains(#[trigger] sorted(s)[k]),
        forall|k: int| 0 <= k < s.len() ==> sorted(s).contains(#[trigger] s[k]),
        sorted(s).len() == s.len(),
    decreases s.len(),
{
    if s.len() > 0 {
        let rest = s.drop_last();
        let before = sorted(rest);
        let p = insert_pos(before, s.last());
        lemma_sorted_members(rest);
        lemma_insert_pos_bounds(before, s.last());
        let out = sorted(s);
        assert(out == before.insert(p, s.last()));
        assert forall|k: int| 0 <= k < out.len() implies s.contains(#[trigger] out[k]) by {
            if k < p {
                assert(out[k] == before[k]);
                assert(rest.contains(before[k]));
                let j = choose|j: int| 0 <= j < rest.len() && rest[j] == before[k];
                assert(s[j] == out[k]);
            } else if k == p {
                assert(s[s.len() - 1] == out[k]);
            } else {
                assert(out[k] == before[k - 1]);
                assert(rest.contains(before[k - 1]));
                let j = choose|j: int| 0 <= j < rest.len() && rest[j] == before[k - 1];
                assert(s[j] == out[k]);
            }
        }
        assert forall|k: int| 0 <= k < s.len() implies out.contains(#[trigger] s[k]) by {
            if k == s.len() - 1 {
                assert(out[p] == s[k]);
            } else {
                assert(rest[k] == s[k]);
                assert(before.contains(rest[k]));
                let j = choose|j: int| 0 <= j < before.len() && before[j] == s[k];
                if j < p {
                    assert(out[j] == s[k]);
                } else {
                    assert(out[j + 1] == s[k]);
                }
            }
        }
    }
}

// ----- the order is total -----

/// Of two texts one comes before the other, or they are the same.
pub proof fn lemma_text_total(a: Seq<char>, b: Seq<char>)
    ensures
        text_lt(a, b) || text_lt(b, a) || a == b,
    decreases a.len(),
{
    if a.len() == 0 || b.len() == 0 {
        if a.len() == 0 && b.len() == 0 {
            assert(a =~= b);
        }
    } else if a[0] == b[0] {
        lemma_text_total(a.skip(1), b.skip(1));
        if a.skip(1) == b.skip(1) {
            assert(a =~= seq![a[0]] + a.skip(1));
            assert(b =~= seq![b[0]] + b.skip(1));
        }
    }
}

/// No text comes before a text that comes before it.
pub proof fn lemma_text_asymmetric(a: Seq<char>, b: Seq<char>)
    requires
        text_lt(a, b),
    ensures
        !text_lt(b, a),
    decreases a.len(),
{
    if a.len() > 0 && b.len() > 0 && a[0] == b[0] {
        lemma_text_asymmetric(a.skip(1), b.skip(1));
    }
}

/// What comes before a text comes before what the text comes before.
pub proof fn lemma_text_transitive(a: Seq<char>, b: Seq<char>, c: Seq<char>)
    requires
        text_lt(a, b),
        text_lt(b, c),
    ensures
        text_lt(a, c),
    decreases a.len(),
{
    if a.len() > 0 && b.len() > 0 && c.len() > 0 {
        if a[0] == b[0] && b[0] == c[0] {
            lemma_text_transitive(a.skip(1), b.skip(1), c.skip(1));
        }
    }
}

/// The traversal order is a strict total order on tasks with different
/// identifiers: it is asymmetric and transitive, a task that does not
/// come after another does not come after what the other does not come
/// after, and of two tasks with different identifiers one comes first.
pub proof fn lemma_task_order(a: TaskView, b: TaskView, c: TaskView)
    ensures
        task_lt(a, b) ==> !task_lt(b, a),
        task_lt(a, b) && task_lt(b, c) ==> task_lt(a, c),
        !task_lt(b, a) && !task_lt(c, b) ==> !task_lt(c, a),
        a.id != b.id ==> task_lt(a, b) || task_lt(b, a),
{
    lemma_text_total(a.id, b.id);
    lemma_text_total(b.id, c.id);
    lemma_text_total(a.id, c.id);
    if text_lt(a.id, b.id) {
        lemma_text_asymmetric(a.id, b.id);
        if text_lt(b.id, c.id) {
            lemma_text_transitive(a.id, b.id, c.id);
        }
    }
    if text_lt(b.id, a.id) {
        lemma_text_asymmetric(b.id, a.id);
    }
    if text_lt(c.id, a.id) {
        lemma_text_asymmetric(c.id, a.id);
        if text_lt(a.id, b.id) {
            lemma_text_transitive(c.id, a.id, b.id);
        }
        if text_lt(b.id, c.id) {
            lemma_text_transitive(b.id, c.id, a.id);
        }
    }
    if text_lt(c.id, b.id) {
        lemma_text_asymmetric(c.id, b.id);
        if text_lt(b.id, a.id) {
            lemma_text_transitive(c.id, b.id, a.id);
        }
    }
    if text_lt(b.id, c.id) {
        lemma_text_asymmetric(b.id, c.id);
    }
    if text_lt(a.id, c.id) {
        lemma_text_asymmetric(a.id, c.id);
    }
}

/// Where an element is put: every element behind the place comes after
/// it, and the element before the place does not.
pub proof fn lemma_insert_pos(s: Seq<TaskView>, t: TaskView)
    ensures
        0 <= insert_pos(s, t) <= s.len(),
        forall|j: int| insert_pos(s, t) <= j < s.len() ==> task_lt(t, #[trigger] s[j]),
        insert_pos(s, t) > 0 ==> !task_lt(t, s[insert_pos(s, t) - 1]),
    decreases s.len(),
{
    if s.len() > 0 && task_lt(t, s.last()) {
        lemma_insert_pos(s.drop_last(), t);
        let p = insert_pos(s.drop_last(), t);
        assert forall|j: int| p <= j < s.len() implies task_lt(t, #[trigger] s[j]) by {
            if j < s.len() - 1 {
                assert(s.drop_last()[j] == s[j]);
            }
        }
        if p > 0 {
            assert(s.drop_last()[p - 1] == s[p - 1]);
        }
    }
}

/// The sorted sequence is in traversal order.
pub proof fn lemma_sorted_is_ordered(s: Seq<TaskView>)
    ensures
        is_ordered(sorted(s)),
    decreases s.len(),
{
    if s.len() > 0 {
        let rest = sorted(s.drop_last());
        let t = s.last();
        let p = insert_pos(rest, t);
        lemma_sorted_is_ordered(s.drop_last());
        lemma_insert_pos(rest, t);
        let out = rest.insert(p, t);
        assert forall|i: int, j: int| 0 <= i < j < out.len() implies !task_lt(
            #[trigger] out[j],
            #[trigger] out[i],
        ) by {
            if j < p {
                assert(out[i] == rest[i] && out[j] == rest[j]);
            } else if j == p {
                assert(out[i] == rest[i]);
                assert(out[j] == t);
                if i < p - 1 {
                    assert(!task_lt(rest[p - 1], rest[i]));
                }
                lemma_task_order(rest[i], rest[p - 1], t);
            } else if i == p {
                assert(out[j] == rest[j - 1]);
                assert(task_lt(t, rest[j - 1]));
                lemma_task_order(t, rest[j - 1], t);
            } else if i < p {
                assert(out[i] == rest[i] && out[j] == rest[j - 1]);
            } else {
                assert(out[i] == rest[i - 1] && out[j] == rest[j - 1]);
            }
        }
    }
}

/// Sorting rearranges: the sorted sequence holds each element as often as
/// the sequence does.
pub proof fn lemma_sorted_permutes(s: Seq<TaskView>)
    ensures
        sorted(s).to_multiset() == s.to_multiset(),
    decreases s.len(),
{
    if s.len() > 0 {
        let rest = sorted(s.drop_last());
        lemma_sorted_permutes(s.drop_last());
        lemma_insert_pos_bounds(rest, s.last());
        vstd::seq_lib::to_multiset_insert(rest, insert_pos(rest, s.last()), s.last());
        vstd::seq_lib::to_multiset_build(s.drop_last(), s.last());
        assert(s =~= s.drop_last().push(s.last()));
    } else {
        assert(sorted(s) =~= s);
    }
}

/// No two elements of the sequence have the same identifier.
pub open spec fn distinct_ids(s: Seq<TaskView>) -> bool {
    forall|i: int, j: int| 0 <= i < j < s.len() ==> (#[trigger] s[i]).id != (#[trigger] s[j]).id
}

/// Two sequences in traversal order that hold the same tasks, with no
/// identifier twice, are the same sequence.
pub proof fn lemma_ordered_unique(x: Seq<TaskView>, y: Seq<TaskView>)
    requires
        is_ordered(x),
        is_ordered(y),
        distinct_ids(x),
        x.to_multiset() == y.to_multiset(),
    ensures
        x == y,
    decreases x.len(),
{
    broadcast use vstd::multiset::group_multiset_axioms;

    vstd::seq_lib::to_multiset_len(x);
    vstd::seq_lib::to_multiset_len(y);
    if x.len() == 0 {
        assert(x =~= y);
    } else {
        vstd::seq_lib::to_multiset_contains(x, y[0]);
        vstd::seq_lib::to_multiset_contains(y, y[0]);
        vstd::seq_lib::to_multiset_contains(x, x[0]);
        vstd::seq_lib::to_multiset_contains(y, x[0]);
        assert(y.contains(y[0]));
        assert(x.contains(x[0]));
        let i = choose|i: int| 0 <= i < x.len() && x[i] == y[0];
        let j = choose|j: int| 0 <= j < y.len() && y[j] == x[0];
        if i > 0 && j > 0 {
            assert(!task_lt(x[i], x[0]));
            assert(!task_lt(y[j], y[0]));
            lemma_task_order(x[0], x[i], x[0]);
            assert(x[0].id != x[i].id);
            assert(false);
        }
        assert(x[0] == y[0]);
        let xt = x.remove(0);
        let yt = y.remove(0);
        vstd::seq_lib::to_multiset_remove(x, 0);
        vstd::seq_lib::to_multiset_remove(y, 0);
        assert forall|a: int, b: int| 0 <= a < b < xt.len() implies !task_lt(
            #[trigger] xt[b],
            #[trigger] xt[a],
        ) by {
            assert(xt[a] == x[a + 1] && xt[b] == x[b + 1]);
        }
        assert forall|a: int, b: int| 0 <= a < b < yt.len() implies !task_lt(
            #[trigger] yt[b],
            #[trigger] yt[a],
        ) by {
            assert(yt[a] == y[a + 1] && yt[b] == y[b + 1]);
        }
        assert forall|a: int, b: int| 0 <= a < b < xt.len() implies (#[trigger] xt[a]).id != (
        #[trigger] xt[b]).id by {
            assert(xt[a] == x[a + 1] && xt[b] == x[b + 1]);
        }
        lemma_ordered_unique(xt, yt);
        assert(x =~= seq![x[0]] + xt);
        assert(y =~= seq![y[0]] + yt);
    }
}

/// Sorting keeps identifiers apart.
pub proof fn lemma_sorted_distinct(s: Seq<TaskView>)
    requires
        distinct_ids(s),
    ensures
        distinct_ids(sorted(s)),
    decreases s.len(),
{
    if s.len() > 0 {
        let rest = sorted(s.drop_last());
        let t = s.last();
        let p = insert_pos(rest, t);
        assert(distinct_ids(s.drop_last())) by {
            assert forall|i: int, j: int| 0 <= i < j < s.drop_last().len() implies (
            #[trigger] s.drop_last()[i]).id != (#[trigger] s.drop_last()[j]).id by {
                assert(s[i].id != s[j].id);
            }
        }
        lemma_sorted_distinct(s.drop_last());
        lemma_sorted_members(s.drop_last());
        lemma_insert_pos_bounds(rest, t);
        let out = rest.insert(p, t);
        assert forall|k: int| 0 <= k < rest.len() implies (#[trigger] rest[k]).id != t.id by {
            assert(s.drop_last().contains(rest[k]));
            let m = choose|m: int| 0 <= m < s.drop_last().len() && s.drop_last()[m] == rest[k];
            assert(s[m].id != s[s.len() - 1].id);
        }
        assert forall|i: int, j: int| 0 <= i < j < out.len() implies (#[trigger] out[i]).id != (
        #[trigger] out[j]).id by {
            if j < p {
                assert(out[i] == rest[i] && out[j] == rest[j]);
            } else if j == p {
                assert(out[i] == rest[i]);
            } else if i == p {
                assert(out[j] == rest[j - 1]);
            } else if i < p {
                assert(out[i] == rest[i] && out[j] == rest[j - 1]);
            } else {
                assert(out[i] == rest[i - 1] && out[j] == rest[j - 1]);
            }
        }
    }
}

/// The order is deterministic: however the same tasks are stored, with no
/// identifier twice, they come out of the sorting in one and the same
/// sequence.
pub proof fn law_order_is_deterministic(a: Seq<TaskView>, b: Seq<TaskView>)
    requires
        distinct_ids(a),
        a.to_multiset() == b.to_multiset(),
    ensures
        sorted(a) == sorted(b),
        is_ordered(sorted(a)),
{
    lemma_sorted_is_ordered(a);
    lemma_sorted_is_ordered(b);
    lemma_sorted_permutes(a);
    lemma_sorted_permutes(b);
    lemma_sorted_distinct(a);
    lemma_ordered_unique(sorted(a), sorted(b));
}

} // verus!
