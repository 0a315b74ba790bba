//! What the state-inspection tool computes: the status listing, the view
//! of one task, and which tasks a retry resets.
use crate::state::{StateStore, StateStoreExt, TaskStatus, TaskSuccessors, JsonStateStore, entries_map, entry_ids, lemma_entries_map_dom, lemma_entries_map_index, map_count, is_pending, is_failed, is_completed, is_skipped, lookup};
use crate::text::{debug_text, debug_string, views, TaskIdSet, lex_lt, str_lt, digits, u64_to_string, lemma_lex_total, lemma_lex_transitive};
use vstd::string::*;
use vstd::prelude::*;

verus! {

/// `p` walks from task to dependent at every step, in at least one step.
pub open spec fn is_succ_path(succ: Map<Seq<char>, Seq<Seq<char>>>, p: Seq<Seq<char>>) -> bool {
    &&& p.len() >= 2
    &&& forall|k: int| 0 <= k < p.len() - 1 ==> succ.contains_key(#[trigger] p[k]) && succ[p[k]].contains(p[k + 1])
}

/// The tasks reachable from `start` in one step or more.
pub open spec fn downstream_of(succ: Map<Seq<char>, Seq<Seq<char>>>, start: Set<Seq<char>>) -> Set<Seq<char>> {
    Set::new(|x: Seq<char>| exists|p: Seq<Seq<char>>| #[trigger] is_succ_path(succ, p) && start.contains(p[0]) && p[p.len() - 1] == x)
}

/// A dependent of a start task, or of a task reachable from one, is reachable.
pub proof fn lemma_extend(succ: Map<Seq<char>, Seq<Seq<char>>>, st: Set<Seq<char>>, x: Seq<char>, d: Seq<char>)
    requires
        st.contains(x) || downstream_of(succ, st).contains(x),
        succ.contains_key(x),
        succ[x].contains(d),
    ensures
        downstream_of(succ, st).contains(d),
{
    if st.contains(x) {
        let p = seq![x, d];
        assert(p[0] == x && p[1] == d);
        assert(is_succ_path(succ, p));
    } else {
        let p = choose|p: Seq<Seq<char>>| #[trigger] is_succ_path(succ, p) && st.contains(p[0]) && p[p.len() - 1] == x;
        let q = p.push(d);
        assert forall|k: int| 0 <= k < q.len() - 1 implies succ.contains_key(#[trigger] q[k]) && succ[q[k]].contains(q[k + 1]) by {
            if k < p.len() - 1 {
                assert(q[k] == p[k] && q[k + 1] == p[k + 1]);
            } else {
                assert(q[k] == x && q[k + 1] == d);
            }
        }
        assert(is_succ_path(succ, q));
        assert(q[0] == p[0]);
    }
}

/// In a set closed under dependents that holds the start tasks, every task
/// a path reaches in one step or more lies in `visited`.
proof fn lemma_closed(succ: Map<Seq<char>, Seq<Seq<char>>>, st: Set<Seq<char>>, visited: Set<Seq<char>>, p: Seq<Seq<char>>, k: int)
    requires
        forall|x: Seq<char>, j: int| (st.contains(x) || visited.contains(x)) && #[trigger] succ.contains_key(x) && 0 <= j < succ[x].len() ==> visited.contains(#[trigger] succ[x][j]),
        is_succ_path(succ, p),
        st.contains(p[0]),
        1 <= k < p.len(),
    ensures
        visited.contains(p[k]),
    decreases k,
{
    if k > 1 {
        lemma_closed(succ, st, visited, p, k - 1);
    }
    let x = p[k - 1];
    assert(succ.contains_key(p[k - 1]) && succ[p[k - 1]].contains(p[k]));
    let j = choose|j: int| 0 <= j < succ[x].len() && succ[x][j] == p[k];
    assert(visited.contains(succ[x][j]));
}

/// Every task reachable, in one step or more, from the tasks in `start`.
pub fn downstream_tasks(start: &[String], successors: &TaskSuccessors) -> (r: TaskIdSet)
    ensures
        r@ == downstream_of(successors@, views(start@).to_set()),
{
    let ghost succ = successors@;
    let ghost st = views(start@).to_set();
    let ghost u = successors.targets();
    proof {
        successors.lemma_targets();
    }
    let mut visited = TaskIdSet::new();
    let mut queue: std::collections::VecDeque<String> = std::collections::VecDeque::new();
    let mut i: usize = 0;
    while i < start.len()
        invariant
            i <= start.len(),
            visited@ == Set::<Seq<char>>::empty(),
            queue@ == start@.take(i as int),
        decreases start.len() - i,
    {
        queue.push_back(start[i].clone());
        proof {
            assert(start@.take(i as int + 1) =~= start@.take(i as int).push(start@[i as int]));
        }
        i = i + 1;
    }
    proof {
        assert(start@.take(start@.len() as int) =~= start@);
        assert forall|a: int| 0 <= a < queue@.len() implies st.contains(#[trigger] queue@[a]@) by {
            assert(views(start@)[a] == queue@[a]@);
        }
        assert forall|x: Seq<char>| st.contains(x) implies views(queue@).contains(x) by {
            let a = choose|a: int| 0 <= a < start@.len() && #[trigger] views(start@)[a] == x;
            assert(views(queue@)[a] == x);
        }
    }
    let ghost mut processed: Set<Seq<char>> = Set::empty();
    while queue.len() > 0
        invariant
            u.finite(),
            succ == successors@,
            forall|k: Seq<char>, j: int| #[trigger] succ.contains_key(k) && 0 <= j < succ[k].len() ==> u.contains(#[trigger] succ[k][j]),
            visited@.subset_of(u),
            forall|x: Seq<char>| #[trigger] visited@.contains(x) ==> downstream_of(succ, st).contains(x),
            forall|a: int| 0 <= a < queue@.len() ==> st.contains(#[trigger] queue@[a]@) || visited@.contains(queue@[a]@),
            forall|x: Seq<char>| (st.contains(x) || visited@.contains(x)) ==> views(queue@).contains(x) || #[trigger] processed.contains(x),
            forall|x: Seq<char>, j: int| #[trigger] processed.contains(x) && succ.contains_key(x) && 0 <= j < succ[x].len() ==> visited@.contains(#[trigger] succ[x][j]),
            forall|x: Seq<char>| #[trigger] processed.contains(x) ==> st.contains(x) || visited@.contains(x),
        decreases queue@.len() + 2 * (u.len() - visited@.len()),
    {
        proof {
            vstd::set_lib::lemma_len_subset(visited@, u);
        }
        let ghost q_before = queue@;
        let ghost v0 = visited@;
        let id = queue.pop_front().unwrap();
        proof {
            assert(q_before[0] == id);
            assert forall|x: Seq<char>| views(q_before).contains(x) && x != id@ implies views(queue@).contains(x) by {
                let a = choose|a: int| 0 <= a < views(q_before).len() && views(q_before)[a] == x;
                assert(a > 0);
                assert(views(queue@)[a - 1] == x);
            }
            processed = processed.insert(id@);
        }
        let ghost q0 = queue@;
        match successors.get(id.as_str()) {
            None => {},
            Some(deps) => {
                let mut j: usize = 0;
                while j < deps.len()
                    invariant
                        u.finite(),
                        succ == successors@,
                        forall|k: Seq<char>, jj: int| #[trigger] succ.contains_key(k) && 0 <= jj < succ[k].len() ==> u.contains(#[trigger] succ[k][jj]),
                        succ.contains_key(id@),
                        views(deps@) == succ[id@],
                        j <= deps.len(),
                        processed.contains(id@),
                        st.contains(id@) || visited@.contains(id@),
                        v0.subset_of(visited@),
                        visited@.subset_of(u),
                        forall|x: Seq<char>| #[trigger] visited@.contains(x) ==> downstream_of(succ, st).contains(x),
                        forall|a: int| 0 <= a < queue@.len() ==> st.contains(#[trigger] queue@[a]@) || visited@.contains(queue@[a]@),
                        forall|x: Seq<char>| (st.contains(x) || visited@.contains(x)) ==> views(queue@).contains(x) || #[trigger] processed.contains(x),
                        forall|x: Seq<char>, jj: int| #[trigger] processed.contains(x) && x != id@ && succ.contains_key(x) && 0 <= jj < succ[x].len() ==> visited@.contains(#[trigger] succ[x][jj]),
                        forall|jj: int| 0 <= jj < j ==> visited@.contains(#[trigger] succ[id@][jj]),
                        forall|x: Seq<char>| #[trigger] processed.contains(x) ==> st.contains(x) || visited@.contains(x),
                        queue@.len() + 2 * (u.len() - visited@.len()) <= q0.len() + 2 * (u.len() - v0.len()),
                    decreases deps.len() - j,
                {
                    let d = deps[j].clone();
                    let ghost dv = d@;
                    proof {
                        assert(views(deps@)[j as int] == dv);
                        assert(succ[id@][j as int] == dv);
                        assert(u.contains(succ[id@][j as int]));
                        assert(succ[id@].contains(dv));
                        lemma_extend(succ, st, id@, dv);
                        vstd::set_lib::lemma_len_subset(visited@, u);
                    }
                    let ghost vb = visited@;
                    let ghost qb = queue@;
                    if visited.insert(d.clone()) {
                        queue.push_back(d);
                        proof {
                            assert(views(queue@)[queue@.len() - 1] == dv);
                            assert forall|x: Seq<char>| views(qb).contains(x) implies views(queue@).contains(x) by {
                                let a = choose|a: int| 0 <= a < views(qb).len() && views(qb)[a] == x;
                                assert(views(queue@)[a] == x);
                            }
                            assert(vb.insert(dv).len() == vb.len() + 1);
                        }
                    }
                    j = j + 1;
                }
            },
        }
        proof {
            vstd::set_lib::lemma_len_subset(visited@, u);
            vstd::set_lib::lemma_len_subset(v0, visited@);
        }
    }
    proof {
        let v = visited@;
        assert forall|x: Seq<char>, j: int| (st.contains(x) || v.contains(x)) && #[trigger] succ.contains_key(x) && 0 <= j < succ[x].len() implies v.contains(#[trigger] succ[x][j]) by {
            assert(!views(queue@).contains(x));
            assert(processed.contains(x));
        }
        assert forall|x: Seq<char>| downstream_of(succ, st).contains(x) implies v.contains(x) by {
            let p = choose|p: Seq<Seq<char>>| #[trigger] is_succ_path(succ, p) && st.contains(p[0]) && p[p.len() - 1] == x;
            lemma_closed(succ, st, v, p, p.len() - 1);
        }
        assert(v =~= downstream_of(succ, st));
    }
    visited
}

/// Entries in strictly increasing order of id.
pub open spec fn sorted_by_id(s: Seq<(String, TaskStatus)>) -> bool {
    forall|i: int, j: int| 0 <= i < j < s.len() ==> lex_lt(#[trigger] s[i].0@, #[trigger] s[j].0@)
}

/// Inserting an entry with a new id anywhere adds it to the map.
proof fn lemma_entries_map_insert_at(s: Seq<(String, TaskStatus)>, pos: int, e: (String, TaskStatus))
    requires
        0 <= pos <= s.len(),
        !entry_ids(s).contains(e.0@),
    ensures
        entries_map(s.insert(pos, e)) == entries_map(s).insert(e.0@, e.1),
        entry_ids(s.insert(pos, e)) == entry_ids(s).insert(pos, e.0@),
    decreases s.len(),
{
    let t = s.insert(pos, e);
    assert(entry_ids(t) =~= entry_ids(s).insert(pos, e.0@));
    if pos == s.len() {
        assert(t.drop_last() =~= s);
    } else {
        let sd = s.drop_last();
        assert(t.drop_last() =~= sd.insert(pos, e));
        assert(t.last() == s.last());
        assert(!entry_ids(sd).contains(e.0@)) by {
            if entry_ids(sd).contains(e.0@) {
                let k = choose|k: int| 0 <= k < entry_ids(sd).len() && entry_ids(sd)[k] == e.0@;
                assert(entry_ids(s)[k] == e.0@);
            }
        }
        lemma_entries_map_insert_at(sd, pos, e);
        assert(entry_ids(s)[s.len() - 1] == s.last().0@);
        assert(s.last().0@ != e.0@);
        assert(entries_map(t) =~= entries_map(s).insert(e.0@, e.1));
    }
}

/// The entries ordered by id.
pub fn sort_entries(v: &Vec<(String, TaskStatus)>) -> (r: Vec<(String, TaskStatus)>)
    requires
        entry_ids(v@).no_duplicates(),
    ensures
        entry_ids(r@).no_duplicates(),
        entries_map(r@) == entries_map(v@),
        sorted_by_id(r@),
{
    let mut out: Vec<(String, TaskStatus)> = Vec::new();
    let mut i: usize = 0;
    proof {
        assert(entries_map(out@) =~= entries_map(v@.take(0)));
        assert(entry_ids(out@) =~= Seq::<Seq<char>>::empty());
    }
    while i < v.len()
        invariant
            i <= v.len(),
            entry_ids(v@).no_duplicates(),
            entry_ids(out@).no_duplicates(),
            entries_map(out@) == entries_map(v@.take(i as int)),
            sorted_by_id(out@),
        decreases v.len() - i,
    {
        let e = (v[i].0.clone(), v[i].1.duplicate());
        let ghost k = e.0@;
        proof {
            assert(e == v@[i as int]);
            lemma_entries_map_dom(out@);
            lemma_entries_map_dom(v@.take(i as int));
            assert(entry_ids(v@.take(i as int)) =~= entry_ids(v@).take(i as int));
            assert(!entry_ids(out@).contains(k)) by {
                if entry_ids(out@).contains(k) {
                    assert(entries_map(out@).contains_key(k));
                    assert(entry_ids(v@.take(i as int)).contains(k));
                    let j = choose|j: int| 0 <= j < i && entry_ids(v@.take(i as int))[j] == k;
                    assert(entry_ids(v@)[j] == entry_ids(v@)[i as int]);
                }
            }
        }
        let mut pos: usize = 0;
        while pos < out.len()
            invariant
                pos <= out.len(),
                k == e.0@,
                forall|q: int| 0 <= q < pos ==> !lex_lt(k, #[trigger] out@[q].0@),
            ensures
                pos <= out.len(),
                forall|q: int| 0 <= q < pos ==> !lex_lt(k, #[trigger] out@[q].0@),
                pos < out.len() ==> lex_lt(k, out@[pos as int].0@),
            decreases out.len() - pos,
        {
            if str_lt(e.0.as_str(), out[pos].0.as_str()) {
                break;
            }
            pos = pos + 1;
        }
        let ghost before = out@;
        proof {
            lemma_entries_map_insert_at(before, pos as int, e);
        }
        out.insert(pos, e);
        proof {
            assert(v@.take(i as int + 1).drop_last() =~= v@.take(i as int));
            assert(entries_map(out@) =~= entries_map(v@.take(i as int + 1)));
            assert forall|a: int, b: int| 0 <= a < b < out@.len() implies lex_lt(#[trigger] out@[a].0@, #[trigger] out@[b].0@) by {
                if a < pos && b < pos {
                    assert(out@[a] == before[a] && out@[b] == before[b]);
                } else if a < pos && b == pos {
                    assert(out@[a] == before[a]);
                    assert(before[a].0@ != k) by {
                        assert(entry_ids(before)[a] == before[a].0@);
                    }
                    lemma_lex_total(k, before[a].0@);
                } else if a < pos {
                    assert(out@[a] == before[a] && out@[b] == before[b - 1]);
                } else if a == pos {
                    assert(out@[b] == before[b - 1]);
                    assert(lex_lt(k, before[pos as int].0@));
                    if b - 1 > pos {
                        lemma_lex_transitive(k, before[pos as int].0@, before[b - 1].0@);
                    }
                } else {
                    assert(out@[a] == before[a - 1] && out@[b] == before[b - 1]);
                }
            }
        }
        i = i + 1;
    }
    proof {
        assert(v@.take(v@.len() as int) =~= v@);
    }
    out
}

/// The word that `Debug` writes for a status other than `Failed`.
pub open spec fn status_name(st: TaskStatus) -> Seq<char> {
    match st {
        TaskStatus::Pending => "Pending"@,
        TaskStatus::Running => "Running"@,
        TaskStatus::Completed => "Completed"@,
        TaskStatus::Failed { .. } => "Failed"@,
        TaskStatus::Skipped => "Skipped"@,
        TaskStatus::SkippedDueToDependencyFailure => "SkippedDueToDependencyFailure"@,
    }
}

/// A status as the status listing shows it: failures with their error.
pub open spec fn status_label(st: TaskStatus) -> Seq<char> {
    match st {
        TaskStatus::Failed { error } => "Failed ("@ + error@ + ")"@,
        _ => status_name(st),
    }
}

/// The status listing tells statuses apart: two tasks that are not failed
/// get the same word only when their statuses are the same, and that word is
/// the one `cmd_inspect` shows for the status. A failed task's line holds its
/// error, so no other status is shown as a failure. Each other word names
/// its own status: a task is listed as `Pending`, `Running`, `Completed`,
/// `Skipped` or `SkippedDueToDependencyFailure` exactly when that is its status.
pub proof fn lemma_status_labels_distinct(s1: TaskStatus, s2: TaskStatus)
    ensures
        !(s1 is Failed) ==> status_label(s1) == status_name(s1),
        !(s1 is Failed) && !(s2 is Failed) && status_label(s1) == status_label(s2) ==> s1 == s2,
        !(s1 is Failed) ==> status_label(s1).len() > 0 && status_label(s1)[0] != 'F',
        s1 matches TaskStatus::Failed { error } ==> status_label(s1) == "Failed ("@ + error@ + ")"@,
        (status_label(s1) == "Pending"@) == (s1 is Pending),
        (status_label(s1) == "Running"@) == (s1 is Running),
        (status_label(s1) == "Completed"@) == (s1 is Completed),
        (status_label(s1) == "Skipped"@) == (s1 is Skipped),
        (status_label(s1) == "SkippedDueToDependencyFailure"@) == (s1 is SkippedDueToDependencyFailure),
{
    reveal_strlit("Pending");
    reveal_strlit("Running");
    reveal_strlit("Completed");
    reveal_strlit("Failed");
    reveal_strlit("Skipped");
    reveal_strlit("SkippedDueToDependencyFailure");
    reveal_strlit("Failed (");
    if s1 is Failed {
        assert(status_label(s1)[0] == 'F');
        assert(status_label(s1)[0] != "Pending"@[0]);
        assert(status_label(s1)[0] != "Running"@[0]);
    }
    if status_label(s1) == "Pending"@ || status_label(s1) == "Running"@ {
        assert(status_label(s1)[0] != "Skipped"@[0]);
    }
    if !(s1 is Failed) && !(s2 is Failed) && status_label(s1) == status_label(s2) {
        let a = status_label(s1);
        let b = status_label(s2);
        assert(a.len() == b.len());
        assert(a[0] == b[0]);
        assert(a.len() > 1 ==> a[1] == b[1]);
    }
}

/// The status listing of the entries, a line each.
pub open spec fn status_listing(s: Seq<(String, TaskStatus)>) -> Seq<char>
    decreases s.len(),
{
    if s.len() == 0 {
        Seq::empty()
    } else {
        status_listing(s.drop_last()) + s.last().0@ + ": "@ + status_label(s.last().1) + "\n"@
    }
}

/// The closing line of the status listing.
pub open spec fn summary_text(m: Map<Seq<char>, TaskStatus>) -> Seq<char> {
    "Summary: "@ + digits(map_count(m, |t: TaskStatus| is_completed(t))) + " completed, "@
        + digits(map_count(m, |t: TaskStatus| is_failed(t))) + " failed, "@
        + digits(map_count(m, |t: TaskStatus| is_skipped(t))) + " skipped, "@
        + digits(map_count(m, |t: TaskStatus| is_pending(t))) + " pending"@
}

fn status_word(st: &TaskStatus) -> (r: &'static str)
    ensures
        r@ == status_name(*st),
{
    proof {
        reveal_strlit("Pending");
        reveal_strlit("Running");
        reveal_strlit("Completed");
        reveal_strlit("Failed");
        reveal_strlit("Skipped");
        reveal_strlit("SkippedDueToDependencyFailure");
    }
    match st {
        TaskStatus::Pending => "Pending",
        TaskStatus::Running => "Running",
        TaskStatus::Completed => "Completed",
        TaskStatus::Failed { .. } => "Failed",
        TaskStatus::Skipped => "Skipped",
        TaskStatus::SkippedDueToDependencyFailure => "SkippedDueToDependencyFailure",
    }
}

/// The status listing: one line per task, in id order, `id: status` with
/// failures shown as `Failed (error)`, then the counts.
pub fn cmd_status<S: StateStore>(state: &S) -> (r: String)
    ensures
        exists|ord: Seq<(String, TaskStatus)>| {
            &&& sorted_by_id(ord)
            &&& entry_ids(ord).no_duplicates()
            &&& entries_map(ord) == state.status_map()
            &&& r@ == status_listing(ord) + summary_text(state.status_map())
        },
{
    let all = state.all_tasks();
    let tasks = sort_entries(&all);
    let mut out = String::new();
    let mut i: usize = 0;
    proof {
        reveal_strlit(": ");
        reveal_strlit("\n");
        reveal_strlit("Failed (");
        reveal_strlit(")");
        assert(out@ =~= status_listing(tasks@.take(0)));
    }
    while i < tasks.len()
        invariant
            i <= tasks.len(),
            out@ == status_listing(tasks@.take(i as int)),
        decreases tasks.len() - i,
    {
        out.append(tasks[i].0.as_str());
        out.append(": ");
        match &tasks[i].1 {
            TaskStatus::Failed { error } => {
                out.append("Failed (");
                out.append(error.as_str());
                out.append(")");
            },
            other => {
                out.append(status_word(other));
            },
        }
        out.append("\n");
        proof {
            assert(tasks@.take(i as int + 1).drop_last() =~= tasks@.take(i as int));
            assert(out@ =~= status_listing(tasks@.take(i as int + 1)));
        }
        i = i + 1;
    }
    proof {
        assert(tasks@.take(tasks@.len() as int) =~= tasks@);
    }
    let s = state.summary();
    proof {
        reveal_strlit("Summary: ");
        reveal_strlit(" completed, ");
        reveal_strlit(" failed, ");
        reveal_strlit(" skipped, ");
        reveal_strlit(" pending");
    }
    out.append("Summary: ");
    out.append(u64_to_string(s.completed as u64).as_str());
    out.append(" completed, ");
    out.append(u64_to_string(s.failed as u64).as_str());
    out.append(" failed, ");
    out.append(u64_to_string(s.skipped as u64).as_str());
    out.append(" skipped, ");
    out.append(u64_to_string(s.pending as u64).as_str());
    out.append(" pending");
    proof {
        assert(out@ =~= status_listing(tasks@) + summary_text(state.status_map()));
    }
    out
}

/// A status as `Debug` writes it.
pub open spec fn status_debug(st: TaskStatus) -> Seq<char> {
    match st {
        TaskStatus::Failed { error } => "Failed { error: "@ + debug_text(error@) + " }"@,
        _ => status_name(st),
    }
}

/// Lines `id: status` (in `Debug` form), joined by newlines.
pub open spec fn debug_listing(s: Seq<(String, TaskStatus)>) -> Seq<char>
    decreases s.len(),
{
    if s.len() == 0 {
        Seq::empty()
    } else if s.len() == 1 {
        s[0].0@ + ": "@ + status_debug(s[0].1)
    } else {
        debug_listing(s.drop_last()) + "\n"@ + s.last().0@ + ": "@ + status_debug(s.last().1)
    }
}

/// The `Debug` listing of the given entries, in their order.
fn debug_lines(tasks: &Vec<(String, TaskStatus)>) -> (r: String)
    ensures
        r@ == debug_listing(tasks@),
{
    proof {
        reveal_strlit(": ");
        reveal_strlit("\n");
        reveal_strlit("Failed { error: ");
        reveal_strlit(" }");
    }
    let mut out = String::new();
    let mut i: usize = 0;
    proof {
        assert(out@ =~= debug_listing(tasks@.take(0)));
    }
    while i < tasks.len()
        invariant
            i <= tasks.len(),
            out@ == debug_listing(tasks@.take(i as int)),
        decreases tasks.len() - i,
    {
        if i > 0 {
            out.append("\n");
        }
        out.append(tasks[i].0.as_str());
        out.append(": ");
        match &tasks[i].1 {
            TaskStatus::Failed { error } => {
                out.append("Failed { error: ");
                out.append(debug_string(error.as_str()).as_str());
                out.append(" }");
            },
            other => {
                out.append(status_word(other));
            },
        }
        proof {
            assert(tasks@.take(i as int + 1).drop_last() =~= tasks@.take(i as int));
            if i == 0 {
                assert(tasks@.take(1)[0] == tasks@[0]);
            }
            assert(out@ =~= debug_listing(tasks@.take(i as int + 1)));
        }
        i = i + 1;
    }
    proof {
        assert(tasks@.take(tasks@.len() as int) =~= tasks@);
    }
    out
}

/// What `inspect` shows of one task.
fn inspect_one<S: StateStore>(state: &S, id: &str) -> (r: Result<String, String>)
    ensures
        match lookup(state.status_map(), id@) {
            None => r matches Err(msg) && msg@ == "task '"@ + id@ + "' not found"@,
            Some(TaskStatus::Failed { error }) => r matches Ok(t) && t@ == "task: "@ + id@ + "\nstatus: Failed\nerror: "@ + error@,
            Some(st) => r matches Ok(t) && t@ == "task: "@ + id@ + "\nstatus: "@ + status_name(st),
        },
{
    proof {
        reveal_strlit("task '");
        reveal_strlit("' not found");
        reveal_strlit("task: ");
        reveal_strlit("\nstatus: Failed\nerror: ");
        reveal_strlit("\nstatus: ");
    }
    match state.get_status(id) {
        None => Err("task '".to_owned().concat(id).concat("' not found")),
        Some(TaskStatus::Failed { error }) => Ok("task: ".to_owned().concat(id).concat("\nstatus: Failed\nerror: ").concat(error.as_str())),
        Some(st) => Ok("task: ".to_owned().concat(id).concat("\nstatus: ").concat(status_word(&st))),
    }
}

/// What `inspect` shows: for one task its id, status and, when it failed,
/// the error; an unknown task is an error. Without a task, every task in id
/// order, one `id: status` line each.
pub fn cmd_inspect<S: StateStore>(state: &S, task_id: Option<&str>) -> (r: Result<String, String>)
    ensures
        task_id matches Some(id) ==> match lookup(state.status_map(), id@) {
            None => r matches Err(msg) && msg@ == "task '"@ + id@ + "' not found"@,
            Some(TaskStatus::Failed { error }) => r matches Ok(t) && t@ == "task: "@ + id@ + "\nstatus: Failed\nerror: "@ + error@,
            Some(st) => r matches Ok(t) && t@ == "task: "@ + id@ + "\nstatus: "@ + status_name(st),
        },
        task_id is None ==> exists|ord: Seq<(String, TaskStatus)>| {
            &&& sorted_by_id(ord)
            &&& entry_ids(ord).no_duplicates()
            &&& entries_map(ord) == state.status_map()
            &&& r matches Ok(t) && t@ == debug_listing(ord)
        },
{
    match task_id {
        Some(id) => inspect_one(state, id),
        None => {
            let all = state.all_tasks();
            let tasks = sort_entries(&all);
            Ok(debug_lines(&tasks))
        },
    }
}

/// The ids among `ids`, in order, that have no status in `m`.
pub open spec fn unknown_ids(m: Map<Seq<char>, TaskStatus>, ids: Seq<Seq<char>>) -> Seq<Seq<char>>
    decreases ids.len(),
{
    if ids.len() == 0 {
        Seq::empty()
    } else if m.contains_key(ids.last()) {
        unknown_ids(m, ids.drop_last())
    } else {
        unknown_ids(m, ids.drop_last()).push(ids.last())
    }
}

/// Whether a retry of the tasks `start` resets the dependency-skipped task
/// `k`: every such task when no dependency information was kept, else those
/// downstream of a retried task.
pub open spec fn reset_by_retry(succ: Option<Map<Seq<char>, Seq<Seq<char>>>>, start: Seq<Seq<char>>, k: Seq<char>) -> bool {
    match succ {
        None => true,
        Some(s) => downstream_of(s, start.to_set()).contains(k),
    }
}

/// The statuses after retrying the tasks `ids`: each named task that has a
/// status, and each dependency-skipped task that the retry reaches, becomes
/// pending; the other tasks keep their status.
pub open spec fn retried(
    m: Map<Seq<char>, TaskStatus>,
    succ: Option<Map<Seq<char>, Seq<Seq<char>>>>,
    ids: Seq<Seq<char>>,
) -> Map<Seq<char>, TaskStatus> {
    Map::new(
        |k: Seq<char>| m.contains_key(k),
        |k: Seq<char>|
            if ids.contains(k) || (m[k] is SkippedDueToDependencyFailure && reset_by_retry(succ, ids, k)) {
                TaskStatus::Pending
            } else {
                m[k]
            },
    )
}

/// What a retry reports besides the new statuses.
pub struct RetryReport {
    /// The named ids that have no status, in the order given.
    pub unknown: Vec<String>,
    /// Whether the state kept no dependency information, so that every
    /// dependency-skipped task was reset.
    pub used_fallback: bool,
}

/// Retries the tasks `task_ids`: each becomes pending, and so does each
/// dependency-skipped task downstream of them (each one at all when the
/// state kept no dependency information). Saving is left to the caller.
pub fn cmd_retry(state: &mut JsonStateStore, task_ids: &[String]) -> (r: RetryReport)
    ensures
        final(state).status_map() == retried(old(state).status_map(), old(state).successor_table(), views(task_ids@)),
        views(r.unknown@) == unknown_ids(old(state).status_map(), views(task_ids@)),
        r.used_fallback == (old(state).successor_table() is None),
        final(state).name() == old(state).name(),
        final(state).file() == old(state).file(),
        final(state).successor_table() == old(state).successor_table(),
{
    let ghost m = state.status_map();
    let ghost ids = views(task_ids@);
    let ghost succ = state.successor_table();
    let downstream: Option<TaskIdSet> = match state.task_successors() {
        None => None,
        Some(successors) => Some(downstream_tasks(task_ids, successors)),
    };
    let mut unknown: Vec<String> = Vec::new();
    let mut i: usize = 0;
    while i < task_ids.len()
        invariant
            i <= task_ids.len(),
            ids == views(task_ids@),
            state.name() == old(state).name(),
            state.file() == old(state).file(),
            state.successor_table() == succ,
            state.status_map().dom() == m.dom(),
            forall|k: Seq<char>| #[trigger] m.contains_key(k) ==> state.status_map()[k] == (if ids.take(i as int).contains(k) { TaskStatus::Pending } else { m[k] }),
            views(unknown@) == unknown_ids(m, ids.take(i as int)),
        decreases task_ids.len() - i,
    {
        let ghost before = state.status_map();
        proof {
            assert(ids.take(i as int + 1).drop_last() =~= ids.take(i as int));
            assert(ids.take(i as int + 1).last() == task_ids@[i as int]@);
        }
        match state.get_status(task_ids[i].as_str()) {
            None => {
                unknown.push(task_ids[i].clone());
                proof {
                    assert(views(unknown@) =~= views(unknown@.drop_last()).push(task_ids@[i as int]@));
                    assert forall|k: Seq<char>| #[trigger] m.contains_key(k) implies state.status_map()[k] == (if ids.take(i as int + 1).contains(k) { TaskStatus::Pending } else { m[k] }) by {
                        let t0 = ids.take(i as int);
                        let t1 = ids.take(i as int + 1);
                        if t1.contains(k) && !t0.contains(k) {
                            let j = choose|j: int| 0 <= j < t1.len() && t1[j] == k;
                            if j < t0.len() {
                                assert(t0[j] == k);
                            }
                        }
                        if t0.contains(k) {
                            let j = choose|j: int| 0 <= j < t0.len() && t0[j] == k;
                            assert(t1[j] == k);
                        }
                    }
                }
            },
            Some(_) => {
                state.set_status(task_ids[i].as_str(), TaskStatus::Pending);
                proof {
                    assert(state.status_map().dom() =~= m.dom());
                    assert forall|k: Seq<char>| #[trigger] m.contains_key(k) implies state.status_map()[k] == (if ids.take(i as int + 1).contains(k) { TaskStatus::Pending } else { m[k] }) by {
                        let t0 = ids.take(i as int);
                        let t1 = ids.take(i as int + 1);
                        if t1.contains(k) && !t0.contains(k) {
                            let j = choose|j: int| 0 <= j < t1.len() && t1[j] == k;
                            if j < t0.len() {
                                assert(t0[j] == k);
                            }
                        }
                        if t0.contains(k) {
                            let j = choose|j: int| 0 <= j < t0.len() && t0[j] == k;
                            assert(t1[j] == k);
                        }
                    }
                }
            },
        }
        i = i + 1;
    }
    proof {
        assert(ids.take(ids.len() as int) =~= ids);
    }
    let ghost m1 = state.status_map();
    let all = state.all_tasks();
    let mut j: usize = 0;
    while j < all.len()
        invariant
            j <= all.len(),
            entry_ids(all@).no_duplicates(),
            entries_map(all@) == m1,
            m1.dom() == m.dom(),
            downstream matches Some(d) ==> succ matches Some(s) && d@ == downstream_of(s, ids.to_set()),
            downstream is None ==> succ is None,
            state.name() == old(state).name(),
            state.file() == old(state).file(),
            state.successor_table() == succ,
            state.status_map().dom() == m.dom(),
            forall|k: Seq<char>| #[trigger] m.contains_key(k) ==> state.status_map()[k] == (if entry_ids(all@).take(j as int).contains(k) && m1[k] is SkippedDueToDependencyFailure && reset_by_retry(succ, ids, k) { TaskStatus::Pending } else { m1[k] }),
        decreases all.len() - j,
    {
        proof {
            lemma_entries_map_index(all@, j as int);
            assert(entry_ids(all@)[j as int] == all@[j as int].0@);
        }
        let reset = match &all[j].1 {
            TaskStatus::SkippedDueToDependencyFailure => match &downstream {
                None => true,
                Some(d) => d.contains(all[j].0.as_str()),
            },
            _ => false,
        };
        let ghost kj = all@[j as int].0@;
        let ghost before = state.status_map();
        proof {
            assert(m1[kj] == all@[j as int].1);
            assert(reset == (m1[kj] is SkippedDueToDependencyFailure && reset_by_retry(succ, ids, kj)));
        }
        if reset {
            state.set_status(all[j].0.as_str(), TaskStatus::Pending);
        }
        proof {
            assert(reset ==> state.status_map() == before.insert(kj, TaskStatus::Pending));
            assert(!reset ==> state.status_map() == before);
            let t0 = entry_ids(all@).take(j as int);
            let t1 = entry_ids(all@).take(j as int + 1);
            assert(state.status_map().dom() =~= m.dom());
            assert forall|k: Seq<char>| #[trigger] m.contains_key(k) implies state.status_map()[k] == (if t1.contains(k) && m1[k] is SkippedDueToDependencyFailure && reset_by_retry(succ, ids, k) { TaskStatus::Pending } else { m1[k] }) by {
                assert(t1[j as int] == kj);
                if k == kj {
                    assert(t1.contains(k));
                    if t0.contains(k) {
                        let q = choose|q: int| 0 <= q < t0.len() && t0[q] == k;
                        assert(entry_ids(all@)[q] == entry_ids(all@)[j as int]);
                    }
                    assert(before[k] == m1[k]);
                } else {
                    if t1.contains(k) {
                        let q = choose|q: int| 0 <= q < t1.len() && t1[q] == k;
                        assert(t0[q] == k);
                    }
                    if t0.contains(k) {
                        let q = choose|q: int| 0 <= q < t0.len() && t0[q] == k;
                        assert(t1[q] == k);
                    }
                    assert(state.status_map()[k] == before[k]);
                }
            }
        }
        j = j + 1;
    }
    proof {
        lemma_entries_map_dom(all@);
        assert(entry_ids(all@).take(all@.len() as int) =~= entry_ids(all@));
        assert forall|k: Seq<char>| #[trigger] m.contains_key(k) implies state.status_map()[k] == retried(m, succ, ids)[k] by {
            assert(entries_map(all@).contains_key(k));
        }
        assert(state.status_map() =~= retried(m, succ, ids));
    }
    RetryReport { unknown, used_fallback: downstream.is_none() }
}

/// A retry changes only the tasks it names and dependency-skipped tasks;
/// the named tasks that exist become pending, and no task is added.
pub proof fn lemma_retry_touches_only_named_and_skipped(
    m: Map<Seq<char>, TaskStatus>,
    succ: Option<Map<Seq<char>, Seq<Seq<char>>>>,
    ids: Seq<Seq<char>>,
    k: Seq<char>,
)
    ensures
        retried(m, succ, ids).dom() == m.dom(),
        m.contains_key(k) && ids.contains(k) ==> retried(m, succ, ids)[k] == TaskStatus::Pending,
        m.contains_key(k) && !ids.contains(k) && !(m[k] is SkippedDueToDependencyFailure) ==> retried(m, succ, ids)[k] == m[k],
{
    assert(retried(m, succ, ids).dom() =~= m.dom());
}

} // verus!
