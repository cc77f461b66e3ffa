//! Iterative-deepening search over the total cost of a path, pruned by the
//! table's lower bounds.
use vstd::prelude::*;
use crate::moves::{
    alternates, apply_move, branch_index_of, branches, is_move, lemma_branch_index,
    lemma_replay_first, move_cost, lemma_alternates_suffix, lemma_branches_sound,
    lemma_cost_at_least_len, lemma_split_continuation, legal_moves, path_cost, replay, run_step,
    FLIP, MAX_TURN, STATE_LEN,
};
use crate::table::{estimate, lemma_admissible, PruningTable};

verus! {

/// The largest cost bound that the search tries.
pub const SEARCH_DEPTH: usize = 39;

/// `q` is a path that takes `start` to `goal`.
pub open spec fn solves(start: Seq<u8>, goal: Seq<u8>, q: Seq<i32>) -> bool {
    alternates(q) && replay(start, q) == goal
}

/// `a` comes before `b` in move-code order: at the first place where they
/// differ, `a` has the smaller code.
pub open spec fn precedes(a: Seq<i32>, b: Seq<i32>) -> bool {
    exists|i: int| 0 <= i < a.len() && i < b.len() && a.take(i) == b.take(i) && #[trigger] a[i] < b[i]
}

/// No continuation of `p` from `s` reaches `goal` at a total cost below `d`.
pub open spec fn none_cheaper(p: Seq<i32>, s: Seq<u8>, goal: Seq<u8>, len: int, d: int) -> bool {
    forall|q: Seq<i32>| alternates(p + q) && #[trigger] replay(s, q) == goal ==> len + path_cost(q) >= d
}

/// `t` comes first in move-code order among the continuations of `p` from
/// `s` that reach `goal` at a total cost of exactly `d`.
pub open spec fn first_at(p: Seq<i32>, s: Seq<u8>, goal: Seq<u8>, len: int, d: int, t: Seq<i32>) -> bool {
    forall|q: Seq<i32>|
        alternates(p + q) && #[trigger] replay(s, q) == goal && len + path_cost(q) == d ==> t == q
            || precedes(t, q)
}

/// The moves offered after a path come in increasing order of code.
proof fn lemma_branches_ascending(p: Seq<i32>, i: int, j: int)
    requires
        0 <= i < j < branches(p).len(),
    ensures
        branches(p)[i] < branches(p)[j],
{
}

/// Where the search below move `j` found the first continuation, and no
/// earlier move led to one, the path through move `j` comes first.
proof fn lemma_first_from_child(
    p: Seq<i32>,
    s: Seq<u8>,
    goal: Seq<u8>,
    len: int,
    d: int,
    j: int,
    tail: Seq<i32>,
)
    requires
        alternates(p),
        0 <= j < branches(p).len(),
        len < d,
        forall|q: Seq<i32>|
            q.len() > 0 && alternates(p + q) && #[trigger] replay(s, q) == goal && branch_index_of(
                p,
                q,
            ) < j ==> len + path_cost(q) != d,
        none_cheaper(
            p.push(branches(p)[j]),
            apply_move(s, branches(p)[j] as int),
            goal,
            len + move_cost(branches(p)[j] as int),
            d,
        ) ==> first_at(
            p.push(branches(p)[j]),
            apply_move(s, branches(p)[j] as int),
            goal,
            len + move_cost(branches(p)[j] as int),
            d,
            tail,
        ),
    ensures
        none_cheaper(p, s, goal, len, d) ==> first_at(p, s, goal, len, d, seq![branches(p)[j]] + tail),
{
    let m = branches(p)[j];
    let p1 = p.push(m);
    let s1 = apply_move(s, m as int);
    let len1 = len + move_cost(m as int);
    let t = seq![m] + tail;
    lemma_branch_index(p, j);
    if none_cheaper(p, s, goal, len, d) {
        assert forall|r: Seq<i32>| alternates(p1 + r) && #[trigger] replay(s1, r) == goal implies len1
            + path_cost(r) >= d by {
            let q = seq![m] + r;
            assert(q[0] == m);
            assert(q.skip(1) =~= r);
            assert(p + q =~= p1 + r);
            lemma_replay_first(s, q);
            assert(replay(s, q) == goal);
        }
        assert forall|q: Seq<i32>|
            alternates(p + q) && #[trigger] replay(s, q) == goal && len + path_cost(q) == d implies t
                == q || precedes(t, q) by {
            if q.len() == 0 {
                assert(path_cost(q) == 0);
            }
            lemma_split_continuation(s, p, q);
            let b = branch_index_of(p, q);
            if b == j {
                assert(q[0] == m);
                assert(p1 + q.skip(1) == p + q);
                let r = q.skip(1);
                assert(replay(s1, r) == goal);
                if tail == r {
                    assert(t =~= q);
                } else {
                    let i = choose|i: int|
                        0 <= i < tail.len() && i < r.len() && tail.take(i) == r.take(i) && #[trigger] tail[i]
                            < r[i];
                    assert(t.take(i + 1) =~= seq![m] + tail.take(i));
                    assert(q.take(i + 1) =~= seq![m] + r.take(i));
                    assert(t[i + 1] == tail[i]);
                    assert(q[i + 1] == r[i]);
                }
            } else {
                assert(b > j);
                lemma_branches_ascending(p, j, b);
                assert(t.take(0) =~= q.take(0));
                assert(t[0] < q[0]);
            }
        }
    }
}

/// Whether `state` is the goal.
pub fn is_solved(state: &[u8; 14], goal: &[u8; 14]) -> (r: bool)
    ensures
        r == (state@ == goal@),
{
    let mut i: usize = 0;
    while i < STATE_LEN
        invariant
            i <= STATE_LEN,
            forall|j: int| 0 <= j < i ==> state[j] == goal[j],
        decreases STATE_LEN - i,
    {
        if state[i] != goal[i] {
            return false;
        }
        i += 1;
    }
    assert(state@ =~= goal@);
    true
}

/// Depth-first search below `path`, which took the start to `state` at cost
/// `len`, for a continuation that reaches the goal at a total cost of
/// exactly `max_path_length`. A node that is already solved below the bound
/// ends the search with its own path. On success the whole path is returned,
/// and where no continuation reaches the goal below the bound it is the first
/// one at the bound in move-code order; `None` means that no continuation
/// reaches the goal at that exact cost.
pub fn search_at_depth(
    table: &PruningTable,
    state: [u8; 14],
    path: &mut Vec<i32>,
    len: usize,
    max_path_length: usize,
) -> (r: Option<Vec<i32>>)
    requires
        table.wf(),
        alternates(old(path)@),
        len == path_cost(old(path)@),
        max_path_length <= SEARCH_DEPTH,
        len <= max_path_length + MAX_TURN,
    ensures
        final(path)@ == old(path)@,
        r matches Some(v) ==> {
            &&& v@.take(old(path)@.len() as int) == old(path)@
            &&& old(path)@.len() <= v@.len()
            &&& alternates(v@)
            &&& replay(state@, v@.skip(old(path)@.len() as int)) == table.goal()
            &&& len + path_cost(v@.skip(old(path)@.len() as int)) <= max_path_length
        },
        r matches Some(v) ==> (none_cheaper(
            old(path)@,
            state@,
            table.goal(),
            len as int,
            max_path_length as int,
        ) ==> first_at(
            old(path)@,
            state@,
            table.goal(),
            len as int,
            max_path_length as int,
            v@.skip(old(path)@.len() as int),
        )),
        state@ == table.goal() && len <= max_path_length ==> (r matches Some(v) && v@ == old(
            path,
        )@),
        r is None ==> forall|q: Seq<i32>|
            alternates(old(path)@ + q) && #[trigger] replay(state@, q) == table.goal() ==> len
                + path_cost(q) != max_path_length,
    decreases max_path_length + MAX_TURN - len,
{
    let ghost p0 = path@;
    let goal = table.goal_state();
    if len == max_path_length {
        if is_solved(&state, &goal) {
            let found = path.clone();
            proof {
                assert(found@ =~= p0);
                assert(found@.skip(p0.len() as int) =~= Seq::<i32>::empty());
                assert(found@.take(p0.len() as int) =~= p0);
                assert forall|q: Seq<i32>|
                    alternates(p0 + q) && #[trigger] replay(state@, q) == table.goal() && len
                        + path_cost(q) == max_path_length implies found@.skip(p0.len() as int) == q
                    || precedes(found@.skip(p0.len() as int), q) by {
                    lemma_alternates_suffix(p0, q);
                    lemma_cost_at_least_len(q);
                    assert(q =~= Seq::<i32>::empty());
                }
            }
            return Some(found);
        }
        assert forall|q: Seq<i32>|
            alternates(p0 + q) && #[trigger] replay(state@, q) == table.goal() implies len
                + path_cost(q) != max_path_length by {
            lemma_alternates_suffix(p0, q);
            lemma_cost_at_least_len(q);
        }
        return None;
    }
    if len > max_path_length {
        assert forall|q: Seq<i32>|
            alternates(p0 + q) && #[trigger] replay(state@, q) == table.goal() implies len
                + path_cost(q) != max_path_length by {
            lemma_alternates_suffix(p0, q);
            lemma_cost_at_least_len(q);
        }
        return None;
    }
    if is_solved(&state, &goal) {
        let found = path.clone();
        proof {
            assert(found@ =~= p0);
            assert(found@.skip(p0.len() as int) =~= Seq::<i32>::empty());
            assert(found@.take(p0.len() as int) =~= p0);
            let e = Seq::<i32>::empty();
            assert(p0 + e =~= p0);
            assert(replay(state@, e) == table.goal());
        }
        return Some(found);
    }
    let minimum_remaining = estimate(table, state);
    if len + minimum_remaining > max_path_length {
        assert forall|q: Seq<i32>|
            alternates(p0 + q) && #[trigger] replay(state@, q) == table.goal() implies len
                + path_cost(q) != max_path_length by {
            lemma_alternates_suffix(p0, q);
            lemma_admissible(table, state@, q);
        }
        return None;
    }
    let moves = legal_moves(path);
    let mut j: usize = 0;
    proof {
        assert forall|q: Seq<i32>|
            q.len() > 0 && alternates(p0 + q) implies branch_index_of(p0, q) >= 0 by {
            lemma_split_continuation(state@, p0, q);
        }
    }
    while j < moves.len()
        invariant
            p0 == old(path)@,
            path@ == p0,
            state@ != table.goal(),
            table.wf(),
            alternates(p0),
            moves@ == branches(p0),
            j <= moves@.len(),
            len == path_cost(p0),
            len < max_path_length <= SEARCH_DEPTH,
            forall|q: Seq<i32>|
                q.len() > 0 && alternates(p0 + q) && #[trigger] replay(state@, q)
                    == table.goal() && branch_index_of(p0, q) < j ==> len + path_cost(q)
                    != max_path_length,
        decreases moves@.len() - j,
    {
        let step = moves[j];
        proof {
            lemma_branches_sound(p0, j as int);
            assert(is_move(path@.push(step)[p0.len() as int] as int));
        }
        let next = run_step(state, step);
        let cost: usize = if step == FLIP {
            1
        } else if step < 0 {
            (-step) as usize
        } else {
            step as usize
        };
        path.push(step);
        proof {
            assert(path@.drop_last() =~= p0);
        }
        let result = search_at_depth(table, next, path, len + cost, max_path_length);
        let ghost p1 = path@;
        path.pop();
        proof {
            assert(path@ =~= p0);
        }
        match result {
            Some(v) => {
                proof {
                    assert(p1 == p0.push(step));
                    let rest = v@.skip(p1.len() as int);
                    let tail = v@.skip(p0.len() as int);
                    assert(tail =~= seq![step] + rest);
                    assert(tail.skip(1) =~= rest);
                    assert(v@.take(p0.len() as int) =~= p0);
                    assert(v@ =~= p0 + tail);
                    lemma_split_continuation(state@, p0, tail);
                    assert(cost == move_cost(step as int));
                    lemma_first_from_child(
                        p0,
                        state@,
                        table.goal(),
                        len as int,
                        max_path_length as int,
                        j as int,
                        rest,
                    );
                }
                return Some(v);
            },
            None => {},
        }
        proof {
            assert forall|q: Seq<i32>|
                q.len() > 0 && alternates(p0 + q) && #[trigger] replay(state@, q)
                    == table.goal() && branch_index_of(p0, q) < j + 1 implies len + path_cost(q)
                    != max_path_length by {
                lemma_split_continuation(state@, p0, q);
                if branch_index_of(p0, q) == j {
                    assert(q[0] == step);
                    assert(p0.push(step) + q.skip(1) == p0 + q);
                    assert(replay(next@, q.skip(1)) == table.goal());
                }
            }
        }
        j += 1;
    }
    proof {
        assert forall|q: Seq<i32>|
            alternates(p0 + q) && #[trigger] replay(state@, q) == table.goal() implies len
                + path_cost(q) != max_path_length by {
            if q.len() > 0 {
                lemma_split_continuation(state@, p0, q);
            }
        }
    }
    None
}

/// Searches for a cheapest path from `state` to the table's goal, trying the
/// cost bounds `0..=SEARCH_DEPTH` in turn. Among the cheapest paths, the one
/// returned comes first in move-code order.
pub fn search(table: &PruningTable, state: [u8; 14]) -> (r: Option<Vec<i32>>)
    requires
        table.wf(),
    ensures
        r matches Some(p) ==> {
            &&& solves(state@, table.goal(), p@)
            &&& path_cost(p@) <= SEARCH_DEPTH
            &&& forall|q: Seq<i32>| #[trigger]
                solves(state@, table.goal(), q) ==> path_cost(p@) <= path_cost(q)
            &&& forall|q: Seq<i32>|
                #[trigger] solves(state@, table.goal(), q) && path_cost(q) == path_cost(p@) ==> p@
                    == q || precedes(p@, q)
        },
        r is None ==> forall|q: Seq<i32>| #[trigger]
            solves(state@, table.goal(), q) ==> path_cost(q) > SEARCH_DEPTH,
        state@ == table.goal() ==> (r matches Some(p) && p@.len() == 0),
{
    let mut path: Vec<i32> = Vec::new();
    let mut bound: usize = 0;
    assert forall|q: Seq<i32>| #[trigger] solves(state@, table.goal(), q) implies path_cost(q)
        >= 0 by {
        lemma_cost_at_least_len(q);
    }
    while bound <= SEARCH_DEPTH
        invariant
            table.wf(),
            path@ == Seq::<i32>::empty(),
            bound <= SEARCH_DEPTH + 1,
            forall|q: Seq<i32>| #[trigger]
                solves(state@, table.goal(), q) ==> path_cost(q) >= bound,
        decreases SEARCH_DEPTH + 1 - bound,
    {
        let result = search_at_depth(table, state, &mut path, 0, bound);
        match result {
            Some(p) => {
                proof {
                    assert(p@.skip(0) =~= p@);
                    assert forall|q: Seq<i32>|
                        alternates(path@ + q) && #[trigger] replay(state@, q)
                            == table.goal() implies 0 + path_cost(q) >= bound by {
                        assert(path@ + q =~= q);
                        assert(solves(state@, table.goal(), q));
                    }
                    assert(solves(state@, table.goal(), p@));
                    assert forall|q: Seq<i32>|
                        #[trigger] solves(state@, table.goal(), q) && path_cost(q) == path_cost(
                            p@,
                        ) implies p@ == q || precedes(p@, q) by {
                        assert(path@ + q =~= q);
                    }
                    if state@ == table.goal() {
                        assert(solves(state@, table.goal(), Seq::<i32>::empty()));
                        lemma_cost_at_least_len(p@);
                    }
                }
                return Some(p);
            },
            None => {},
        }
        proof {
            assert forall|q: Seq<i32>| #[trigger]
                solves(state@, table.goal(), q) implies path_cost(q) >= bound + 1 by {
                assert(path@ + q =~= q);
            }
        }
        bound += 1;
    }
    assert(state@ == table.goal() ==> solves(state@, table.goal(), Seq::<i32>::empty()));
    None
}

} // verus!
