//! States, moves, paths and what applying a path does to a state.
use vstd::prelude::*;

verus! {

/// Number of slots of the ring.
pub const STATE_LEN: usize = 14;

/// The code of the flip move.
pub const FLIP: i32 = 0;

/// Largest rotation magnitude.
pub const MAX_TURN: i32 = 6;

/// A rotation to the left by `m` slots: slot `i` takes what slot `i + m`
/// held, cyclically.
pub open spec fn rot_left(s: Seq<u8>, m: int) -> Seq<u8> {
    s.subrange(m, s.len() as int) + s.subrange(0, m)
}

/// The flip: slots 0 and 3 trade places, and so do slots 1 and 2.
pub open spec fn flip(s: Seq<u8>) -> Seq<u8> {
    s.update(0, s[3]).update(3, s[0]).update(1, s[2]).update(2, s[1])
}

/// A move code is a rotation by `-6..=6` slots, code 0 being the flip.
pub open spec fn is_move(m: int) -> bool {
    -MAX_TURN <= m <= MAX_TURN
}

/// Applies the move with code `m` to a state of `STATE_LEN` slots:
/// negative codes rotate left, positive codes rotate right.
pub open spec fn apply_move(s: Seq<u8>, m: int) -> Seq<u8> {
    if m == 0 {
        flip(s)
    } else if m < 0 {
        rot_left(s, -m)
    } else {
        rot_left(s, STATE_LEN - m)
    }
}

/// What one move costs: one for the flip, the magnitude for a rotation.
pub open spec fn move_cost(m: int) -> int {
    if m == 0 {
        1
    } else if m < 0 {
        -m
    } else {
        m
    }
}

/// The cost of a path: the sum of the costs of its moves.
pub open spec fn path_cost(p: Seq<i32>) -> int
    decreases p.len(),
{
    if p.len() == 0 {
        0
    } else {
        path_cost(p.drop_last()) + move_cost(p.last() as int)
    }
}

/// A path: valid move codes, where flips and rotations take turns.
pub open spec fn alternates(p: Seq<i32>) -> bool {
    &&& forall|i: int| 0 <= i < p.len() ==> #[trigger] is_move(p[i] as int)
    &&& forall|i: int| 1 <= i < p.len() ==> (p[i - 1] == 0) != (#[trigger] p[i] == 0)
}

/// The state reached from `s` by making the moves of `p` in order.
pub open spec fn replay(s: Seq<u8>, p: Seq<i32>) -> Seq<u8>
    decreases p.len(),
{
    if p.len() == 0 {
        s
    } else {
        apply_move(replay(s, p.drop_last()), p.last() as int)
    }
}

/// The moves that may follow the path `p`, in their fixed order: any move
/// first, then only rotations after a flip and only the flip after a
/// rotation.
pub open spec fn branches(p: Seq<i32>) -> Seq<i32> {
    if p.len() == 0 {
        seq![-6i32, -5i32, -4i32, -3i32, -2i32, -1i32, 0i32, 1i32, 2i32, 3i32, 4i32, 5i32, 6i32]
    } else if p.last() == 0 {
        seq![-6i32, -5i32, -4i32, -3i32, -2i32, -1i32, 1i32, 2i32, 3i32, 4i32, 5i32, 6i32]
    } else {
        seq![0i32]
    }
}

/// The inverse of a path: its moves in reverse order, each one undone.
pub open spec fn inverse(p: Seq<i32>) -> Seq<i32> {
    Seq::new(p.len(), |i: int| (-p[p.len() - 1 - i]) as i32)
}

/// Every move costs at least one, so a path costs at least its length.
pub proof fn lemma_cost_at_least_len(p: Seq<i32>)
    requires
        forall|i: int| 0 <= i < p.len() ==> #[trigger] is_move(p[i] as int),
    ensures
        path_cost(p) >= p.len(),
    decreases p.len(),
{
    if p.len() > 0 {
        lemma_cost_at_least_len(p.drop_last());
    }
}

/// The cost of two paths one after the other is the sum of their costs.
pub proof fn lemma_cost_append(a: Seq<i32>, b: Seq<i32>)
    ensures
        path_cost(a + b) == path_cost(a) + path_cost(b),
    decreases b.len(),
{
    if b.len() == 0 {
        assert(a + b =~= a);
    } else {
        assert((a + b).drop_last() =~= a + b.drop_last());
        lemma_cost_append(a, b.drop_last());
    }
}

/// Replaying two paths one after the other is replaying the second from
/// where the first ends.
pub proof fn lemma_replay_append(s: Seq<u8>, a: Seq<i32>, b: Seq<i32>)
    ensures
        replay(s, a + b) == replay(replay(s, a), b),
    decreases b.len(),
{
    if b.len() == 0 {
        assert(a + b =~= a);
    } else {
        assert((a + b).drop_last() =~= a + b.drop_last());
        lemma_replay_append(s, a, b.drop_last());
    }
}

/// Making the first move and then the rest is replaying the whole path.
pub proof fn lemma_replay_first(s: Seq<u8>, q: Seq<i32>)
    requires
        q.len() > 0,
    ensures
        replay(s, q) == replay(apply_move(s, q[0] as int), q.skip(1)),
        path_cost(q) == move_cost(q[0] as int) + path_cost(q.skip(1)),
{
    let first = seq![q[0]];
    assert(q =~= first + q.skip(1));
    lemma_replay_append(s, first, q.skip(1));
    lemma_cost_append(first, q.skip(1));
    assert(first.drop_last() =~= Seq::<i32>::empty());
    assert(replay(s, first) == apply_move(replay(s, first.drop_last()), q[0] as int));
    assert(path_cost(first) == path_cost(first.drop_last()) + move_cost(q[0] as int));
}

/// Two left rotations make one, by the sum of the two, around the ring.
pub proof fn lemma_rot_compose(s: Seq<u8>, a: int, b: int)
    requires
        s.len() == STATE_LEN,
        0 <= a < STATE_LEN,
        0 <= b < STATE_LEN,
    ensures
        rot_left(rot_left(s, a), b) == rot_left(s, (a + b) % (STATE_LEN as int)),
{
    let r = rot_left(rot_left(s, a), b);
    let t = rot_left(s, (a + b) % (STATE_LEN as int));
    assert forall|i: int| 0 <= i < STATE_LEN implies r[i] == t[i] by {
        if a + b < STATE_LEN {
            assert((a + b) % (STATE_LEN as int) == a + b);
        } else {
            assert((a + b) % (STATE_LEN as int) == a + b - STATE_LEN);
        }
    }
    assert(r =~= t);
}

/// A rotation by nothing changes nothing.
pub proof fn lemma_rot_zero(s: Seq<u8>)
    ensures
        rot_left(s, 0) == s,
{
    assert(rot_left(s, 0) =~= s);
}

/// Undoing a move: the move with the opposite code takes a state back.
pub proof fn lemma_move_undo(s: Seq<u8>, m: int)
    requires
        s.len() == STATE_LEN,
        is_move(m),
    ensures
        apply_move(apply_move(s, m), -m) == s,
{
    if m == 0 {
        assert(flip(flip(s)) =~= s);
    } else if m < 0 {
        lemma_rot_compose(s, -m, STATE_LEN - (-m));
        lemma_rot_zero(s);
    } else {
        lemma_rot_compose(s, STATE_LEN - m, m);
        lemma_rot_zero(s);
    }
}

/// The flip undoes itself.
pub proof fn lemma_flip_involution(s: Seq<u8>)
    requires
        s.len() == STATE_LEN,
    ensures
        apply_move(apply_move(s, FLIP as int), FLIP as int) == s,
{
    lemma_move_undo(s, 0);
}

/// A rotation by `k` slots is undone by the rotation by `-k` slots.
pub proof fn lemma_rotation_inverse(s: Seq<u8>, k: int)
    requires
        s.len() == STATE_LEN,
        1 <= k <= MAX_TURN || -MAX_TURN <= k <= -1,
    ensures
        apply_move(apply_move(s, k), -k) == s,
{
    lemma_move_undo(s, k);
}

/// Moves keep the number of slots.
pub proof fn lemma_replay_len(s: Seq<u8>, p: Seq<i32>)
    requires
        s.len() == STATE_LEN,
        forall|i: int| 0 <= i < p.len() ==> #[trigger] is_move(p[i] as int),
    ensures
        replay(s, p).len() == STATE_LEN,
    decreases p.len(),
{
    if p.len() > 0 {
        assert(is_move(p[p.len() - 1] as int));
        lemma_replay_len(s, p.drop_last());
    }
}

/// A move keeps the symbols of a state, and only moves them about.
pub proof fn lemma_move_same_symbols(s: Seq<u8>, m: int)
    requires
        s.len() == STATE_LEN,
        is_move(m),
    ensures
        apply_move(s, m).to_multiset() == s.to_multiset(),
{
    broadcast use vstd::seq_lib::to_multiset_update, vstd::multiset::group_multiset_axioms;

    if m == 0 {
        let s1 = s.update(0, s[3]);
        let s2 = s1.update(3, s[0]);
        let s3 = s2.update(1, s[2]);
        let s4 = s3.update(2, s[1]);
        assert(s.to_multiset().contains(s[0])) by {
            vstd::seq_lib::to_multiset_contains(s, s[0]);
        }
        assert(s2.to_multiset() =~= s.to_multiset());
        assert(s2[1] == s[1]);
        assert(s2.to_multiset().contains(s[1])) by {
            vstd::seq_lib::to_multiset_contains(s2, s[1]);
        }
        assert(s4.to_multiset() =~= s2.to_multiset());
    } else {
        let k = if m < 0 { -m } else { STATE_LEN - m };
        vstd::seq_lib::lemma_multiset_commutative(s.subrange(k, 14), s.subrange(0, k));
        vstd::seq_lib::lemma_multiset_commutative(s.subrange(0, k), s.subrange(k, 14));
        assert(s.subrange(0, k) + s.subrange(k, 14) =~= s);
    }
}

/// Every state reached from `goal` by moves holds the same symbols as
/// `goal`, each as often.
pub proof fn lemma_reachable_same_symbols(goal: Seq<u8>, p: Seq<i32>)
    requires
        goal.len() == STATE_LEN,
        forall|i: int| 0 <= i < p.len() ==> #[trigger] is_move(p[i] as int),
    ensures
        replay(goal, p).to_multiset() == goal.to_multiset(),
    decreases p.len(),
{
    if p.len() > 0 {
        assert(is_move(p[p.len() - 1] as int));
        lemma_reachable_same_symbols(goal, p.drop_last());
        lemma_replay_len(goal, p.drop_last());
        lemma_move_same_symbols(replay(goal, p.drop_last()), p.last() as int);
    }
}

/// The inverse of a path of alternating moves alternates too.
pub proof fn lemma_inverse_alternates(q: Seq<i32>)
    requires
        alternates(q),
    ensures
        alternates(inverse(q)),
{
    let inv = inverse(q);
    assert forall|i: int| 1 <= i < inv.len() implies (inv[i - 1] == 0) != (#[trigger] inv[i]
        == 0) by {
        assert(is_move(q[q.len() - 1 - i] as int));
        assert(is_move(q[q.len() - 1 - (i - 1)] as int));
        assert(inv[i] == -q[q.len() - 1 - i]);
        assert(inv[i - 1] == -q[q.len() - 1 - (i - 1)]);
    }
    assert forall|i: int| 0 <= i < inv.len() implies #[trigger] is_move(inv[i] as int) by {
        assert(is_move(q[q.len() - 1 - i] as int));
    }
}

/// The inverse of a path starts by undoing its last move.
pub proof fn lemma_inverse_last(q: Seq<i32>)
    requires
        q.len() > 0,
    ensures
        inverse(q) == seq![(-q.last()) as i32] + inverse(q.drop_last()),
{
    assert(inverse(q) =~= seq![(-q.last()) as i32] + inverse(q.drop_last()));
}

/// Replaying the inverse of a path takes the end state back to the start,
/// at the same cost.
pub proof fn lemma_replay_inverse(s: Seq<u8>, q: Seq<i32>)
    requires
        s.len() == STATE_LEN,
        forall|i: int| 0 <= i < q.len() ==> #[trigger] is_move(q[i] as int),
    ensures
        replay(replay(s, q), inverse(q)) == s,
        path_cost(inverse(q)) == path_cost(q),
    decreases q.len(),
{
    if q.len() == 0 {
        assert(inverse(q) =~= Seq::<i32>::empty());
    } else {
        let q1 = q.drop_last();
        let m = q.last();
        let undo = seq![(-m) as i32];
        assert(is_move(q[q.len() - 1] as int));
        lemma_replay_inverse(s, q1);
        lemma_inverse_last(q);
        lemma_replay_len(s, q1);
        lemma_replay_first(replay(s, q), inverse(q));
        assert(undo =~= seq![inverse(q)[0]]);
        assert(inverse(q).skip(1) =~= inverse(q1));
        lemma_move_undo(replay(s, q1), m as int);
    }
}

/// Where the move `m` stands among the moves that may follow `p`.
pub open spec fn branch_index(p: Seq<i32>, m: int) -> int {
    if p.len() == 0 {
        m + 6
    } else if p.last() == 0 {
        if m < 0 {
            m + 6
        } else {
            m + 5
        }
    } else {
        0
    }
}

/// The move at position `j` of the moves offered after `p` stands at `j`.
pub proof fn lemma_branch_index(p: Seq<i32>, j: int)
    requires
        0 <= j < branches(p).len(),
    ensures
        branch_index(p, branches(p)[j] as int) == j,
{
}

/// Each move offered after a path keeps it a path.
pub proof fn lemma_branches_sound(p: Seq<i32>, j: int)
    requires
        alternates(p),
        0 <= j < branches(p).len(),
    ensures
        alternates(p.push(branches(p)[j])),
{
    let q = p.push(branches(p)[j]);
    assert forall|i: int| 1 <= i < q.len() implies (q[i - 1] == 0) != (#[trigger] q[i] == 0) by {
        if i < p.len() {
            assert(q[i] == p[i] && q[i - 1] == p[i - 1]);
        }
    }
    assert forall|i: int| 0 <= i < q.len() implies #[trigger] is_move(q[i] as int) by {
        if i < p.len() {
            assert(q[i] == p[i]);
        }
    }
}

/// Each move that keeps a path a path is offered after it.
pub proof fn lemma_branches_complete(p: Seq<i32>, m: int)
    requires
        alternates(p.push(m as i32)),
        is_move(m),
    ensures
        0 <= branch_index(p, m) < branches(p).len(),
        branches(p)[branch_index(p, m)] == m,
{
    let q = p.push(m as i32);
    if p.len() > 0 {
        assert(q[p.len() - 1] == p.last());
        assert((q[p.len() as int - 1] == 0) != (q[p.len() as int] == 0));
    }
}

/// A prefix of a path is a path.
pub proof fn lemma_alternates_prefix(p: Seq<i32>, n: int)
    requires
        alternates(p),
        0 <= n <= p.len(),
    ensures
        alternates(p.take(n)),
{
    let t = p.take(n);
    assert forall|i: int| 1 <= i < t.len() implies (t[i - 1] == 0) != (#[trigger] t[i] == 0) by {
        assert(t[i] == p[i] && t[i - 1] == p[i - 1]);
    }
    assert forall|i: int| 0 <= i < t.len() implies #[trigger] is_move(t[i] as int) by {
        assert(t[i] == p[i]);
    }
}

/// The moves of a path's continuation are moves.
pub proof fn lemma_alternates_suffix(p: Seq<i32>, q: Seq<i32>)
    requires
        alternates(p + q),
    ensures
        alternates(q),
{
    assert forall|i: int| 1 <= i < q.len() implies (q[i - 1] == 0) != (#[trigger] q[i] == 0) by {
        assert((p + q)[p.len() + i] == q[i] && (p + q)[p.len() + i - 1] == q[i - 1]);
    }
    assert forall|i: int| 0 <= i < q.len() implies #[trigger] is_move(q[i] as int) by {
        assert((p + q)[p.len() + i] == q[i]);
    }
}

/// Where the first move of the continuation `q` stands among the moves
/// offered after `p`.
pub open spec fn branch_index_of(p: Seq<i32>, q: Seq<i32>) -> int {
    branch_index(p, q[0] as int)
}

/// Splits a nonempty continuation `q` of `p` into its first move and the
/// rest.
pub proof fn lemma_split_continuation(s: Seq<u8>, p: Seq<i32>, q: Seq<i32>)
    requires
        alternates(p),
        alternates(p + q),
        q.len() > 0,
    ensures
        alternates(p.push(q[0])),
        p.push(q[0]) + q.skip(1) == p + q,
        is_move(q[0] as int),
        0 <= branch_index(p, q[0] as int) < branches(p).len(),
        branches(p)[branch_index(p, q[0] as int)] == q[0],
        replay(s, q) == replay(apply_move(s, q[0] as int), q.skip(1)),
        path_cost(q) == move_cost(q[0] as int) + path_cost(q.skip(1)),
{
    let first = p.push(q[0]);
    assert(first + q.skip(1) =~= p + q);
    assert(alternates(first)) by {
        assert((p + q).take(p.len() as int + 1) =~= first);
        lemma_alternates_prefix(p + q, p.len() as int + 1);
    }
    assert(is_move(q[0] as int)) by {
        lemma_alternates_suffix(p, q);
    }
    assert(0 <= branch_index(p, q[0] as int) < branches(p).len() && branches(p)[branch_index(
        p,
        q[0] as int,
    )] == q[0]) by {
        lemma_branches_complete(p, q[0] as int);
    }
    lemma_replay_first(s, q);
}

/// Applies one move to a state.
pub fn run_step(state: [u8; 14], step: i32) -> (next: [u8; 14])
    requires
        is_move(step as int),
    ensures
        next@ == apply_move(state@, step as int),
{
    let mut next = state;
    if step == FLIP {
        next[0] = state[3];
        next[3] = state[0];
        next[1] = state[2];
        next[2] = state[1];
        assert(next@ =~= flip(state@));
    } else {
        let shift: usize = if step < 0 {
            (-step) as usize
        } else {
            STATE_LEN - step as usize
        };
        let mut i: usize = 0;
        while i < STATE_LEN
            invariant
                1 <= shift < STATE_LEN,
                shift == (if step < 0 { -step } else { STATE_LEN - step }),
                i <= STATE_LEN,
                forall|j: int| 0 <= j < i ==> next[j] == rot_left(state@, shift as int)[j],
            decreases STATE_LEN - i,
        {
            let from: usize = if i + shift < STATE_LEN {
                i + shift
            } else {
                i + shift - STATE_LEN
            };
            next[i] = state[from];
            i += 1;
        }
        assert(next@ =~= rot_left(state@, shift as int));
    }
    next
}

/// The cost of a path: one for each flip, the magnitude of each rotation.
pub fn path_length(path: &Vec<i32>) -> (r: usize)
    requires
        forall|i: int| 0 <= i < path@.len() ==> #[trigger] is_move(path@[i] as int),
        path@.len() <= usize::MAX / 6,
    ensures
        r == path_cost(path@),
{
    let mut total: usize = 0;
    let mut i: usize = 0;
    while i < path.len()
        invariant
            i <= path@.len(),
            path@.len() <= usize::MAX / 6,
            forall|j: int| 0 <= j < path@.len() ==> #[trigger] is_move(path@[j] as int),
            total == path_cost(path@.take(i as int)),
            total <= MAX_TURN * i,
        decreases path@.len() - i,
    {
        let m = path[i];
        assert(is_move(path@[i as int] as int));
        assert(path@.take(i + 1).drop_last() =~= path@.take(i as int));
        total = total + if m == FLIP {
            1
        } else if m < 0 {
            (-m) as usize
        } else {
            m as usize
        };
        i += 1;
    }
    assert(path@.take(i as int) =~= path@);
    total
}

/// The moves that may follow `path`, in their fixed order.
pub fn legal_moves(path: &Vec<i32>) -> (r: Vec<i32>)
    ensures
        r@ == branches(path@),
{
    let r = if path.len() == 0 {
        vec![-6, -5, -4, -3, -2, -1, 0, 1, 2, 3, 4, 5, 6]
    } else if path[path.len() - 1] == FLIP {
        vec![-6, -5, -4, -3, -2, -1, 1, 2, 3, 4, 5, 6]
    } else {
        vec![0]
    };
    assert(r@ =~= branches(path@));
    r
}

} // verus!
