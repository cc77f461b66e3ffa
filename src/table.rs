//! The pruning table: for each abstracted state, the least cost at which
//! it was reached from the abstracted goal.
use std::collections::HashMap;
use vstd::prelude::*;
use crate::moves::{
    alternates, apply_move, branch_index_of, branches, inverse, is_move, lemma_alternates_suffix,
    lemma_branches_sound, lemma_cost_at_least_len, lemma_inverse_alternates, lemma_replay_inverse,
    lemma_replay_len, lemma_split_continuation, lemma_replay_first, lemma_branch_index, move_cost, legal_moves, path_cost, replay, run_step, FLIP,
    MAX_TURN, STATE_LEN,
};

verus! {

broadcast use vstd::std_specs::hash::group_hash_axioms;

/// The symbol that stands for every masked symbol.
pub const WILDCARD: u8 = 95;

/// The table holds every abstracted state reached at a cost up to this.
pub const TABLE_DEPTH: usize = 19;

/// The estimate for an abstracted state that the table does not hold.
pub const ABSENT_ESTIMATE: i32 = 20;

/// The abstracted state: every symbol of `mask` becomes the wildcard.
pub open spec fn mask_seq(s: Seq<u8>, mask: Seq<u8>) -> Seq<u8> {
    Seq::new(s.len(), |i: int| if mask.contains(s[i]) { WILDCARD } else { s[i] })
}

/// The first `n` symbols of `s` packed into an integer, one byte each, the
/// first symbol in the highest byte.
pub open spec fn pack(s: Seq<u8>, n: int) -> u128
    decreases n,
{
    if n <= 0 {
        0
    } else {
        ((pack(s, n - 1) << 8u128) | (s[n - 1] as u128)) as u128
    }
}

/// One more byte shifted in: nothing is lost while the key has room.
proof fn lemma_pack_step(x: u128, b: u128, k: u128)
    by (bit_vector)
    requires
        x >> k == 0u128,
        b < 256u128,
        k <= 112u128,
    ensures
        ((x << 8u128) | b) >> (k + 8u128) == 0u128,
        ((x << 8u128) | b) >> 8u128 == x,
        ((x << 8u128) | b) & 255u128 == b,
{
}

/// The first `n` symbols fill no more than the low `8 * n` bits.
proof fn lemma_pack_fits(s: Seq<u8>, n: int)
    requires
        0 <= n <= STATE_LEN,
    ensures
        pack(s, n) >> ((8 * n) as u128) == 0u128,
    decreases n,
{
    if n == 0 {
        assert(0u128 >> 0u128 == 0u128) by (bit_vector);
    } else {
        lemma_pack_fits(s, n - 1);
        lemma_pack_step(pack(s, n - 1), s[n - 1] as u128, (8 * (n - 1)) as u128);
    }
}

/// Packing keeps every symbol: equal keys come from equal states.
pub proof fn lemma_pack_injective(s: Seq<u8>, t: Seq<u8>, n: int)
    requires
        0 <= n <= STATE_LEN,
        n <= s.len(),
        n <= t.len(),
        pack(s, n) == pack(t, n),
    ensures
        s.take(n) == t.take(n),
    decreases n,
{
    if n > 0 {
        lemma_pack_fits(s, n - 1);
        lemma_pack_fits(t, n - 1);
        lemma_pack_step(pack(s, n - 1), s[n - 1] as u128, (8 * (n - 1)) as u128);
        lemma_pack_step(pack(t, n - 1), t[n - 1] as u128, (8 * (n - 1)) as u128);
        lemma_pack_injective(s, t, n - 1);
        assert(s.take(n) =~= s.take(n - 1).push(s[n - 1]));
        assert(t.take(n) =~= t.take(n - 1).push(t[n - 1]));
    }
}

/// Two states of `STATE_LEN` slots with one key are one state.
pub proof fn lemma_key_injective(s: Seq<u8>, t: Seq<u8>)
    requires
        s.len() == STATE_LEN,
        t.len() == STATE_LEN,
        key_of(s) == key_of(t),
    ensures
        s == t,
{
    lemma_pack_injective(s, t, STATE_LEN as int);
    assert(s.take(STATE_LEN as int) =~= s);
    assert(t.take(STATE_LEN as int) =~= t);
}

/// The table key of a state.
pub open spec fn key_of(s: Seq<u8>) -> u128 {
    pack(s, s.len() as int)
}

/// `map` holds the key of every state that a path of cost at most `d`
/// reaches from `origin`, at no more than that cost.
pub open spec fn complete_to(map: Map<u128, i32>, origin: Seq<u8>, d: int) -> bool {
    forall|q: Seq<i32>|
        alternates(q) && path_cost(q) <= d ==> {
            &&& map.contains_key(#[trigger] key_of(replay(origin, q)))
            &&& map[key_of(replay(origin, q))] <= path_cost(q)
        }
}

/// Some path from `origin` of cost `c` reaches a state whose key is `k`.
pub open spec fn reached_at(origin: Seq<u8>, k: u128, c: int) -> bool {
    exists|q: Seq<i32>|
        alternates(q) && path_cost(q) == c && #[trigger] key_of(replay(origin, q)) == k
}

/// Every value of `map` is a cost at which a path from `origin` reaches
/// its key.
pub open spec fn sound(map: Map<u128, i32>, origin: Seq<u8>) -> bool {
    forall|k: u128| #[trigger] map.contains_key(k) ==> reached_at(origin, k, map[k] as int)
}

/// A continuation of `p` from `s`, at a total cost of exactly `d`, reaches
/// a state whose key is `k`.
pub open spec fn hits(p: Seq<i32>, s: Seq<u8>, len: int, d: int, k: u128) -> bool {
    exists|q: Seq<i32>|
        alternates(p + q) && len + path_cost(q) == d && #[trigger] key_of(replay(s, q)) == k
}

/// As `hits`, for a continuation whose first move is among the first `j`
/// moves offered after `p`.
pub open spec fn hits_before(p: Seq<i32>, s: Seq<u8>, len: int, d: int, k: u128, j: int) -> bool {
    exists|q: Seq<i32>|
        q.len() > 0 && alternates(p + q) && len + path_cost(q) == d && branch_index_of(p, q) < j
            && #[trigger] key_of(replay(s, q)) == k
}

/// `new_map` is `old_map` where each key for which `hit` holds is set to the
/// lesser of its old value and `d` (to `d` where it was absent), and every
/// other key is left as it was.
pub open spec fn min_updated(
    old_map: Map<u128, i32>,
    new_map: Map<u128, i32>,
    d: int,
    hit: spec_fn(u128) -> bool,
) -> bool {
    forall|k: u128|
        #![trigger new_map.contains_key(k)]
        #![trigger old_map.contains_key(k)]
        #![trigger hit(k)]
        if hit(k) {
            &&& new_map.contains_key(k)
            &&& new_map[k] as int == if old_map.contains_key(k) && old_map[k] < d {
                old_map[k] as int
            } else {
                d
            }
        } else {
            &&& new_map.contains_key(k) == old_map.contains_key(k)
            &&& old_map.contains_key(k) ==> new_map[k] == old_map[k]
        }
}

/// Two updates of the same kind in a row make one, for the keys that either
/// one touches.
pub proof fn lemma_min_updated_twice(
    m0: Map<u128, i32>,
    m1: Map<u128, i32>,
    m2: Map<u128, i32>,
    d: int,
    h1: spec_fn(u128) -> bool,
    h2: spec_fn(u128) -> bool,
    h: spec_fn(u128) -> bool,
)
    requires
        min_updated(m0, m1, d, h1),
        min_updated(m1, m2, d, h2),
        forall|k: u128| #[trigger] h(k) == (h1(k) || h2(k)),
    ensures
        min_updated(m0, m2, d, h),
{
    assert forall|k: u128| #[trigger] h(k) || !h(k) implies (if h(k) {
        &&& m2.contains_key(k)
        &&& m2[k] as int == if m0.contains_key(k) && m0[k] < d {
            m0[k] as int
        } else {
            d
        }
    } else {
        &&& m2.contains_key(k) == m0.contains_key(k)
        &&& m0.contains_key(k) ==> m2[k] == m0[k]
    }) by {
        assert(h1(k) || !h1(k));
        assert(h2(k) || !h2(k));
        assert(m0.contains_key(k) || !m0.contains_key(k));
        assert(m1.contains_key(k) || !m1.contains_key(k));
    }
}

/// An update over one set of keys is an update over any set with the same
/// members.
pub proof fn lemma_min_updated_same(
    m0: Map<u128, i32>,
    m1: Map<u128, i32>,
    d: int,
    h1: spec_fn(u128) -> bool,
    h: spec_fn(u128) -> bool,
)
    requires
        min_updated(m0, m1, d, h1),
        forall|k: u128| #[trigger] h(k) == h1(k),
    ensures
        min_updated(m0, m1, d, h),
{
    assert forall|k: u128| #[trigger] h(k) || !h(k) implies (if h(k) {
        &&& m1.contains_key(k)
        &&& m1[k] as int == if m0.contains_key(k) && m0[k] < d {
            m0[k] as int
        } else {
            d
        }
    } else {
        &&& m1.contains_key(k) == m0.contains_key(k)
        &&& m0.contains_key(k) ==> m1[k] == m0[k]
    }) by {
        assert(h1(k) || !h1(k));
    }
}

/// Every value of `map` lies in `0..=d`.
pub open spec fn bounded_by(map: Map<u128, i32>, d: int) -> bool {
    forall|k: u128| #[trigger] map.contains_key(k) ==> 0 <= map[k] <= d
}

/// No key leaves `old_map`, and no value grows.
pub open spec fn only_lowered(old_map: Map<u128, i32>, new_map: Map<u128, i32>) -> bool {
    forall|k: u128|
        #[trigger] old_map.contains_key(k) ==> new_map.contains_key(k) && new_map[k] <= old_map[k]
}

/// Masking and moving can be done in either order.
pub proof fn lemma_mask_move(s: Seq<u8>, mask: Seq<u8>, m: int)
    requires
        s.len() == STATE_LEN,
        is_move(m),
    ensures
        mask_seq(apply_move(s, m), mask) == apply_move(mask_seq(s, mask), m),
{
    assert(mask_seq(apply_move(s, m), mask) =~= apply_move(mask_seq(s, mask), m));
}

/// Masking and replaying a path can be done in either order.
pub proof fn lemma_mask_replay(s: Seq<u8>, mask: Seq<u8>, p: Seq<i32>)
    requires
        s.len() == STATE_LEN,
        forall|i: int| 0 <= i < p.len() ==> #[trigger] is_move(p[i] as int),
    ensures
        mask_seq(replay(s, p), mask) == replay(mask_seq(s, mask), p),
    decreases p.len(),
{
    if p.len() > 0 {
        assert(is_move(p[p.len() - 1] as int));
        lemma_mask_replay(s, mask, p.drop_last());
        lemma_replay_len(s, p.drop_last());
        lemma_mask_move(replay(s, p.drop_last()), mask, p.last() as int);
    }
}

/// The abstracted state: each symbol of `state` found in `mask` becomes the
/// wildcard.
pub fn mask_state(state: &[u8; 14], mask: &[u8; 7]) -> (r: [u8; 14])
    ensures
        r@ == mask_seq(state@, mask@),
{
    let mut result = *state;
    let mut i: usize = 0;
    while i < STATE_LEN
        invariant
            i <= STATE_LEN,
            forall|j: int| 0 <= j < i ==> result[j] == mask_seq(state@, mask@)[j],
            forall|j: int| i <= j < STATE_LEN ==> result[j] == state[j],
        decreases STATE_LEN - i,
    {
        let ch = state[i];
        let mut found = false;
        let mut k: usize = 0;
        while k < 7
            invariant
                k <= 7,
                found == (exists|n: int| 0 <= n < k && mask@[n] == ch),
            decreases 7 - k,
        {
            if mask[k] == ch {
                found = true;
            }
            k += 1;
        }
        proof {
            if found {
                let n = choose|n: int| 0 <= n < 7 && mask@[n] == ch;
                assert(mask@.contains(ch));
            }
        }
        if found {
            result[i] = WILDCARD;
        }
        i += 1;
    }
    assert(result@ =~= mask_seq(state@, mask@));
    result
}

/// The table key of a state.
pub fn state_key(state: &[u8; 14]) -> (r: u128)
    ensures
        r == key_of(state@),
{
    let mut key: u128 = 0;
    let mut i: usize = 0;
    while i < STATE_LEN
        invariant
            i <= STATE_LEN,
            key == pack(state@, i as int),
        decreases STATE_LEN - i,
    {
        key = (key << 8u128) | (state[i] as u128);
        i += 1;
    }
    key
}

/// A pruning table, built backwards from a goal: for abstracted states,
/// where the symbols of a mask are all alike, the least cost at which a path
/// from the goal reaches them.
pub struct PruningTable {
    map: HashMap<u128, i32>,
    mask: [u8; 7],
    goal: [u8; 14],
}

impl PruningTable {
    /// The goal that the table was built from.
    pub closed spec fn goal(&self) -> Seq<u8> {
        self.goal@
    }

    /// The abstracted goal, where the table's paths start.
    pub open spec fn origin(&self) -> Seq<u8> {
        mask_seq(self.goal(), self.mask())
    }

    /// The symbols that the table does not tell apart.
    pub closed spec fn mask(&self) -> Seq<u8> {
        self.mask@
    }

    /// What the table holds for the abstraction of `s`.
    pub closed spec fn recorded(&self, s: Seq<u8>) -> Option<int> {
        let k = key_of(mask_seq(s, self.mask@));
        if self.map@.contains_key(k) {
            Some(self.map@[k] as int)
        } else {
            None
        }
    }

    /// The number of abstracted states that the table holds.
    pub closed spec fn size(&self) -> nat {
        self.map@.len()
    }

    /// The table's lower bound on the cost of solving `s`.
    pub open spec fn estimate(&self, s: Seq<u8>) -> int {
        match self.recorded(s) {
            Some(v) => v,
            None => ABSENT_ESTIMATE as int,
        }
    }

    /// The table holds, for every path of cost up to `TABLE_DEPTH` from the
    /// goal, the abstraction of the state it reaches at no more than that
    /// cost, and nothing above `TABLE_DEPTH`.
    pub closed spec fn wf(&self) -> bool {
        &&& sound(self.map@, self.origin())
        &&& bounded_by(self.map@, TABLE_DEPTH as int)
        &&& complete_to(self.map@, self.origin(), TABLE_DEPTH as int)
    }

    /// The goal that the table was built from.
    pub fn goal_state(&self) -> (r: [u8; 14])
        ensures
            r@ == self.goal(),
    {
        self.goal
    }

    /// The number of abstracted states that the table holds.
    pub fn len(&self) -> (r: usize)
        ensures
            r == self.size(),
    {
        self.map.len()
    }
}

/// Sets the value of `key` to `depth` where it is absent or higher, and
/// says whether it did.
fn record(map: &mut HashMap<u128, i32>, key: u128, depth: i32) -> (better: bool)
    ensures
        min_updated(old(map)@, final(map)@, depth as int, |k: u128| k == key),
        better == (!old(map)@.contains_key(key) || old(map)@[key] > depth),
        better ==> final(map)@ == old(map)@.insert(key, depth),
        !better ==> final(map)@ == old(map)@,
{
    let better = match map.get(&key) {
        None => true,
        Some(v) => *v > depth,
    };
    if better {
        map.insert(key, depth);
    }
    better
}

/// At the target cost, the one continuation is the empty one.
proof fn lemma_hits_leaf(p: Seq<i32>, s: Seq<u8>, len: int)
    requires
        alternates(p),
    ensures
        forall|k: u128| #[trigger] hits(p, s, len, len, k) == (k == key_of(s)),
{
    assert forall|k: u128| #[trigger] hits(p, s, len, len, k) == (k == key_of(s)) by {
        if hits(p, s, len, len, k) {
            let q = choose|q: Seq<i32>|
                alternates(p + q) && len + path_cost(q) == len && #[trigger] key_of(replay(s, q))
                    == k;
            lemma_alternates_suffix(p, q);
            lemma_cost_at_least_len(q);
        }
        if k == key_of(s) {
            let e = Seq::<i32>::empty();
            assert(p + e =~= p);
            assert(key_of(replay(s, e)) == k);
        }
    }
}

/// Past the target cost, no continuation reaches it.
proof fn lemma_hits_none(p: Seq<i32>, s: Seq<u8>, len: int, d: int)
    requires
        len > d,
    ensures
        forall|k: u128| !#[trigger] hits(p, s, len, d, k),
{
    assert forall|k: u128| !#[trigger] hits(p, s, len, d, k) by {
        if hits(p, s, len, d, k) {
            let q = choose|q: Seq<i32>|
                alternates(p + q) && len + path_cost(q) == d && #[trigger] key_of(replay(s, q))
                    == k;
            lemma_alternates_suffix(p, q);
            lemma_cost_at_least_len(q);
        }
    }
}

/// Below the target cost, every continuation starts with an offered move.
proof fn lemma_hits_branches(p: Seq<i32>, s: Seq<u8>, len: int, d: int)
    requires
        alternates(p),
        len < d,
    ensures
        forall|k: u128| !#[trigger] hits_before(p, s, len, d, k, 0),
        forall|k: u128|
            #[trigger] hits(p, s, len, d, k) == hits_before(
                p,
                s,
                len,
                d,
                k,
                branches(p).len() as int,
            ),
{
    assert forall|k: u128| !#[trigger] hits_before(p, s, len, d, k, 0) by {
        if hits_before(p, s, len, d, k, 0) {
            let q = choose|q: Seq<i32>|
                q.len() > 0 && alternates(p + q) && len + path_cost(q) == d && branch_index_of(p, q)
                    < 0 && #[trigger] key_of(replay(s, q)) == k;
            lemma_split_continuation(s, p, q);
        }
    }
    assert forall|k: u128|
        #[trigger] hits(p, s, len, d, k) == hits_before(p, s, len, d, k, branches(p).len() as int) by {
        if hits(p, s, len, d, k) {
            let q = choose|q: Seq<i32>|
                alternates(p + q) && len + path_cost(q) == d && #[trigger] key_of(replay(s, q))
                    == k;
            if q.len() == 0 {
                assert(path_cost(q) == 0);
            }
            lemma_split_continuation(s, p, q);
        }
    }
}

/// The continuations that start with one of the first `j + 1` offered moves
/// are those that start with one of the first `j`, and those that start with
/// move `j`.
proof fn lemma_hits_step(p: Seq<i32>, s: Seq<u8>, len: int, d: int, j: int)
    requires
        alternates(p),
        0 <= j < branches(p).len(),
    ensures
        forall|k: u128|
            #[trigger] hits_before(p, s, len, d, k, j + 1) == (hits_before(p, s, len, d, k, j) || hits(
                p.push(branches(p)[j]),
                apply_move(s, branches(p)[j] as int),
                len + move_cost(branches(p)[j] as int),
                d,
                k,
            )),
{
    let m = branches(p)[j];
    let p1 = p.push(m);
    let s1 = apply_move(s, m as int);
    let len1 = len + move_cost(m as int);
    lemma_branch_index(p, j);
    assert forall|k: u128|
        #[trigger] hits_before(p, s, len, d, k, j + 1) == (hits_before(p, s, len, d, k, j) || hits(
            p1,
            s1,
            len1,
            d,
            k,
        )) by {
        if hits_before(p, s, len, d, k, j + 1) && !hits_before(p, s, len, d, k, j) {
            let q = choose|q: Seq<i32>|
                q.len() > 0 && alternates(p + q) && len + path_cost(q) == d && branch_index_of(p, q)
                    < j + 1 && #[trigger] key_of(replay(s, q)) == k;
            lemma_split_continuation(s, p, q);
            assert(q[0] == m);
            assert(key_of(replay(s1, q.skip(1))) == k);
        }
        if hits(p1, s1, len1, d, k) {
            let r = choose|r: Seq<i32>|
                alternates(p1 + r) && len1 + path_cost(r) == d && #[trigger] key_of(replay(s1, r))
                    == k;
            let q = seq![m] + r;
            assert(q[0] == m);
            assert(q.skip(1) =~= r);
            assert(p + q =~= p1 + r);
            lemma_replay_first(s, q);
            assert(key_of(replay(s, q)) == k);
        }
    }
}

/// Records in `map` every abstracted state that a continuation of `path`
/// from `state` reaches at a total cost of exactly `max_path_length`,
/// keeping for each key the least cost seen.
fn build_table_at_depth(
    map: &mut HashMap<u128, i32>,
    state: [u8; 14],
    path: &mut Vec<i32>,
    len: usize,
    max_path_length: usize,
    Ghost(origin): Ghost<Seq<u8>>,
)
    requires
        state@ == replay(origin, old(path)@),
        sound(old(map)@, origin),
        alternates(old(path)@),
        len == path_cost(old(path)@),
        max_path_length <= TABLE_DEPTH,
        len <= max_path_length + MAX_TURN,
        bounded_by(old(map)@, max_path_length as int),
    ensures
        final(path)@ == old(path)@,
        sound(final(map)@, origin),
        bounded_by(final(map)@, max_path_length as int),
        only_lowered(old(map)@, final(map)@),
        forall|q: Seq<i32>|
            alternates(old(path)@ + q) && len + path_cost(q) == max_path_length ==> {
                &&& final(map)@.contains_key(#[trigger] key_of(replay(state@, q)))
                &&& final(map)@[key_of(replay(state@, q))] <= max_path_length
            },
        min_updated(
            old(map)@,
            final(map)@,
            max_path_length as int,
            |k: u128| hits(old(path)@, state@, len as int, max_path_length as int, k),
        ),
    decreases max_path_length + MAX_TURN - len,
{
    let ghost map_in = map@;
    let ghost hit = |k: u128| hits(path@, state@, len as int, max_path_length as int, k);
    if len == max_path_length {
        let key = state_key(&state);
        let depth = len as i32;
        let better = record(map, key, depth);
        assert forall|k: u128| #[trigger] map@.contains_key(k) implies reached_at(
            origin,
            k,
            map@[k] as int,
        ) by {
            if better && k == key {
                assert(key_of(replay(origin, path@)) == k);
            }
        }
        assert forall|q: Seq<i32>|
            alternates(old(path)@ + q) && len + path_cost(q) == max_path_length implies {
                &&& map@.contains_key(#[trigger] key_of(replay(state@, q)))
                &&& map@[key_of(replay(state@, q))] <= max_path_length
            } by {
            lemma_alternates_suffix(path@, q);
            lemma_cost_at_least_len(q);
            assert(q.len() == 0);
        }
        proof {
            lemma_hits_leaf(path@, state@, len as int);
            lemma_min_updated_same(map_in, map@, len as int, |k: u128| k == key, hit);
        }
        return;
    }
    if len > max_path_length {
        assert forall|q: Seq<i32>|
            alternates(old(path)@ + q) && len + path_cost(q) == max_path_length implies {
                &&& map@.contains_key(#[trigger] key_of(replay(state@, q)))
                &&& map@[key_of(replay(state@, q))] <= max_path_length
            } by {
            lemma_alternates_suffix(path@, q);
            lemma_cost_at_least_len(q);
        }
        proof {
            lemma_hits_none(path@, state@, len as int, max_path_length as int);
            lemma_min_updated_same(map_in, map@, max_path_length as int, |k: u128| false, hit);
        }
        return;
    }
    let ghost p0 = path@;
    let ghost map0 = map@;
    let moves = legal_moves(path);
    let mut j: usize = 0;
    proof {
        assert forall|q: Seq<i32>|
            q.len() > 0 && alternates(p0 + q) implies branch_index_of(p0, q) >= 0 by {
            lemma_split_continuation(state@, p0, q);
        }
        lemma_hits_branches(p0, state@, len as int, max_path_length as int);
        assert(min_updated(
            map0,
            map@,
            max_path_length as int,
            |k: u128| hits_before(p0, state@, len as int, max_path_length as int, k, 0),
        ));
    }
    while j < moves.len()
        invariant
            p0 == old(path)@,
            map0 == old(map)@,
            path@ == p0,
            state@ == replay(origin, p0),
            sound(map@, origin),
            alternates(p0),
            moves@ == branches(p0),
            j <= moves@.len(),
            len == path_cost(p0),
            len < max_path_length <= TABLE_DEPTH,
            bounded_by(map@, max_path_length as int),
            only_lowered(map0, map@),
            min_updated(
                map0,
                map@,
                max_path_length as int,
                |k: u128| hits_before(p0, state@, len as int, max_path_length as int, k, j as int),
            ),
            forall|q: Seq<i32>|
                q.len() > 0 && alternates(p0 + q) && len + path_cost(q) == max_path_length
                    && branch_index_of(p0, q) < j ==> {
                    &&& map@.contains_key(#[trigger] key_of(replay(state@, q)))
                    &&& map@[key_of(replay(state@, q))] <= max_path_length
                },
        decreases moves@.len() - j,
    {
        let step = moves[j];
        proof {
            lemma_branches_sound(p0, j as int);
            assert(is_move(path@.push(step)[p0.len() as int] as int));
        }
        let next = run_step(state, step);
        let cost: usize = if step == FLIP {
            1
        } else if step < 0 {
            (-step) as usize
        } else {
            step as usize
        };
        let ghost before = map@;
        path.push(step);
        proof {
            assert(path@.drop_last() =~= p0);
        }
        build_table_at_depth(map, next, path, len + cost, max_path_length, Ghost(origin));
        path.pop();
        proof {
            assert(path@ =~= p0);
            assert forall|q: Seq<i32>|
                q.len() > 0 && alternates(p0 + q) && len + path_cost(q) == max_path_length
                    && branch_index_of(p0, q) < j + 1 implies {
                    &&& map@.contains_key(#[trigger] key_of(replay(state@, q)))
                    &&& map@[key_of(replay(state@, q))] <= max_path_length
                } by {
                lemma_split_continuation(state@, p0, q);
                if branch_index_of(p0, q) == j {
                    assert(q[0] == step);
                    assert(p0.push(step) + q.skip(1) == p0 + q);
                } else {
                    assert(before.contains_key(key_of(replay(state@, q))));
                }
            }
            assert forall|k: u128| #[trigger] map0.contains_key(k) implies map@.contains_key(k)
                && map@[k] <= map0[k] by {
                assert(before.contains_key(k));
            }
            lemma_hits_step(p0, state@, len as int, max_path_length as int, j as int);
            lemma_min_updated_twice(
                map0,
                before,
                map@,
                max_path_length as int,
                |k: u128| hits_before(p0, state@, len as int, max_path_length as int, k, j as int),
                |k: u128|
                    hits(p0.push(step), next@, (len + cost) as int, max_path_length as int, k),
                |k: u128|
                    hits_before(p0, state@, len as int, max_path_length as int, k, j + 1),
            );
        }
        j += 1;
    }
    proof {
        assert forall|q: Seq<i32>|
            alternates(old(path)@ + q) && len + path_cost(q) == max_path_length implies {
                &&& map@.contains_key(#[trigger] key_of(replay(state@, q)))
                &&& map@[key_of(replay(state@, q))] <= max_path_length
            } by {
            if q.len() == 0 {
                assert(path_cost(q) == 0);
            } else {
                lemma_split_continuation(state@, p0, q);
            }
        }
        lemma_min_updated_same(
            map0,
            map@,
            max_path_length as int,
            |k: u128|
                hits_before(
                    p0,
                    state@,
                    len as int,
                    max_path_length as int,
                    k,
                    moves@.len() as int,
                ),
            hit,
        );
    }
}

/// Builds the pruning table for `goal`, abstracting away the symbols of
/// `mask`: for each cost from 0 to `TABLE_DEPTH` in turn, every path of
/// exactly that cost from the abstracted goal is followed, and the state it
/// reaches is recorded unless it was recorded at a lower cost already.
pub fn build_table(goal: [u8; 14], mask: [u8; 7]) -> (t: PruningTable)
    ensures
        t.wf(),
        t.goal() == goal@,
        t.mask() == mask@,
{
    let start = mask_state(&goal, &mask);
    let mut map: HashMap<u128, i32> = HashMap::new();
    let mut path: Vec<i32> = Vec::new();
    let mut depth: usize = 0;
    assert forall|q: Seq<i32>| alternates(q) implies path_cost(q) >= 0 by {
        lemma_cost_at_least_len(q);
    }
    while depth <= TABLE_DEPTH
        invariant
            depth <= TABLE_DEPTH + 1,
            path@ == Seq::<i32>::empty(),
            sound(map@, start@),
            bounded_by(map@, depth as int - 1),
            complete_to(map@, start@, depth as int - 1),
        decreases TABLE_DEPTH + 1 - depth,
    {
        let ghost before = map@;
        assert(bounded_by(map@, depth as int));
        build_table_at_depth(&mut map, start, &mut path, 0, depth, Ghost(start@));
        assert forall|q: Seq<i32>| alternates(q) && path_cost(q) <= depth implies {
            &&& map@.contains_key(#[trigger] key_of(replay(start@, q)))
            &&& map@[key_of(replay(start@, q))] <= path_cost(q)
        } by {
            assert(path@ + q =~= q);
            if path_cost(q) < depth {
                assert(before.contains_key(key_of(replay(start@, q))));
            }
        }
        depth += 1;
    }
    PruningTable { map, mask, goal }
}

/// A path from `origin` of cost `c` reaches `target`.
pub open spec fn reaches(origin: Seq<u8>, target: Seq<u8>, c: int) -> bool {
    exists|q: Seq<i32>| alternates(q) && path_cost(q) == c && #[trigger] replay(origin, q) == target
}

/// What the table holds for `s` is the least cost at which a path from the
/// abstracted goal reaches the abstraction of `s`; it holds nothing where no
/// path of cost up to `TABLE_DEPTH` does.
pub proof fn lemma_recorded_least(t: &PruningTable, s: Seq<u8>)
    requires
        t.wf(),
        s.len() == STATE_LEN,
    ensures
        t.recorded(s) matches Some(v) ==> {
            &&& 0 <= v <= TABLE_DEPTH
            &&& reaches(t.origin(), mask_seq(s, t.mask()), v)
            &&& forall|c: int| 0 <= c < v ==> !reaches(t.origin(), mask_seq(s, t.mask()), c)
        },
        t.recorded(s) is None ==> forall|c: int|
            0 <= c <= TABLE_DEPTH ==> !reaches(t.origin(), mask_seq(s, t.mask()), c),
{
    let target = mask_seq(s, t.mask());
    let k = key_of(target);
    assert forall|c: int| 0 <= c <= TABLE_DEPTH && reaches(t.origin(), target, c) implies {
        &&& t.map@.contains_key(k)
        &&& t.map@[k] <= c
    } by {
        let q = choose|q: Seq<i32>|
            alternates(q) && path_cost(q) == c && #[trigger] replay(t.origin(), q) == target;
    }
    if t.map@.contains_key(k) {
        let q = choose|q: Seq<i32>|
            alternates(q) && path_cost(q) == t.map@[k] && #[trigger] key_of(replay(t.origin(), q))
                == k;
        lemma_replay_len(t.origin(), q);
        lemma_key_injective(replay(t.origin(), q), target);
    }
}

/// What the table holds for the abstraction of `state`.
pub fn lookup(table: &PruningTable, state: [u8; 14]) -> (r: Option<i32>)
    ensures
        r matches Some(v) ==> table.recorded(state@) == Some(v as int),
        r is None ==> table.recorded(state@) is None,
        table.wf() ==> (r matches Some(v) ==> {
            &&& 0 <= v <= TABLE_DEPTH
            &&& reaches(table.origin(), mask_seq(state@, table.mask()), v as int)
            &&& forall|c: int|
                0 <= c < v ==> !reaches(table.origin(), mask_seq(state@, table.mask()), c)
        }),
        table.wf() ==> (r is None ==> forall|c: int|
            0 <= c <= TABLE_DEPTH ==> !reaches(table.origin(), mask_seq(state@, table.mask()), c)),
{
    proof {
        if table.wf() {
            lemma_recorded_least(table, state@);
        }
    }
    let key = state_key(&mask_state(&state, &table.mask));
    match table.map.get(&key) {
        Some(v) => Some(*v),
        None => None,
    }
}

/// The table's estimate for `state`, `ABSENT_ESTIMATE` where it holds none.
pub fn estimate(table: &PruningTable, state: [u8; 14]) -> (r: usize)
    requires
        table.wf(),
    ensures
        r == table.estimate(state@),
        r <= ABSENT_ESTIMATE,
{
    proof {
        let k = key_of(mask_seq(state@, table.mask@));
        if table.map@.contains_key(k) {
            assert(0 <= table.map@[k] <= TABLE_DEPTH);
        }
    }
    match lookup(table, state) {
        Some(v) => v as usize,
        None => ABSENT_ESTIMATE as usize,
    }
}

/// The table's estimate is a lower bound: no path from `s` to the goal costs
/// less than it.
pub proof fn lemma_admissible(t: &PruningTable, s: Seq<u8>, q: Seq<i32>)
    requires
        t.wf(),
        s.len() == STATE_LEN,
        alternates(q),
        replay(s, q) == t.goal(),
    ensures
        t.estimate(s) <= path_cost(q),
        0 <= t.estimate(s) <= ABSENT_ESTIMATE,
{
    let g = t.goal@;
    let r = inverse(q);
    lemma_replay_inverse(s, q);
    lemma_inverse_alternates(q);
    let k = key_of(mask_seq(s, t.mask@));
    if t.map@.contains_key(k) {
        assert(0 <= t.map@[k] <= TABLE_DEPTH);
    }
    if path_cost(q) <= TABLE_DEPTH {
        assert(replay(g, r) == s);
        lemma_mask_replay(g, t.mask@, r);
        assert(key_of(replay(mask_seq(g, t.mask@), r)) == k);
    }
}

} // verus!
