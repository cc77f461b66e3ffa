//! Scripts: a path written one symbol per unit of cost, and replaying a
//! script on a state.
use vstd::prelude::*;
use crate::moves::{
    apply_move, is_move, lemma_replay_len, lemma_rot_compose, lemma_rot_zero, replay,
    rot_left, run_step, STATE_LEN,
};

verus! {

/// The script symbol for a rotation left by one slot.
pub const LEFT: u8 = 108;

/// The script symbol for a rotation right by one slot.
pub const RIGHT: u8 = 114;

/// The script symbol for the flip.
pub const FLIP_MARK: u8 = 33;

/// `n` copies of the symbol `c`.
pub open spec fn repeat(c: u8, n: int) -> Seq<u8> {
    Seq::new(n as nat, |i: int| c)
}

/// The script of one move: a run of `LEFT` or `RIGHT` as long as the
/// rotation, or one `FLIP_MARK`.
pub open spec fn render_move(m: int) -> Seq<u8> {
    if m == 0 {
        seq![FLIP_MARK]
    } else if m < 0 {
        repeat(LEFT, -m)
    } else {
        repeat(RIGHT, m)
    }
}

/// The script of a path: the scripts of its moves, in order.
pub open spec fn render(p: Seq<i32>) -> Seq<u8>
    decreases p.len(),
{
    if p.len() == 0 {
        Seq::empty()
    } else {
        render(p.drop_last()) + render_move(p.last() as int)
    }
}

/// What one script symbol does to a state; other symbols do nothing.
pub open spec fn script_step(s: Seq<u8>, c: u8) -> Seq<u8> {
    if c == FLIP_MARK {
        apply_move(s, 0)
    } else if c == LEFT {
        apply_move(s, -1)
    } else if c == RIGHT {
        apply_move(s, 1)
    } else {
        s
    }
}

/// The state reached from `s` by the symbols of `script` in order.
pub open spec fn run_script(s: Seq<u8>, script: Seq<u8>) -> Seq<u8>
    decreases script.len(),
{
    if script.len() == 0 {
        s
    } else {
        script_step(run_script(s, script.drop_last()), script.last())
    }
}

/// Running two scripts one after the other is running the second from
/// where the first ends.
pub proof fn lemma_run_script_append(s: Seq<u8>, a: Seq<u8>, b: Seq<u8>)
    ensures
        run_script(s, a + b) == run_script(run_script(s, a), b),
    decreases b.len(),
{
    if b.len() == 0 {
        assert(a + b =~= a);
    } else {
        assert((a + b).drop_last() =~= a + b.drop_last());
        lemma_run_script_append(s, a, b.drop_last());
    }
}

/// `k` symbols `LEFT` rotate left by `k` slots.
pub proof fn lemma_run_lefts(s: Seq<u8>, k: int)
    requires
        s.len() == STATE_LEN,
        0 <= k < STATE_LEN,
    ensures
        run_script(s, repeat(LEFT, k)) == rot_left(s, k),
    decreases k,
{
    if k == 0 {
        lemma_rot_zero(s);
    } else {
        assert(repeat(LEFT, k).drop_last() =~= repeat(LEFT, k - 1));
        lemma_run_lefts(s, k - 1);
        lemma_rot_compose(s, k - 1, 1);
    }
}

/// `k` symbols `RIGHT` rotate right by `k` slots.
pub proof fn lemma_run_rights(s: Seq<u8>, k: int)
    requires
        s.len() == STATE_LEN,
        0 < k < STATE_LEN,
    ensures
        run_script(s, repeat(RIGHT, k)) == rot_left(s, STATE_LEN - k),
    decreases k,
{
    assert(repeat(RIGHT, k).drop_last() =~= repeat(RIGHT, k - 1));
    assert(repeat(RIGHT, k).last() == RIGHT);
    assert(run_script(s, repeat(RIGHT, k)) == apply_move(
        run_script(s, repeat(RIGHT, k - 1)),
        1,
    ));
    if k == 1 {
        assert(repeat(RIGHT, 0) =~= Seq::<u8>::empty());
        assert(run_script(s, repeat(RIGHT, 0)) == s);
    } else {
        lemma_run_rights(s, k - 1);
        lemma_rot_compose(s, STATE_LEN - (k - 1), STATE_LEN - 1);
        assert((STATE_LEN - (k - 1) + STATE_LEN - 1) % (STATE_LEN as int) == STATE_LEN - k);
    }
}

/// The script of a move does what the move does.
pub proof fn lemma_run_move(s: Seq<u8>, m: int)
    requires
        s.len() == STATE_LEN,
        is_move(m),
    ensures
        run_script(s, render_move(m)) == apply_move(s, m),
{
    if m == 0 {
        let one = seq![FLIP_MARK];
        assert(one.drop_last() =~= Seq::<u8>::empty());
        assert(run_script(s, one) == script_step(run_script(s, one.drop_last()), FLIP_MARK));
    } else if m < 0 {
        lemma_run_lefts(s, -m);
    } else {
        lemma_run_rights(s, m);
    }
}

/// Replaying the script of a path does what replaying the path does.
pub proof fn lemma_run_render(s: Seq<u8>, p: Seq<i32>)
    requires
        s.len() == STATE_LEN,
        forall|i: int| 0 <= i < p.len() ==> #[trigger] is_move(p[i] as int),
    ensures
        run_script(s, render(p)) == replay(s, p),
    decreases p.len(),
{
    if p.len() > 0 {
        assert(is_move(p[p.len() - 1] as int));
        lemma_run_render(s, p.drop_last());
        lemma_run_script_append(s, render(p.drop_last()), render_move(p.last() as int));
        lemma_replay_len(s, p.drop_last());
        lemma_run_move(replay(s, p.drop_last()), p.last() as int);
    }
}

/// A path that takes `start` to `goal`, written as a script and replayed
/// on `start`, ends at `goal`.
pub proof fn lemma_round_trip(start: Seq<u8>, goal: Seq<u8>, p: Seq<i32>)
    requires
        start.len() == STATE_LEN,
        crate::search::solves(start, goal, p),
    ensures
        run_script(start, render(p)) == goal,
{
    lemma_run_render(start, p);
}

/// Writes a path as a script: `LEFT` or `RIGHT` once per slot of each
/// rotation, `FLIP_MARK` for each flip.
pub fn write_path(path: &Vec<i32>) -> (s: Vec<u8>)
    requires
        forall|i: int| 0 <= i < path@.len() ==> #[trigger] is_move(path@[i] as int),
    ensures
        s@ == render(path@),
{
    let mut s: Vec<u8> = Vec::new();
    let mut i: usize = 0;
    while i < path.len()
        invariant
            i <= path@.len(),
            forall|j: int| 0 <= j < path@.len() ==> #[trigger] is_move(path@[j] as int),
            s@ == render(path@.take(i as int)),
        decreases path@.len() - i,
    {
        let element = path[i];
        assert(is_move(path@[i as int] as int));
        assert(path@.take(i + 1).drop_last() =~= path@.take(i as int));
        let ghost prefix = s@;
        if element == 0 {
            s.push(FLIP_MARK);
        } else {
            let (mark, count): (u8, usize) = if element < 0 {
                (LEFT, (-element) as usize)
            } else {
                (RIGHT, element as usize)
            };
            let mut c: usize = 0;
            while c < count
                invariant
                    c <= count,
                    s@ == prefix + repeat(mark, c as int),
                decreases count - c,
            {
                s.push(mark);
                c += 1;
                assert(s@ =~= prefix + repeat(mark, c as int));
            }
        }
        i += 1;
        assert(s@ =~= render(path@.take(i as int)));
    }
    assert(path@.take(i as int) =~= path@);
    s
}

/// Applies one script symbol to a state; symbols other than `LEFT`,
/// `RIGHT` and `FLIP_MARK` leave it as it is.
pub fn run1(src: &mut [u8; 14], step: u8)
    ensures
        final(src)@ == script_step(old(src)@, step),
{
    if step == FLIP_MARK {
        *src = run_step(*src, 0);
    } else if step == LEFT {
        *src = run_step(*src, -1);
    } else if step == RIGHT {
        *src = run_step(*src, 1);
    }
}

/// Applies a script to a state, symbol by symbol.
pub fn run(src: &mut [u8; 14], script: Vec<u8>)
    ensures
        final(src)@ == run_script(old(src)@, script@),
{
    let ghost s0 = src@;
    let mut i: usize = 0;
    while i < script.len()
        invariant
            i <= script@.len(),
            src@ == run_script(s0, script@.take(i as int)),
        decreases script@.len() - i,
    {
        assert(script@.take(i + 1).drop_last() =~= script@.take(i as int));
        run1(src, script[i]);
        i += 1;
    }
    assert(script@.take(i as int) =~= script@);
}

} // verus!
