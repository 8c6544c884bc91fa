//! Queues of audio: blocks that grow at the end and are drained at the front,
//! and that a model takes one hop at a time.

use vstd::prelude::*;

use crate::layout::{block, holds_frames, lemma_place, place};

verus! {

/// Two blocks, one after the other.
pub open spec fn joined<T>(a: Seq<Seq<T>>, b: Seq<Seq<T>>) -> Seq<Seq<T>> {
    Seq::new(a.len(), |c: int| a[c] + b[c])
}

/// A block without its first `n` frames.
pub open spec fn without_front<T>(a: Seq<Seq<T>>, n: nat) -> Seq<Seq<T>> {
    Seq::new(a.len(), |c: int| a[c].skip(n as int))
}

/// The first `n` frames of a block.
pub open spec fn front<T>(a: Seq<Seq<T>>, n: nat) -> Seq<Seq<T>> {
    Seq::new(a.len(), |c: int| a[c].take(n as int))
}

/// `n_ch` channels of `n` samples, all of them `zero`.
pub open spec fn silent<T>(n_ch: nat, n: nat, zero: T) -> Seq<Seq<T>> {
    Seq::new(n_ch, |c: int| Seq::new(n, |t: int| zero))
}

/// The `k` frames of a block from frame `from` on, filled up to a hop with
/// `zero`, one channel after the other.
pub open spec fn padded_hop<T>(a: Seq<Seq<T>>, from: nat, k: nat, hop: nat, zero: T) -> Seq<T> {
    Seq::new(
        a.len() * hop,
        |i: int|
            if i % (hop as int) < k {
                a[i / (hop as int)][from + i % (hop as int)]
            } else {
                zero
            },
    )
}

/// The first `k` frames of a hop of `n_ch` channels, as a block.
pub open spec fn hop_front<T>(frame: Seq<T>, n_ch: nat, k: nat, hop: nat) -> Seq<Seq<T>> {
    Seq::new(n_ch, |c: int| Seq::new(k, |j: int| frame[place(c, j, hop as int)]))
}

/// A block of `n_ch` channels, all equally long.
pub open spec fn uniform<T>(a: Seq<Seq<T>>, n_ch: nat) -> bool {
    a.len() == n_ch && forall|c: int| 0 <= c < n_ch ==> (#[trigger] a[c]).len() == a[0].len()
}

/// A sample of a hop of `n_ch` channels stands within it.
proof fn lemma_in_hop(c: int, j: int, n_ch: int, hop: int)
    requires
        0 <= c < n_ch,
        0 <= j < hop,
    ensures
        0 <= place(c, j, hop) < n_ch * hop,
        0 <= c * hop,
{
    lemma_place(c, j, hop);
    assert(c * hop + hop <= n_ch * hop) by (nonlinear_arith)
        requires
            c + 1 <= n_ch,
            0 < hop,
    ;
    assert(0 <= c * hop) by (nonlinear_arith)
        requires
            0 <= c,
            0 < hop,
    ;
}

/// Whether this is a block of `n_ch` channels, all equally long.
pub fn is_uniform<T>(b: &[Vec<T>], n_ch: usize) -> (r: bool)
    ensures
        r == uniform(block(b@), n_ch as nat),
{
    if b.len() != n_ch {
        return false;
    }
    let mut c: usize = 0;
    while c < b.len()
        invariant
            c <= b@.len(),
            b@.len() == n_ch,
            forall|d: int| 0 <= d < c ==> (#[trigger] block(b@)[d]).len() == b@[0]@.len(),
        decreases b@.len() - c,
    {
        if b[c].len() != b[0].len() {
            assert(block(b@)[c as int].len() != block(b@)[0].len());
            return false;
        }
        c += 1;
    }
    true
}

/// `n_ch` channels of `n` samples, all of them `zero`.
pub fn silence<T: Copy>(n_ch: usize, n: usize, zero: T) -> (b: Vec<Vec<T>>)
    ensures
        block(b@) == silent(n_ch as nat, n as nat, zero),
{
    let mut b: Vec<Vec<T>> = Vec::new();
    while b.len() < n_ch
        invariant
            b@.len() <= n_ch,
            forall|c: int|
                0 <= c < b@.len() ==> (#[trigger] b@[c])@ == Seq::new(n as nat, |t: int| zero),
        decreases n_ch - b@.len(),
    {
        let mut chan: Vec<T> = Vec::new();
        while chan.len() < n
            invariant
                chan@.len() <= n,
                forall|t: int| 0 <= t < chan@.len() ==> (#[trigger] chan@[t]) == zero,
            decreases n - chan@.len(),
        {
            chan.push(zero);
        }
        assert(chan@ =~= Seq::new(n as nat, |t: int| zero));
        b.push(chan);
    }
    assert(block(b@) =~= silent(n_ch as nat, n as nat, zero));
    b
}

/// Appends a block to a queue.
pub fn append_block<T>(queue: &mut Vec<Vec<T>>, b: Vec<Vec<T>>)
    requires
        old(queue)@.len() == b@.len(),
    ensures
        final(queue)@.len() == old(queue)@.len(),
        block(final(queue)@) == joined(block(old(queue)@), block(b@)),
{
    let ghost before = block(queue@);
    let ghost added = block(b@);
    let mut b = b;
    let mut c: usize = 0;
    while c < queue.len()
        invariant
            c <= queue@.len(),
            queue@.len() == before.len(),
            b@.len() == before.len(),
            added.len() == before.len(),
            forall|d: int| 0 <= d < c ==> (#[trigger] queue@[d])@ == before[d] + added[d],
            forall|d: int| c <= d < queue@.len() ==> (#[trigger] queue@[d])@ == before[d],
            forall|d: int| c <= d < queue@.len() ==> (#[trigger] b@[d])@ == added[d],
        decreases queue@.len() - c,
    {
        queue[c].append(&mut b[c]);
        c += 1;
    }
    assert(block(queue@) =~= joined(before, added));
}

/// Drops the first `n` frames of a queue.
pub fn drop_front<T>(queue: &mut Vec<Vec<T>>, n: usize)
    requires
        holds_frames(block(old(queue)@), n as nat),
    ensures
        final(queue)@.len() == old(queue)@.len(),
        block(final(queue)@) == without_front(block(old(queue)@), n as nat),
{
    let ghost before = block(queue@);
    let mut c: usize = 0;
    while c < queue.len()
        invariant
            c <= queue@.len(),
            queue@.len() == before.len(),
            holds_frames(before, n as nat),
            forall|d: int| 0 <= d < c ==> (#[trigger] queue@[d])@ == before[d].skip(n as int),
            forall|d: int| c <= d < queue@.len() ==> (#[trigger] queue@[d])@ == before[d],
        decreases queue@.len() - c,
    {
        assert(n <= before[c as int].len());
        let rest = queue[c].split_off(n);
        assert(rest@ =~= before[c as int].skip(n as int));
        queue.set(c, rest);
        c += 1;
    }
    assert(block(queue@) =~= without_front(before, n as nat));
}

/// Hands out all of a queue, and leaves it without frames.
pub fn take_all<T>(queue: &mut Vec<Vec<T>>) -> (b: Vec<Vec<T>>)
    ensures
        b@ == old(queue)@,
        final(queue)@.len() == old(queue)@.len(),
        forall|c: int|
            0 <= c < final(queue)@.len() ==> (#[trigger] final(queue)@[c])@ == Seq::<T>::empty(),
{
    let n_ch = queue.len();
    let mut b: Vec<Vec<T>> = Vec::new();
    while b.len() < n_ch
        invariant
            b@.len() <= n_ch,
            forall|c: int| 0 <= c < b@.len() ==> (#[trigger] b@[c])@ == Seq::<T>::empty(),
        decreases n_ch - b@.len(),
    {
        b.push(Vec::new());
    }
    std::mem::swap(queue, &mut b);
    b
}

/// The `k` frames of a queue from frame `from` on, filled up to a hop with
/// `zero`, one channel after the other.
pub fn load_hop<T: Copy>(queue: &[Vec<T>], from: usize, k: usize, hop: usize, zero: T) -> (frame:
    Vec<T>)
    requires
        k <= hop,
        0 < hop,
        from + k <= usize::MAX,
        holds_frames(block(queue@), (from + k) as nat),
    ensures
        frame@ == padded_hop(block(queue@), from as nat, k as nat, hop as nat, zero),
{
    let ghost all = block(queue@);
    let ghost n_ch = queue@.len();
    let ghost want = padded_hop(all, from as nat, k as nat, hop as nat, zero);
    let mut frame: Vec<T> = Vec::new();
    let mut c: usize = 0;
    while c < queue.len()
        invariant
            c <= queue@.len(),
            n_ch == queue@.len(),
            k <= hop,
            0 < hop,
            from + k <= usize::MAX,
            all == block(queue@),
            holds_frames(all, (from + k) as nat),
            want == padded_hop(all, from as nat, k as nat, hop as nat, zero),
            frame@.len() == c * hop,
            forall|i: int| 0 <= i < frame@.len() ==> (#[trigger] frame@[i]) == want[i],
        decreases queue@.len() - c,
    {
        let mut j: usize = 0;
        while j < hop
            invariant
                j <= hop,
                c < queue@.len(),
                n_ch == queue@.len(),
                k <= hop,
                0 < hop,
                from + k <= usize::MAX,
                all == block(queue@),
                holds_frames(all, (from + k) as nat),
                want == padded_hop(all, from as nat, k as nat, hop as nat, zero),
                frame@.len() == place(c as int, j as int, hop as int),
                forall|i: int| 0 <= i < frame@.len() ==> (#[trigger] frame@[i]) == want[i],
            decreases hop - j,
        {
            proof {
                assert(from + k <= all[c as int].len());
                lemma_place(c as int, j as int, hop as int);
                lemma_in_hop(c as int, j as int, n_ch as int, hop as int);
            }
            let x = if j < k {
                queue[c][from + j]
            } else {
                zero
            };
            frame.push(x);
            j += 1;
        }
        assert((c + 1) * hop == c * hop + hop) by (nonlinear_arith);
        c += 1;
    }
    assert(frame@ =~= want);
    frame
}

/// Appends the first `k` frames of a hop to a queue.
pub fn append_hop<T: Copy>(queue: &mut Vec<Vec<T>>, frame: &[T], k: usize, hop: usize)
    requires
        k <= hop,
        frame@.len() == old(queue)@.len() * hop,
    ensures
        final(queue)@.len() == old(queue)@.len(),
        block(final(queue)@) == joined(
            block(old(queue)@),
            hop_front(frame@, old(queue)@.len(), k as nat, hop as nat),
        ),
{
    let ghost before = block(queue@);
    let ghost n_ch = queue@.len();
    let ghost added = hop_front(frame@, n_ch, k as nat, hop as nat);
    let mut c: usize = 0;
    while c < queue.len()
        invariant
            c <= queue@.len(),
            n_ch == queue@.len(),
            before.len() == n_ch,
            k <= hop,
            frame@.len() == n_ch * hop,
            frame.len() == frame@.len(),
            added == hop_front(frame@, n_ch, k as nat, hop as nat),
            forall|d: int| 0 <= d < c ==> (#[trigger] queue@[d])@ == before[d] + added[d],
            forall|d: int| c <= d < queue@.len() ==> (#[trigger] queue@[d])@ == before[d],
        decreases queue@.len() - c,
    {
        let mut j: usize = 0;
        assert(before[c as int] + added[c as int].take(0) =~= before[c as int]);
        while j < k
            invariant
                j <= k,
                c < queue@.len(),
                n_ch == queue@.len(),
                before.len() == n_ch,
                k <= hop,
                frame@.len() == n_ch * hop,
                frame.len() == frame@.len(),
                added == hop_front(frame@, n_ch, k as nat, hop as nat),
                queue@[c as int]@ == before[c as int] + added[c as int].take(j as int),
                forall|d: int| 0 <= d < c ==> (#[trigger] queue@[d])@ == before[d] + added[d],
                forall|d: int| c < d < queue@.len() ==> (#[trigger] queue@[d])@ == before[d],
            decreases k - j,
        {
            proof {
                lemma_in_hop(c as int, j as int, n_ch as int, hop as int);
            }
            let x = frame[c * hop + j];
            queue[c].push(x);
            assert(queue@[c as int]@ =~= before[c as int] + added[c as int].take(j + 1));
            j += 1;
        }
        assert(added[c as int].take(k as int) =~= added[c as int]);
        c += 1;
    }
    assert(block(queue@) =~= joined(before, added));
}

} // verus!
