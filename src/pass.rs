use vstd::prelude::*;

verus! {

/// One step of a cell's part in a tick, as the engine takes it.
pub enum Step<B> {
    /// The body moves by last tick's acceleration.
    Move,
    /// Acceleration and force total are set to zero.
    Clear,
    /// The accumulator of receptor `k` is made.
    Begin(int),
    /// Accumulator `k` takes in the peer at position `pos`, whose body is `peer`.
    Add(int, int, B),
    /// Accumulator `k` asks for `cost`, is paid out of the cell's energy and
    /// completes.
    Complete(int, u64),
    /// The force total becomes the acceleration.
    Apply,
}

/// Every accumulator, in order, taking in the peer at `pos`.
pub open spec fn feed<B>(n: nat, pos: int, peer: B) -> Seq<Step<B>> {
    Seq::new(n, |k: int| Step::Add(k, pos, peer))
}

/// Each peer of `peers` in turn, with its body from `snapshot`, fed to all `n`
/// accumulators.
pub open spec fn feed_all<B>(n: nat, peers: Seq<int>, snapshot: Seq<B>) -> Seq<Step<B>>
    decreases peers.len(),
{
    if peers.len() == 0 {
        Seq::empty()
    } else {
        feed_all(n, peers.drop_last(), snapshot) + feed(n, peers.last(), snapshot[peers.last()])
    }
}

/// The making of `n` accumulators, in order.
pub open spec fn begin_all<B>(n: nat) -> Seq<Step<B>> {
    Seq::new(n, |k: int| Step::Begin(k))
}

/// The completion of each accumulator in order, with the cost it asked for.
pub open spec fn complete_all<B>(costs: Seq<u64>) -> Seq<Step<B>> {
    Seq::new(costs.len(), |k: int| Step::Complete(k, costs[k]))
}

/// The two-phase receptor pass of one cell: it moves and its force is
/// cleared; one accumulator is made per receptor; every peer is fed to every
/// accumulator before any completes; each then completes once, in order,
/// paying the cost it asked for; the force total is applied.
pub open spec fn receptor_pass<B>(peers: Seq<int>, snapshot: Seq<B>, costs: Seq<u64>) -> Seq<
    Step<B>,
> {
    pass_head(costs.len()) + feed_all(costs.len(), peers, snapshot) + pass_tail(costs)
}

/// What comes before the first interaction: moving, clearing, and making
/// `n` accumulators.
pub open spec fn pass_head<B>(n: nat) -> Seq<Step<B>> {
    seq![Step::Move, Step::Clear] + begin_all(n)
}

/// What comes after the last interaction: the completions, then applying
/// the force.
pub open spec fn pass_tail<B>(costs: Seq<u64>) -> Seq<Step<B>> {
    complete_all(costs) + seq![Step::Apply]
}

/// Energy left after paying `cost` out of `energy`: in full if it covers the
/// cost, else all of it.
pub open spec fn pay(energy: nat, cost: u64) -> nat {
    if cost <= energy {
        (energy - cost) as nat
    } else {
        0
    }
}

/// Energy left after paying `costs` in order.
pub open spec fn pay_in_order(energy: nat, costs: Seq<u64>) -> nat
    decreases costs.len(),
{
    if costs.len() == 0 {
        energy
    } else {
        pay(pay_in_order(energy, costs.drop_last()), costs.last())
    }
}

/// Paying never raises the energy.
pub proof fn lemma_pay_in_order_spends(energy: nat, costs: Seq<u64>)
    ensures
        pay_in_order(energy, costs) <= energy,
    decreases costs.len(),
{
    if costs.len() > 0 {
        lemma_pay_in_order_spends(energy, costs.drop_last());
    }
}

/// `feed_all` holds `n` steps per peer, and each of them feeds a peer of
/// `peers` to one of the `n` accumulators; every accumulator is fed every
/// peer.
pub proof fn lemma_feed_all_shape<B>(n: nat, peers: Seq<int>, snapshot: Seq<B>)
    ensures
        feed_all(n, peers, snapshot).len() == n * peers.len(),
        forall|t: int|
            0 <= t < feed_all(n, peers, snapshot).len() ==> {
                let s = #[trigger] feed_all(n, peers, snapshot)[t];
                &&& s is Add
                &&& 0 <= s->Add_0 < n
                &&& peers.contains(s->Add_1)
                &&& s->Add_2 == snapshot[s->Add_1]
            },
        forall|k: int, j: int|
            0 <= k < n && 0 <= j < peers.len() ==> #[trigger] feed_all(n, peers, snapshot).contains(
                Step::Add(k, #[trigger] peers[j], snapshot[peers[j]]),
            ),
    decreases peers.len(),
{
    if peers.len() > 0 {
        let rest = peers.drop_last();
        lemma_feed_all_shape(n, rest, snapshot);
        let before = feed_all(n, rest, snapshot);
        let last = feed(n, peers.last(), snapshot[peers.last()]);
        let all = feed_all(n, peers, snapshot);
        assert(all == before + last);
        assert(n * peers.len() == n * rest.len() + n) by (nonlinear_arith)
            requires
                peers.len() == rest.len() + 1,
        ;
        assert forall|t: int| 0 <= t < all.len() implies {
            let s = #[trigger] all[t];
            &&& s is Add
            &&& 0 <= s->Add_0 < n
            &&& peers.contains(s->Add_1)
            &&& s->Add_2 == snapshot[s->Add_1]
        } by {
            if t < before.len() {
                assert(all[t] == before[t]);
                let w = choose|w: int| 0 <= w < rest.len() && rest[w] == before[t]->Add_1;
                assert(peers[w] == rest[w]);
            } else {
                assert(all[t] == last[t - before.len()]);
                assert(peers[peers.len() - 1] == peers.last());
            }
        }
        assert forall|k: int, j: int|
            0 <= k < n && 0 <= j < peers.len() implies #[trigger] all.contains(
            Step::Add(k, #[trigger] peers[j], snapshot[peers[j]]),
        ) by {
            if j < rest.len() {
                assert(rest[j] == peers[j]);
                assert(before.contains(Step::Add(k, rest[j], snapshot[rest[j]])));
                let w = choose|w: int|
                    0 <= w < before.len() && before[w] == Step::Add(k, rest[j], snapshot[rest[j]]);
                assert(all[w] == before[w]);
            } else {
                assert(all[before.len() + k] == last[k]);
            }
        }
    }
}

/// The interaction steps of a pass.
pub open spec fn interactions<B>(steps: Seq<Step<B>>) -> Seq<Step<B>> {
    steps.filter(|s: Step<B>| s is Add)
}

/// Keeping the steps that satisfy `pred` keeps all of `s` when each does, and
/// none when none does.
proof fn lemma_filter_extremes<A>(s: Seq<A>, pred: spec_fn(A) -> bool)
    ensures
        (forall|t: int| 0 <= t < s.len() ==> pred(#[trigger] s[t])) ==> s.filter(pred) == s,
        (forall|t: int| 0 <= t < s.len() ==> !pred(#[trigger] s[t])) ==> s.filter(pred).len() == 0,
    decreases s.len(),
{
    reveal(Seq::filter);
    if s.len() > 0 {
        let prefix = s.drop_last();
        lemma_filter_extremes(prefix, pred);
        if forall|t: int| 0 <= t < s.len() ==> pred(#[trigger] s[t]) {
            assert forall|t: int| 0 <= t < prefix.len() implies pred(#[trigger] prefix[t]) by {
                assert(prefix[t] == s[t]);
            }
            assert(s.filter(pred) =~= s);
        }
        if forall|t: int| 0 <= t < s.len() ==> !pred(#[trigger] s[t]) {
            assert forall|t: int| 0 <= t < prefix.len() implies !pred(#[trigger] prefix[t]) by {
                assert(prefix[t] == s[t]);
            }
        }
    }
}

/// Neither the head nor the tail of a pass holds an interaction.
proof fn lemma_pass_ends<B>(costs: Seq<u64>)
    ensures
        forall|t: int| 0 <= t < pass_head::<B>(costs.len()).len() ==> !(#[trigger] pass_head::<B>(costs.len())[t] is Add),
        forall|t: int| 0 <= t < pass_tail::<B>(costs).len() ==> !(#[trigger] pass_tail::<B>(costs)[t] is Add),
{
    let n = costs.len();
    assert forall|t: int| 0 <= t < pass_head::<B>(n).len() implies !(#[trigger] pass_head::<B>(n)[t] is Add) by {
        if t >= 2 {
            assert(pass_head::<B>(n)[t] == begin_all::<B>(n)[t - 2]);
        }
    }
    assert forall|t: int| 0 <= t < pass_tail::<B>(costs).len() implies !(#[trigger] pass_tail::<B>(costs)[t] is Add) by {
        if t < n {
            assert(pass_tail::<B>(costs)[t] == complete_all::<B>(costs)[t]);
        }
    }
}

/// A pass holds as many interactions as accumulators times peers.
proof fn lemma_pass_count<B>(peers: Seq<int>, snapshot: Seq<B>, costs: Seq<u64>)
    ensures
        interactions(receptor_pass(peers, snapshot, costs)).len() == costs.len() * peers.len(),
{
    let n = costs.len();
    let head = pass_head::<B>(n);
    let middle = feed_all(n, peers, snapshot);
    let tail = pass_tail::<B>(costs);
    lemma_pass_ends::<B>(costs);
    lemma_feed_all_shape(n, peers, snapshot);
    let is_add = |s: Step<B>| s is Add;
    lemma_filter_extremes(head, is_add);
    lemma_filter_extremes(middle, is_add);
    lemma_filter_extremes(tail, is_add);
    Seq::filter_distributes_over_add(head, middle, is_add);
    Seq::filter_distributes_over_add(head + middle, tail, is_add);
    assert(interactions(receptor_pass(peers, snapshot, costs)) =~= middle);
}

/// In a receptor pass every interaction step feeds a peer of `peers`, with
/// its body from `snapshot`, to one of the accumulators; every accumulator
/// takes in every peer; and there are accumulators times peers of them.
pub proof fn lemma_receptor_pass_shape<B>(peers: Seq<int>, snapshot: Seq<B>, costs: Seq<u64>)
    ensures
        forall|t: int|
            0 <= t < receptor_pass(peers, snapshot, costs).len() && (#[trigger] receptor_pass(
                peers,
                snapshot,
                costs,
            )[t]) is Add ==> {
                let s = receptor_pass(peers, snapshot, costs)[t];
                &&& 0 <= s->Add_0 < costs.len()
                &&& peers.contains(s->Add_1)
                &&& s->Add_2 == snapshot[s->Add_1]
            },
        forall|k: int, j: int|
            0 <= k < costs.len() && 0 <= j < peers.len() ==> #[trigger] receptor_pass(
                peers,
                snapshot,
                costs,
            ).contains(Step::Add(k, #[trigger] peers[j], snapshot[peers[j]])),
        interactions(receptor_pass(peers, snapshot, costs)).len() == costs.len() * peers.len(),
{
    let n = costs.len();
    let head = pass_head::<B>(n);
    let middle = feed_all(n, peers, snapshot);
    let tail = pass_tail::<B>(costs);
    let hm = head + middle;
    let steps = receptor_pass(peers, snapshot, costs);
    lemma_pass_count(peers, snapshot, costs);
    lemma_pass_ends::<B>(costs);
    lemma_feed_all_shape(n, peers, snapshot);
    assert forall|t: int| 0 <= t < steps.len() && (#[trigger] steps[t]) is Add implies {
        let s = steps[t];
        &&& 0 <= s->Add_0 < n
        &&& peers.contains(s->Add_1)
        &&& s->Add_2 == snapshot[s->Add_1]
    } by {
        if t < head.len() {
            assert(hm[t] == head[t]);
            assert(steps[t] == hm[t]);
        } else if t < hm.len() {
            assert(hm[t] == middle[t - head.len()]);
            assert(steps[t] == hm[t]);
        } else {
            assert(steps[t] == tail[t - hm.len()]);
        }
    }
    assert forall|k: int, j: int| 0 <= k < n && 0 <= j < peers.len() implies #[trigger] steps.contains(
        Step::Add(k, #[trigger] peers[j], snapshot[peers[j]]),
    ) by {
        assert(middle.contains(Step::Add(k, peers[j], snapshot[peers[j]])));
        let u = choose|u: int|
            0 <= u < middle.len() && middle[u] == Step::Add(k, peers[j], snapshot[peers[j]]);
        assert(hm[head.len() + u] == middle[u]);
        assert(steps[head.len() + u] == hm[head.len() + u]);
    }
}

} // verus!
