//! The `Domain` abstraction every concrete game satisfies, and the episode
//! simulation engine: a uniformly random rollout that records one
//! (state, action, reward events) triple per ply, then accumulates the
//! sparse reward events backward in time into a dense per-ply, per-agent
//! reward table.

use vstd::prelude::*;

verus! {

/// Addition on rewards that clamps at the ends of the `i64` range instead
/// of wrapping.
pub open spec fn sat_add(a: i64, b: i64) -> i64 {
    if a + b > i64::MAX as int {
        i64::MAX
    } else if a + b < i64::MIN as int {
        i64::MIN
    } else {
        (a + b) as i64
    }
}

/// A turn-based, perfect-information game the simulation engine can drive.
/// Agents are identified by small integers; rewards are scalar values
/// combined with `reward_add`.
///
/// The spec functions carry each operation's domain-specific meaning; an
/// implementor pins them down and proves its methods against them. Beyond
/// that, the methods promise exactly what the engine needs: `act` keeps the
/// domain invariant and strictly shrinks a termination measure, so an
/// episode of legal actions is finite, and `get_actions` returns only
/// actions that `act` accepts.
pub trait Domain: Sized {
    type Action;

    type State;

    /// The invariant every reachable state satisfies.
    spec fn inv(&self) -> bool;

    /// Which actions `act` may be given in the current state.
    spec fn action_ok(&self, action: Self::Action) -> bool;

    /// An upper bound on the number of plies still to be played.
    spec fn measure(&self) -> nat;

    /// The fixed set of participating agents.
    spec fn agents_spec() -> Seq<usize>;

    /// What `reward_add` computes.
    spec fn radd_spec(a: i64, b: i64) -> i64;

    /// What `act` does: how the state after relates to the state before,
    /// and which reward events the action caused.
    spec fn act_post(pre: Self, post: Self, action: Self::Action, events: Seq<(usize, i64)>) -> bool;

    /// What `get_actions` returns in the current state.
    spec fn actions_post(&self, actions: Seq<Self::Action>) -> bool;

    /// What `get_state` returns in the current state.
    spec fn state_post(&self, state: Self::State) -> bool;

    /// What `reset` leaves behind.
    spec fn reset_post(pre: Self, post: Self) -> bool;

    /// A duplicate of an action, so the engine can both record an action
    /// and apply it.
    fn clone_action(action: &Self::Action) -> (r: Self::Action)
        ensures
            r == *action,
    ;

    /// Applies one action and returns the reward events it caused.
    fn act(&mut self, action: Self::Action) -> (events: Vec<(usize, i64)>)
        requires
            old(self).inv(),
            old(self).action_ok(action),
        ensures
            final(self).inv(),
            final(self).measure() < old(self).measure(),
            Self::act_post(*old(self), *final(self), action, events@),
    ;

    /// The actions that may be taken in the current state; empty exactly
    /// when the episode is over.
    fn get_actions(&self) -> (actions: Vec<Self::Action>)
        requires
            self.inv(),
        ensures
            self.actions_post(actions@),
            forall|k: int| 0 <= k < actions@.len() ==> self.action_ok(#[trigger] actions@[k]),
    ;

    /// All participating agents.
    fn get_agents(&self) -> (agents: Vec<usize>)
        ensures
            agents@ == Self::agents_spec(),
    ;

    /// A snapshot of the current state.
    fn get_state(&self) -> (state: Self::State)
        ensures
            self.state_post(state),
    ;

    /// Combines two reward values.
    fn reward_add(&self, r1: &i64, r2: &i64) -> (r: i64)
        ensures
            r == Self::radd_spec(*r1, *r2),
    ;

    /// Returns the domain to its starting state.
    fn reset(&mut self)
        requires
            old(self).inv(),
        ensures
            final(self).inv(),
            Self::reset_post(*old(self), *final(self)),
    ;
}

/// Relies on rand::Rng::gen_range, on the generator rand::thread_rng hands
/// out: a sample of the range `0..n` lies below `n` (gen_range panics only
/// when the range is empty).
#[verifier::external_body]
fn random_below(n: usize) -> (r: usize)
    requires
        0 < n,
    ensures
        r < n,
{
    rand::Rng::gen_range(&mut rand::thread_rng(), 0..n)
}

/// The reward events of each ply of a trajectory, in order.
pub open spec fn events_of<S, A>(data: Seq<(S, A, Vec<(usize, i64)>)>) -> Seq<Seq<(usize, i64)>> {
    Seq::new(data.len(), |t: int| data[t].2@)
}

/// One ply's reward events for agent `a`, folded left to right into `acc`
/// with the domain's reward addition.
pub open spec fn ply_fold<D: Domain>(events: Seq<(usize, i64)>, a: usize, acc: i64) -> i64
    decreases events.len(),
{
    if events.len() == 0 {
        acc
    } else {
        ply_fold::<D>(
            events.drop_first(),
            a,
            if events.first().0 == a {
                D::radd_spec(acc, events.first().1)
            } else {
                acc
            },
        )
    }
}

/// The dense reward-table entry of agent `a` at ply `t`: the ply's own
/// events folded into the default reward, combined with the entry at ply
/// `t + 1` — so each entry carries everything from its ply to the end of
/// the episode.
pub open spec fn row_value<D: Domain>(evs: Seq<Seq<(usize, i64)>>, a: usize, t: int) -> i64
    decreases evs.len() - t
        when 0 <= t < evs.len()
{
    if t == evs.len() - 1 {
        ply_fold::<D>(evs[t], a, 0)
    } else {
        D::radd_spec(ply_fold::<D>(evs[t], a, 0), row_value::<D>(evs, a, t + 1))
    }
}

/// Turns the sparse per-ply reward events of a trajectory into the dense
/// per-ply, per-agent reward table, working backward from the last ply so
/// that each row holds the full return from its ply to the end.
pub fn backpropagate<D: Domain>(
    domain: &D,
    data: &Vec<(D::State, D::Action, Vec<(usize, i64)>)>,
    agents: &Vec<usize>,
) -> (table: Vec<Vec<(usize, i64)>>)
    ensures
        table@.len() == data@.len(),
        forall|t: int| 0 <= t < table@.len() ==> (#[trigger] table@[t])@.len() == agents@.len(),
        forall|t: int, k: int|
            0 <= t < table@.len() && 0 <= k < agents@.len()
                ==> (#[trigger] table@[t]@[k]).0 == agents@[k]
                    && table@[t]@[k].1 == row_value::<D>(events_of(data@), agents@[k], t),
{
    let ghost evs = events_of(data@);
    let n = data.len();
    let na = agents.len();
    // one row per ply, every agent at the default reward
    let mut table: Vec<Vec<(usize, i64)>> = Vec::new();
    for ti in 0..n
        invariant
            na == agents@.len(),
            table@.len() == ti,
            forall|t2: int| 0 <= t2 < ti ==> (#[trigger] table@[t2])@.len() == na,
    {
        let mut row: Vec<(usize, i64)> = Vec::new();
        for k in 0..na
            invariant
                na == agents@.len(),
                row@.len() == k,
        {
            row.push((agents[k], 0i64));
        }
        table.push(row);
    }
    // fold the reward events in, last ply first
    let mut t = n;
    while t > 0
        invariant
            evs == events_of(data@),
            n == data@.len(),
            na == agents@.len(),
            table@.len() == n,
            t <= n,
            forall|t2: int| 0 <= t2 < n ==> (#[trigger] table@[t2])@.len() == na,
            forall|t2: int, k: int|
                t <= t2 < n && 0 <= k < na
                    ==> (#[trigger] table@[t2]@[k]).0 == agents@[k]
                        && table@[t2]@[k].1 == row_value::<D>(evs, agents@[k], t2),
        decreases t,
    {
        t -= 1;
        let mut row: Vec<(usize, i64)> = Vec::new();
        let m = data[t].2.len();
        for k in 0..na
            invariant
                evs == events_of(data@),
                n == data@.len(),
                na == agents@.len(),
                table@.len() == n,
                t < n,
                m == data@[t as int].2@.len(),
                forall|t2: int| 0 <= t2 < n ==> (#[trigger] table@[t2])@.len() == na,
                row@.len() == k,
                forall|k2: int|
                    0 <= k2 < k
                        ==> (#[trigger] row@[k2]).0 == agents@[k2]
                            && row@[k2].1 == row_value::<D>(evs, agents@[k2], t as int),
                forall|t2: int, k2: int|
                    t + 1 <= t2 < n && 0 <= k2 < na
                        ==> (#[trigger] table@[t2]@[k2]).0 == agents@[k2]
                            && table@[t2]@[k2].1 == row_value::<D>(evs, agents@[k2], t2),
        {
            let a = agents[k];
            let ghost ev = data@[t as int].2@;
            // this ply's own events, folded left to right
            let mut acc: i64 = 0;
            let mut e: usize = 0;
            proof {
                assert(ev.skip(0) =~= ev);
            }
            while e < m
                invariant
                    e <= m,
                    m == ev.len(),
                    ev == data@[t as int].2@,
                    t < n,
                    n == data@.len(),
                    ply_fold::<D>(ev, a, 0) == ply_fold::<D>(ev.skip(e as int), a, acc),
                decreases m - e,
            {
                let pair = data[t].2[e];
                proof {
                    assert(ev.skip(e as int).first() == ev[e as int]);
                    assert(ev.skip(e as int).drop_first() =~= ev.skip(e as int + 1));
                }
                if pair.0 == a {
                    acc = domain.reward_add(&acc, &pair.1);
                }
                e += 1;
            }
            proof {
                assert(ev.skip(m as int) =~= Seq::<(usize, i64)>::empty());
                assert(ply_fold::<D>(ev, a, 0) == acc);
                assert(evs[t as int] == ev);
            }
            // everything later in the episode accumulates into this ply
            if t + 1 < n {
                let next = table[t + 1][k].1;
                acc = domain.reward_add(&acc, &next);
            }
            proof {
                assert(acc == row_value::<D>(evs, a, t as int));
            }
            row.push((a, acc));
        }
        table[t] = row;
    }
    table
}

/// One recorded ply of an episode: the triple's state is a snapshot of `s`,
/// its action was among those `get_actions` offered in `s` and is legal
/// there, its events are exactly what `act` returned, and the step kept the
/// domain invariant while shrinking the termination measure.
pub open spec fn episode_step<D: Domain>(
    s: D,
    s_next: D,
    step: (D::State, D::Action, Vec<(usize, i64)>),
) -> bool {
    &&& s.inv()
    &&& s.state_post(step.0)
    &&& s.action_ok(step.1)
    &&& (exists|offered: Seq<D::Action>|
        s.actions_post(offered) && #[trigger] offered.contains(step.1))
    &&& D::act_post(s, s_next, step.1, step.2@)
    &&& s_next.inv()
    &&& s_next.measure() < s.measure()
}

/// One episode's paper trail: a chain of domain states that starts at the
/// state `reset` left behind, steps through every recorded ply in order,
/// and ends at the state the episode stopped in. Every step shrinks the
/// measure, so the trajectory holds at most `chain[0].measure()` plies; in
/// particular a trajectory is empty exactly when the reset state already
/// offered no actions.
pub open spec fn episode_linked<D: Domain>(
    chain: Seq<D>,
    pre: D,
    post: D,
    data: Seq<(D::State, D::Action, Vec<(usize, i64)>)>,
) -> bool {
    &&& chain.len() == data.len() + 1
    &&& D::reset_post(pre, chain[0])
    &&& chain[0].inv()
    &&& chain.last() == post
    &&& (forall|t: int|
        0 <= t < data.len() ==> #[trigger] episode_step::<D>(chain[t], chain[t + 1], data[t]))
    &&& data.len() + post.measure() <= chain[0].measure()
}

/// Law: a zero-ply episode is normal termination, not an error — its chain
/// collapses to the reset state, so the domain ends exactly as `reset` left
/// it, and a reward table as long as the trajectory is empty with it.
pub proof fn lemma_zero_ply_episode<D: Domain>(
    chain: Seq<D>,
    pre: D,
    post: D,
    data: Seq<(D::State, D::Action, Vec<(usize, i64)>)>,
)
    requires
        episode_linked::<D>(chain, pre, post, data),
        data.len() == 0,
    ensures
        post == chain[0],
        D::reset_post(pre, post),
{
    assert(chain.last() == chain[0]);
}

/// The trajectory `data` is a genuine episode of the domain: some chain of
/// intermediate states links the state `reset` left in `pre` to the final
/// state `post` through every recorded ply.
pub open spec fn episode_of<D: Domain>(
    pre: D,
    post: D,
    data: Seq<(D::State, D::Action, Vec<(usize, i64)>)>,
) -> bool {
    exists|chain: Seq<D>| #[trigger] episode_linked::<D>(chain, pre, post, data)
}

/// Runs one full episode of a domain under the uniformly random policy:
/// resets the domain, then repeatedly snapshots the state, picks one of the
/// legal actions uniformly at random and applies it, recording a
/// (state, action, reward events) triple per ply, until no legal action
/// remains; finally back-propagates the recorded reward events into the
/// dense reward table, one row per ply, one entry per agent.
///
/// The trajectory is genuine: some chain of intermediate states links the
/// reset state to the terminal state through every recorded triple
/// (`episode_linked`), and the terminal state offers no actions.
pub fn simulate<D: Domain>(domain: &mut D) -> (r: (
    Vec<(D::State, D::Action, Vec<(usize, i64)>)>,
    Vec<Vec<(usize, i64)>>,
))
    requires
        old(domain).inv(),
    ensures
        final(domain).inv(),
        final(domain).actions_post(Seq::<D::Action>::empty()),
        episode_of::<D>(*old(domain), *final(domain), r.0@),
        r.1@.len() == r.0@.len(),
        forall|t: int|
            0 <= t < r.1@.len() ==> (#[trigger] r.1@[t])@.len() == D::agents_spec().len(),
        forall|t: int, k: int|
            0 <= t < r.1@.len() && 0 <= k < D::agents_spec().len()
                ==> (#[trigger] r.1@[t]@[k]).0 == D::agents_spec()[k]
                    && r.1@[t]@[k].1 == row_value::<D>(events_of(r.0@), D::agents_spec()[k], t),
{
    domain.reset();
    let ghost g0: D = *domain;
    let agents = domain.get_agents();
    let mut data: Vec<(D::State, D::Action, Vec<(usize, i64)>)> = Vec::new();
    let ghost mut chain: Seq<D> = seq![*domain];
    loop
        invariant
            domain.inv(),
            g0.inv(),
            D::reset_post(*old(domain), g0),
            chain.len() == data@.len() + 1,
            chain[0] == g0,
            chain.last() == *domain,
            forall|t: int|
                0 <= t < data@.len()
                    ==> #[trigger] episode_step::<D>(chain[t], chain[t + 1], data@[t]),
            data@.len() + domain.measure() <= g0.measure(),
        ensures
            domain.inv(),
            domain.actions_post(Seq::<D::Action>::empty()),
            D::reset_post(*old(domain), g0),
            chain.len() == data@.len() + 1,
            chain[0] == g0,
            chain.last() == *domain,
            forall|t: int|
                0 <= t < data@.len()
                    ==> #[trigger] episode_step::<D>(chain[t], chain[t + 1], data@[t]),
            data@.len() + domain.measure() <= g0.measure(),
        decreases domain.measure(),
    {
        let ghost cur: D = *domain;
        let state = domain.get_state();
        let ghost state_taken = state;
        let mut actions = domain.get_actions();
        let ghost offered: Seq<D::Action> = actions@;
        if actions.len() == 0 {
            proof {
                assert(actions@ =~= Seq::<D::Action>::empty());
            }
            break;
        }
        let idx = random_below(actions.len());
        let action = actions.remove(idx);
        let ghost played: D::Action = action;
        let recorded = D::clone_action(&action);
        let events = domain.act(action);
        let ghost events_seen = events@;
        let ghost prev_chain = chain;
        let ghost prev_data = data@;
        data.push((state, recorded, events));
        proof {
            chain = chain.push(*domain);
            assert(offered[idx as int] == played);
            assert(offered.contains(played));
            assert(data@[prev_data.len() as int]
                == (state_taken, played, data@[prev_data.len() as int].2));
            assert(data@[prev_data.len() as int].2@ == events_seen);
            assert(episode_step::<D>(cur, *domain, data@[prev_data.len() as int]));
            assert forall|t: int|
                0 <= t < data@.len() implies #[trigger] episode_step::<D>(
                chain[t],
                chain[t + 1],
                data@[t],
            ) by {
                if t < prev_data.len() {
                    assert(chain[t] == prev_chain[t]);
                    assert(chain[t + 1] == prev_chain[t + 1]);
                    assert(data@[t] == prev_data[t]);
                    assert(episode_step::<D>(prev_chain[t], prev_chain[t + 1], prev_data[t]));
                } else {
                    assert(chain[t] == cur);
                    assert(chain[t + 1] == *domain);
                }
            }
        }
    }
    let table = backpropagate(domain, &data, &agents);
    proof {
        assert(episode_of::<D>(*old(domain), *domain, data@)) by {
            assert(episode_linked::<D>(chain, *old(domain), *domain, data@));
        }
    }
    (data, table)
}

/// The plain integer total of agent `a`'s reward events in one ply.
pub open spec fn ply_total(events: Seq<(usize, i64)>, a: usize) -> int
    decreases events.len(),
{
    if events.len() == 0 {
        0
    } else {
        (if events.first().0 == a {
            events.first().1 as int
        } else {
            0
        }) + ply_total(events.drop_first(), a)
    }
}

/// The plain integer total of agent `a`'s reward events from ply `t` to the
/// end of the episode.
pub open spec fn events_total(evs: Seq<Seq<(usize, i64)>>, a: usize, t: int) -> int
    decreases evs.len() - t
        when 0 <= t <= evs.len()
{
    if t >= evs.len() {
        0
    } else {
        ply_total(evs[t], a) + events_total(evs, a, t + 1)
    }
}

/// Every running total the backward accumulation builds for agent `a` stays
/// inside the reward type's range.
pub open spec fn totals_in_range(evs: Seq<Seq<(usize, i64)>>, a: usize) -> bool {
    &&& forall|t: int, m: int|
        0 <= t < evs.len() && 0 <= m <= evs[t].len()
            ==> i64::MIN <= #[trigger] ply_total(evs[t].take(m), a) <= i64::MAX
    &&& forall|t: int|
        0 <= t < evs.len() ==> i64::MIN <= #[trigger] events_total(evs, a, t) <= i64::MAX
}

/// Folding one ply's events with the saturating addition computes the plain
/// total whenever every prefix total stays in range.
proof fn lemma_ply_fold_exact<D: Domain>(events: Seq<(usize, i64)>, a: usize, acc: i64)
    requires
        forall|x: i64, y: i64| #[trigger] D::radd_spec(x, y) == sat_add(x, y),
        forall|m: int|
            0 <= m <= events.len()
                ==> i64::MIN <= acc + #[trigger] ply_total(events.take(m), a) <= i64::MAX,
    ensures
        ply_fold::<D>(events, a, acc) == acc + ply_total(events, a),
    decreases events.len(),
{
    if events.len() == 0 {
    } else {
        let e0 = events.first();
        let rest = events.drop_first();
        assert(events.take(0) =~= Seq::<(usize, i64)>::empty());
        assert(events.take(1).drop_first() =~= Seq::<(usize, i64)>::empty());
        assert(events.take(1)[0] == events[0]);
        assert(ply_total(Seq::<(usize, i64)>::empty(), a) == 0);
        assert(ply_total(events.take(1), a) == if e0.0 == a {
            e0.1 as int
        } else {
            0
        });
        let acc2 = if e0.0 == a {
            D::radd_spec(acc, e0.1)
        } else {
            acc
        };
        assert(acc2 == acc + if e0.0 == a {
            e0.1 as int
        } else {
            0
        });
        assert forall|m: int| 0 <= m <= rest.len() implies i64::MIN <= acc2 + #[trigger] ply_total(
            rest.take(m),
            a,
        ) <= i64::MAX by {
            assert(events.take(m + 1).drop_first() =~= rest.take(m));
            assert(ply_total(events.take(m + 1), a) == (if e0.0 == a {
                e0.1 as int
            } else {
                0
            }) + ply_total(rest.take(m), a));
            assert(i64::MIN <= acc + ply_total(events.take(m + 1), a) <= i64::MAX);
        }
        lemma_ply_fold_exact::<D>(rest, a, acc2);
    }
}

/// Law: back-propagation yields a full-return signal — the reward-table
/// entry of agent `a` at ply `t` is the plain sum of every reward event
/// issued to `a` at ply `t` or later, so at ply 0 it is the agent's total
/// over the whole episode. Stated for domains whose reward addition is the
/// saturating integer addition, on episodes whose running totals stay in
/// range (outside that range the saturation clamps the entry instead).
pub proof fn lemma_backprop_total_return<D: Domain>(evs: Seq<Seq<(usize, i64)>>, a: usize, t: int)
    requires
        forall|x: i64, y: i64| #[trigger] D::radd_spec(x, y) == sat_add(x, y),
        totals_in_range(evs, a),
        0 <= t < evs.len(),
    ensures
        row_value::<D>(evs, a, t) == events_total(evs, a, t),
    decreases evs.len() - t,
{
    assert forall|m: int| 0 <= m <= evs[t].len() implies i64::MIN <= 0 + #[trigger] ply_total(
        evs[t].take(m),
        a,
    ) <= i64::MAX by {
        assert(i64::MIN <= ply_total(evs[t].take(m), a) <= i64::MAX);
    }
    lemma_ply_fold_exact::<D>(evs[t], a, 0);
    assert(evs[t].take(evs[t].len() as int) =~= evs[t]);
    if t == evs.len() - 1 {
        assert(events_total(evs, a, t + 1) == 0);
    } else {
        lemma_backprop_total_return::<D>(evs, a, t + 1);
    }
}

} // verus!
