use vstd::multiset::Multiset;
use vstd::prelude::*;

use crate::queue::{after_take, take_index, taken_item, DrainPolicy};
use crate::registry::{
    drain_spec, failed_of, offered_commands, first_pending, is_call_plan, loaded_of, offers, submit_spec,
    Capabilities, EntryPoint, ExtensionModel, LoadAttempt, Plugins,
};

verus! {

/// The configured name of a load attempt, whatever its outcome.
pub open spec fn attempt_name<H>(a: LoadAttempt<H>) -> Seq<char> {
    match a {
        LoadAttempt::Loaded { name, .. } => name@,
        LoadAttempt::Failed { name, .. } => name@,
    }
}

/// Every callback pending in any of the queues `p`, counted with multiplicity.
pub open spec fn all_pending<C>(p: Seq<Seq<C>>) -> Multiset<C>
    decreases p.len(),
{
    if p.len() == 0 {
        Multiset::empty()
    } else {
        all_pending(p.drop_last()).add(p.last().to_multiset())
    }
}

/// `first_pending` finds the first queue at or after `from` that holds work,
/// and reports `p.len()` only when there is none.
pub proof fn lemma_first_pending<C>(p: Seq<Seq<C>>, from: int)
    requires
        0 <= from <= p.len(),
    ensures
        from <= first_pending(p, from) <= p.len(),
        forall|j: int| from <= j < first_pending(p, from) ==> (#[trigger] p[j]).len() == 0,
        first_pending(p, from) < p.len() ==> p[first_pending(p, from)].len() > 0,
    decreases p.len() - from,
{
    if from < p.len() && p[from].len() == 0 {
        lemma_first_pending(p, from + 1);
    }
}

/// Queue `i` is the first with work when all queues before it are empty.
pub proof fn lemma_first_pending_at<C>(p: Seq<Seq<C>>, from: int, i: int)
    requires
        0 <= from <= i < p.len(),
        p[i].len() > 0,
        forall|j: int| from <= j < i ==> (#[trigger] p[j]).len() == 0,
    ensures
        first_pending(p, from) == i,
    decreases i - from,
{
    if from < i {
        lemma_first_pending_at(p, from + 1, i);
    }
}

/// Replacing one queue changes the pending multiset by exactly that queue.
pub proof fn lemma_all_pending_update<C>(p: Seq<Seq<C>>, i: int, q: Seq<C>)
    requires
        0 <= i < p.len(),
    ensures
        all_pending(p.update(i, q)).add(p[i].to_multiset()) =~= all_pending(p).add(q.to_multiset()),
    decreases p.len(),
{
    broadcast use vstd::multiset::group_multiset_axioms;

    let u = p.update(i, q);
    assert(u.len() == p.len());
    let lhs = all_pending(u).add(p[i].to_multiset());
    let rhs = all_pending(p).add(q.to_multiset());
    assert(all_pending(u) == all_pending(u.drop_last()).add(u.last().to_multiset()));
    assert(all_pending(p) == all_pending(p.drop_last()).add(p.last().to_multiset()));
    if i == p.len() - 1 {
        assert(u.drop_last() =~= p.drop_last());
        assert(u.last() == q);
        assert forall|x: C| lhs.count(x) == rhs.count(x) by {}
    } else {
        assert(u.drop_last() =~= p.drop_last().update(i, q));
        assert(u.last() == p.last());
        lemma_all_pending_update(p.drop_last(), i, q);
        let ih_l = all_pending(u.drop_last()).add(p[i].to_multiset());
        let ih_r = all_pending(p.drop_last()).add(q.to_multiset());
        assert forall|x: C| lhs.count(x) == rhs.count(x) by {
            assert(ih_l.count(x) == ih_r.count(x));
        }
    }
}

/// Loading: when every configured extension loads, the registry holds all of
/// them, in configuration order, and reports no failure.
pub proof fn lemma_all_loaded<H>(s: Seq<LoadAttempt<H>>)
    requires
        forall|i: int| 0 <= i < s.len() ==> (#[trigger] s[i]) is Loaded,
    ensures
        loaded_of(s).len() == s.len(),
        forall|i: int| 0 <= i < s.len() ==> (#[trigger] loaded_of(s)[i]).0 == attempt_name(s[i]),
        failed_of(s).len() == 0,
    decreases s.len(),
{
    if s.len() > 0 {
        assert forall|i: int| 0 <= i < s.drop_first().len() implies (#[trigger] s.drop_first()[i]) is Loaded by {
            assert(s.drop_first()[i] == s[i + 1]);
        }
        lemma_all_loaded(s.drop_first());
        assert(s[0] is Loaded);
        assert forall|i: int| 0 <= i < s.len() implies (#[trigger] loaded_of(s)[i]).0 == attempt_name(s[i]) by {
            if i > 0 {
                assert(loaded_of(s)[i] == loaded_of(s.drop_first())[i - 1]);
                assert(s.drop_first()[i - 1] == s[i]);
            }
        }
    }
}

/// Failure isolation: an extension that fails to load leaves the others
/// loaded exactly as they would be without it.
pub proof fn lemma_failure_isolated<H>(s: Seq<LoadAttempt<H>>, k: int)
    requires
        0 <= k < s.len(),
        s[k] is Failed,
    ensures
        loaded_of(s) == loaded_of(s.remove(k)),
    decreases s.len(),
{
    if k == 0 {
        assert(s.remove(0) =~= s.drop_first());
    } else {
        assert(s.remove(k).drop_first() =~= s.drop_first().remove(k - 1));
        assert(s.remove(k)[0] == s[0]);
        lemma_failure_isolated(s.drop_first(), k - 1);
    }
}

/// Isolation of a failing `init`: once extension `k`'s `init` is recorded as
/// failed, it alone is marked, and every extension, the failed one included,
/// stays loaded with its name, handle, capabilities and queue unchanged.
pub proof fn lemma_init_failure_isolated<H, C>(before: Plugins<H, C>, after: Plugins<H, C>, k: int)
    requires
        before.wf(),
        0 <= k < before.model().len(),
        after.model() == before.model(),
        after.pending() == before.pending(),
        after.init_failures() == before.init_failures().update(k, true),
    ensures
        after.wf(),
        after.model().len() == before.model().len(),
        after.init_failures()[k],
        forall|j: int|
            0 <= j < after.model().len() && j != k ==> (#[trigger] after.init_failures()[j])
                == before.init_failures()[j] && after.model()[j] == before.model()[j]
                && after.pending()[j] == before.pending()[j],
{
}

/// Commands: an extension that offers no `list_commands`, or declares no
/// commands, adds nothing to the host's command table, and the others keep
/// their places.
pub proof fn lemma_commands_without_extension<T>(ls: Seq<Seq<T>>, caps: Seq<Capabilities>, k: int)
    requires
        ls.len() == caps.len(),
        0 <= k < ls.len(),
        !caps[k].list_commands || ls[k].len() == 0,
    ensures
        offered_commands(ls, caps) == offered_commands(ls.remove(k), caps.remove(k)),
    decreases ls.len(),
{
    if k == 0 {
        assert(ls.remove(0) =~= ls.drop_first());
        assert(caps.remove(0) =~= caps.drop_first());
        assert(offered_commands(ls, caps) =~= offered_commands(ls.drop_first(), caps.drop_first()));
    } else {
        assert(ls.remove(k).drop_first() =~= ls.drop_first().remove(k - 1));
        assert(caps.remove(k).drop_first() =~= caps.drop_first().remove(k - 1));
        assert(ls.remove(k)[0] == ls[0]);
        assert(caps.remove(k)[0] == caps[0]);
        lemma_commands_without_extension(ls.drop_first(), caps.drop_first(), k - 1);
    }
}

/// Commands: when every extension offers `list_commands`, the table is each
/// extension's list in registration order, each in its declared order.
pub proof fn lemma_commands_in_order<T>(ls: Seq<Seq<T>>, caps: Seq<Capabilities>)
    requires
        ls.len() == caps.len(),
        forall|i: int| 0 <= i < caps.len() ==> (#[trigger] caps[i]).list_commands,
    ensures
        offered_commands(ls, caps) == ls.flatten(),
    decreases ls.len(),
{
    if ls.len() > 0 {
        assert forall|i: int| 0 <= i < caps.drop_first().len() implies (#[trigger] caps.drop_first()[i]).list_commands by {
            assert(caps.drop_first()[i] == caps[i + 1]);
        }
        lemma_commands_in_order(ls.drop_first(), caps.drop_first());
        assert(caps[0].list_commands);
    }
}

/// Delivery: a drain takes exactly the delivered callback out of the pending
/// callbacks, and nothing else; a drain that delivers nothing changes nothing.
pub proof fn lemma_drain_delivers_once<C>(p: Seq<Seq<C>>, policy: DrainPolicy)
    ensures
        drain_spec(p, policy).1 matches Some(c) ==> all_pending(p) == all_pending(
            drain_spec(p, policy).0,
        ).insert(c),
        drain_spec(p, policy).1 is None ==> drain_spec(p, policy).0 == p,
{
    broadcast use vstd::seq_lib::group_to_multiset_ensures;
    broadcast use vstd::multiset::group_multiset_axioms;

    lemma_first_pending(p, 0);
    let i = first_pending(p, 0);
    if i < p.len() {
        let q = p[i];
        let t = take_index(q, policy);
        lemma_all_pending_update(p, i, after_take(q, policy));
        assert(q.remove(t).to_multiset() =~= q.to_multiset().remove(q[t]));
        assert(q.to_multiset().count(q[t]) > 0) by {
            assert(q.contains(q[t]));
        }
        let c = taken_item(q, policy);
        let after = drain_spec(p, policy).0;
        assert(after == p.update(i, q.remove(t)));
        let l = all_pending(after).add(q.to_multiset());
        let r = all_pending(p).add(q.remove(t).to_multiset());
        assert forall|x: C| all_pending(p).count(x) == all_pending(after).insert(c).count(x) by {
            assert(l.count(x) == r.count(x));
        }
        assert(all_pending(p) =~= all_pending(after).insert(c));
    }
}

/// The queues after `k` successive drains from `p`, and the callbacks those
/// drains delivered, in order.
pub open spec fn drain_run<C>(p: Seq<Seq<C>>, policy: DrainPolicy, k: nat) -> (Seq<Seq<C>>, Seq<C>)
    decreases k,
{
    if k == 0 {
        (p, Seq::empty())
    } else {
        let first = drain_spec(p, policy);
        let rest = drain_run(first.0, policy, (k - 1) as nat);
        match first.1 {
            Some(c) => (rest.0, seq![c] + rest.1),
            None => rest,
        }
    }
}

/// With no queue holding work, nothing is pending.
pub proof fn lemma_idle_nothing_pending<C>(p: Seq<Seq<C>>)
    requires
        forall|j: int| 0 <= j < p.len() ==> (#[trigger] p[j]).len() == 0,
    ensures
        all_pending(p) =~= Multiset::<C>::empty(),
    decreases p.len(),
{
    broadcast use vstd::seq_lib::group_to_multiset_ensures;
    broadcast use vstd::multiset::group_multiset_axioms;

    if p.len() > 0 {
        assert forall|j: int| 0 <= j < p.drop_last().len() implies (#[trigger] p.drop_last()[j]).len() == 0 by {
            assert(p.drop_last()[j] == p[j]);
        }
        lemma_idle_nothing_pending(p.drop_last());
        assert(p.last().to_multiset().len() == 0);
        assert(p.last().to_multiset() =~= Multiset::<C>::empty());
    }
}

/// A sequence whose first element is `c` holds `c` once more than its tail.
proof fn lemma_cons_multiset<C>(c: C, s: Seq<C>)
    ensures
        (seq![c] + s).to_multiset() =~= s.to_multiset().insert(c),
{
    broadcast use vstd::seq_lib::group_to_multiset_ensures;
    broadcast use vstd::multiset::group_multiset_axioms;

    let t = seq![c] + s;
    assert(t.remove(0) =~= s);
    assert(t.contains(c)) by {
        assert(t[0] == c);
    }
    assert(t.to_multiset().count(c) > 0);
}

/// Delivery over many calls: whatever number of drains the host performs,
/// the callbacks delivered and those still pending together are exactly those
/// pending at the start. So a callback pending once is delivered at most once,
/// and never again afterwards.
pub proof fn lemma_drain_run_conserves<C>(p: Seq<Seq<C>>, policy: DrainPolicy, k: nat)
    ensures
        all_pending(p) =~= all_pending(drain_run(p, policy, k).0).add(
            drain_run(p, policy, k).1.to_multiset(),
        ),
        forall|c: C| #[trigger] drain_run(p, policy, k).1.to_multiset().count(c) <= all_pending(p).count(c),
    decreases k,
{
    broadcast use vstd::seq_lib::group_to_multiset_ensures;
    broadcast use vstd::multiset::group_multiset_axioms;

    if k > 0 {
        let first = drain_spec(p, policy);
        lemma_drain_delivers_once(p, policy);
        lemma_drain_run_conserves(first.0, policy, (k - 1) as nat);
        let rest = drain_run(first.0, policy, (k - 1) as nat);
        if let Some(c) = first.1 {
            lemma_cons_multiset(c, rest.1);
        }
    } else {
        assert(Seq::<C>::empty().to_multiset() =~= Multiset::<C>::empty());
    }
}

/// Delivery is eventual: as many drains as there are pending callbacks
/// deliver every one of them and leave every queue empty.
pub proof fn lemma_drain_run_delivers_all<C>(p: Seq<Seq<C>>, policy: DrainPolicy, k: nat)
    requires
        k >= all_pending(p).len(),
    ensures
        drain_run(p, policy, k).1.to_multiset() =~= all_pending(p),
        forall|j: int|
            0 <= j < drain_run(p, policy, k).0.len() ==> (#[trigger] drain_run(p, policy, k).0[j]).len()
                == 0,
    decreases k,
{
    broadcast use vstd::seq_lib::group_to_multiset_ensures;
    broadcast use vstd::multiset::group_multiset_axioms;

    lemma_first_pending(p, 0);
    let first = drain_spec(p, policy);
    lemma_drain_delivers_once(p, policy);
    if first.1 is None {
        assert forall|j: int| 0 <= j < p.len() implies (#[trigger] p[j]).len() == 0 by {}
        lemma_idle_nothing_pending(p);
        lemma_idle_drain(p, policy);
        lemma_drain_run_idle(p, policy, k);
        assert(Seq::<C>::empty().to_multiset() =~= Multiset::<C>::empty());
    } else {
        let c = first.1->Some_0;
        assert(all_pending(p).len() == all_pending(first.0).len() + 1);
        lemma_drain_run_delivers_all(first.0, policy, (k - 1) as nat);
        let rest = drain_run(first.0, policy, (k - 1) as nat);
        lemma_cons_multiset(c, rest.1);
    }
}

/// Drains of idle queues deliver nothing and change nothing.
proof fn lemma_drain_run_idle<C>(p: Seq<Seq<C>>, policy: DrainPolicy, k: nat)
    requires
        forall|j: int| 0 <= j < p.len() ==> (#[trigger] p[j]).len() == 0,
    ensures
        drain_run(p, policy, k) == (p, Seq::<C>::empty()),
    decreases k,
{
    if k > 0 {
        lemma_idle_drain(p, policy);
        lemma_drain_run_idle(p, policy, (k - 1) as nat);
    }
}

/// Submission: a submitted callback is added to the pending callbacks exactly
/// once.
pub proof fn lemma_submit_adds_once<C>(p: Seq<Seq<C>>, i: int, c: C)
    requires
        0 <= i < p.len(),
    ensures
        all_pending(submit_spec(p, i, c)) == all_pending(p).insert(c),
{
    broadcast use vstd::seq_lib::group_to_multiset_ensures;
    broadcast use vstd::multiset::group_multiset_axioms;

    lemma_all_pending_update(p, i, p[i].push(c));
    assert(p[i].push(c).to_multiset() =~= p[i].to_multiset().insert(c));
    let l = all_pending(submit_spec(p, i, c)).add(p[i].to_multiset());
    let r = all_pending(p).add(p[i].push(c).to_multiset());
    assert forall|x: C| all_pending(submit_spec(p, i, c)).count(x) == all_pending(p).insert(c).count(x) by {
        assert(l.count(x) == r.count(x));
    }
    assert(all_pending(submit_spec(p, i, c)) =~= all_pending(p).insert(c));
}

/// Ordering within one extension: of two callbacks submitted as `a` then `b`
/// to idle queues, a last-in-first-out registry delivers `b` then `a`, a
/// first-in-first-out one `a` then `b`, and then nothing more is pending.
pub proof fn lemma_two_submissions_order<C>(
    p: Seq<Seq<C>>,
    i: int,
    a: C,
    b: C,
    policy: DrainPolicy,
)
    requires
        0 <= i < p.len(),
        forall|j: int| 0 <= j < p.len() ==> (#[trigger] p[j]).len() == 0,
    ensures
        ({
            let p2 = submit_spec(submit_spec(p, i, a), i, b);
            let first = drain_spec(p2, policy);
            let second = drain_spec(first.0, policy);
            &&& policy == DrainPolicy::Lifo ==> first.1 == Some(b) && second.1 == Some(a)
            &&& policy == DrainPolicy::Fifo ==> first.1 == Some(a) && second.1 == Some(b)
            &&& a != b && policy == DrainPolicy::Lifo ==> first.1 != Some(a)
            &&& a != b && policy == DrainPolicy::Fifo ==> first.1 != Some(b)
            &&& drain_spec(second.0, policy).1 is None
        }),
{
    let p2 = submit_spec(submit_spec(p, i, a), i, b);
    assert(p2[i] =~= seq![a, b]);
    lemma_first_pending_at(p2, 0, i);
    let first = drain_spec(p2, policy);
    let rest1 = after_take(p2[i], policy);
    match policy {
        DrainPolicy::Lifo => assert(rest1 =~= seq![a]),
        DrainPolicy::Fifo => assert(rest1 =~= seq![b]),
    }
    lemma_first_pending_at(first.0, 0, i);
    let second = drain_spec(first.0, policy);
    assert(after_take(rest1, policy) =~= Seq::<C>::empty());
    assert forall|j: int| 0 <= j < second.0.len() implies (#[trigger] second.0[j]).len() == 0 by {
        if j != i {
            assert(second.0[j] == p[j]);
        }
    }
    lemma_idle_drain(second.0, policy);
}

/// Ordering within one extension, whatever the other queues hold: once an
/// extension with nothing pending has submitted `a` then `b`, its queue hands
/// them out as `b` then `a` last-in-first-out, as `a` then `b`
/// first-in-first-out, and is then empty.
pub proof fn lemma_queue_order<C>(p: Seq<Seq<C>>, i: int, a: C, b: C, policy: DrainPolicy)
    requires
        0 <= i < p.len(),
        p[i].len() == 0,
    ensures
        ({
            let q = submit_spec(submit_spec(p, i, a), i, b)[i];
            let q1 = after_take(q, policy);
            &&& policy == DrainPolicy::Lifo ==> taken_item(q, policy) == b && taken_item(q1, policy)
                == a
            &&& policy == DrainPolicy::Fifo ==> taken_item(q, policy) == a && taken_item(q1, policy)
                == b
            &&& after_take(q1, policy).len() == 0
        }),
{
    let q = submit_spec(submit_spec(p, i, a), i, b)[i];
    assert(q =~= seq![a, b]);
    match policy {
        DrainPolicy::Lifo => assert(after_take(q, policy) =~= seq![a]),
        DrainPolicy::Fifo => assert(after_take(q, policy) =~= seq![b]),
    }
}

/// Shutdown: a deinit plan names every extension that offers `deinit` exactly
/// once and no other; it is fixed before any call, so one failing call cannot
/// keep a later extension from its own.
pub proof fn lemma_deinit_each_once(plan: Seq<usize>, caps: Seq<Capabilities>)
    requires
        is_call_plan(plan, caps, EntryPoint::Deinit),
    ensures
        plan.no_duplicates(),
        forall|i: usize| i < caps.len() ==> (plan.contains(i) <==> (#[trigger] caps[i as int]).deinit),
{
    assert forall|k1: int, k2: int| 0 <= k1 < plan.len() && 0 <= k2 < plan.len() && k1 != k2 implies plan[k1]
        != plan[k2] by {
        if k1 < k2 {
            assert(plan[k1] < plan[k2]);
        } else {
            assert(plan[k2] < plan[k1]);
        }
    }
    assert forall|i: usize| i < caps.len() && plan.contains(i) implies (#[trigger] caps[i as int]).deinit by {
        let k = choose|k: int| 0 <= k < plan.len() && plan[k] == i;
        assert(offers(caps[plan[k] as int], EntryPoint::Deinit));
    }
}

/// Idle drain: with no work pending anywhere, a drain delivers nothing and
/// changes nothing.
pub proof fn lemma_idle_drain<C>(p: Seq<Seq<C>>, policy: DrainPolicy)
    requires
        forall|j: int| 0 <= j < p.len() ==> (#[trigger] p[j]).len() == 0,
    ensures
        drain_spec(p, policy) == (p, None::<C>),
{
    lemma_first_pending(p, 0);
}

/// Channels: a callback is only ever delivered from an extension that was
/// handed a submission channel.
pub proof fn lemma_drain_source_has_channel<H, C>(reg: Plugins<H, C>)
    requires
        reg.wf(),
    ensures
        first_pending(reg.pending(), 0) < reg.model().len() ==> reg.caps()[first_pending(
            reg.pending(),
            0,
        )].register_callback_channel,
{
    lemma_first_pending(reg.pending(), 0);
    let i = first_pending(reg.pending(), 0);
    if i < reg.model().len() {
        let m: ExtensionModel<H> = reg.model()[i];
        assert(reg.caps()[i] == m.2);
    }
}

} // verus!
