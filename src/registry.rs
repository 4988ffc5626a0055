use vstd::prelude::*;

use crate::command::list_views;
use crate::queue::{after_take, taken_item, DrainPolicy, PendingQueue};

verus! {

/// The optional entry points that an extension module may export.
#[derive(Clone, Copy, Debug, PartialEq, Eq, Structural)]
pub enum EntryPoint {
    Init,
    Deinit,
    ListCommands,
    RegisterCallbackChannel,
    Render,
}

/// Which entry points an extension offers, resolved once when it is loaded.
#[derive(Clone, Copy, Debug, PartialEq, Eq, Structural)]
pub struct Capabilities {
    pub init: bool,
    pub deinit: bool,
    pub list_commands: bool,
    pub register_callback_channel: bool,
    pub render: bool,
}

pub open spec fn offers(c: Capabilities, e: EntryPoint) -> bool {
    match e {
        EntryPoint::Init => c.init,
        EntryPoint::Deinit => c.deinit,
        EntryPoint::ListCommands => c.list_commands,
        EntryPoint::RegisterCallbackChannel => c.register_callback_channel,
        EntryPoint::Render => c.render,
    }
}

impl Capabilities {
    /// Whether the entry point `e` was found in the module.
    pub fn offers(&self, e: EntryPoint) -> (r: bool)
        ensures
            r == offers(*self, e),
    {
        match e {
            EntryPoint::Init => self.init,
            EntryPoint::Deinit => self.deinit,
            EntryPoint::ListCommands => self.list_commands,
            EntryPoint::RegisterCallbackChannel => self.register_callback_channel,
            EntryPoint::Render => self.render,
        }
    }
}

/// The result of trying to load one configured extension.
pub enum LoadAttempt<H> {
    Loaded { name: String, handle: H, capabilities: Capabilities },
    Failed { name: String, reason: String },
}

/// An extension that did not load, with the diagnostic to report.
pub struct LoadFailure {
    pub name: String,
    pub reason: String,
}

/// What the registry keeps of one extension: its name, its module handle and
/// its capabilities.
pub type ExtensionModel<H> = (Seq<char>, H, Capabilities);

/// The extensions that loaded, in the order of the attempts.
pub open spec fn loaded_of<H>(s: Seq<LoadAttempt<H>>) -> Seq<ExtensionModel<H>>
    decreases s.len(),
{
    if s.len() == 0 {
        Seq::empty()
    } else {
        let rest = loaded_of(s.drop_first());
        match s[0] {
            LoadAttempt::Loaded { name, handle, capabilities } => seq![
                (name@, handle, capabilities),
            ] + rest,
            LoadAttempt::Failed { .. } => rest,
        }
    }
}

/// The names and reasons of the extensions that failed, in the order of the
/// attempts.
pub open spec fn failed_of<H>(s: Seq<LoadAttempt<H>>) -> Seq<(Seq<char>, Seq<char>)>
    decreases s.len(),
{
    if s.len() == 0 {
        Seq::empty()
    } else {
        let rest = failed_of(s.drop_first());
        match s[0] {
            LoadAttempt::Loaded { .. } => rest,
            LoadAttempt::Failed { name, reason } => seq![(name@, reason@)] + rest,
        }
    }
}

pub open spec fn failures_model(s: Seq<LoadFailure>) -> Seq<(Seq<char>, Seq<char>)> {
    s.map_values(|f: LoadFailure| (f.name@, f.reason@))
}

/// The first index at or after `from` whose queue holds work, or `p.len()`.
pub open spec fn first_pending<C>(p: Seq<Seq<C>>, from: int) -> int
    decreases p.len() - from,
{
    if from < 0 || from >= p.len() {
        p.len() as int
    } else if p[from].len() > 0 {
        from
    } else {
        first_pending(p, from + 1)
    }
}

/// One drain of the queues `p`: the queues afterwards and what was delivered.
pub open spec fn drain_spec<C>(p: Seq<Seq<C>>, policy: DrainPolicy) -> (Seq<Seq<C>>, Option<C>) {
    let i = first_pending(p, 0);
    if i < p.len() {
        (p.update(i, after_take(p[i], policy)), Some(taken_item(p[i], policy)))
    } else {
        (p, None)
    }
}

/// The queues `p` after extension `i` submitted `c`.
pub open spec fn submit_spec<C>(p: Seq<Seq<C>>, i: int, c: C) -> Seq<Seq<C>> {
    p.update(i, p[i].push(c))
}

/// `plan` lists, in increasing order, exactly the extensions whose
/// capabilities offer `e`.
pub open spec fn is_call_plan(plan: Seq<usize>, caps: Seq<Capabilities>, e: EntryPoint) -> bool {
    &&& forall|k: int| 0 <= k < plan.len() ==> plan[k] < caps.len() && offers(caps[plan[k] as int], e)
    &&& forall|k1: int, k2: int| 0 <= k1 < k2 < plan.len() ==> plan[k1] < plan[k2]
    &&& forall|i: int| 0 <= i < caps.len() && offers(caps[i], e) ==> plan.contains(i as usize)
}

/// The commands of the lists `ls` whose extension offers `list_commands`,
/// in order.
pub open spec fn offered_commands<T>(ls: Seq<Seq<T>>, caps: Seq<Capabilities>) -> Seq<T>
    decreases ls.len(),
{
    if ls.len() == 0 || caps.len() == 0 {
        Seq::empty()
    } else {
        (if caps[0].list_commands {
            ls[0]
        } else {
            Seq::empty()
        }) + offered_commands(ls.drop_first(), caps.drop_first())
    }
}

/// Why a callback was not accepted.
#[derive(Clone, Copy, Debug, PartialEq, Eq, Structural)]
pub enum SubmitError {
    /// No extension has that index.
    UnknownExtension,
    /// The extension was never handed a submission channel.
    NoChannel,
}

/// One loaded extension.
pub struct Plugin<H> {
    name: String,
    handle: H,
    capabilities: Capabilities,
}

/// The loaded extensions, in registration order, each with its queue of
/// pending callbacks.
pub struct Plugins<H, C> {
    extensions: Vec<Plugin<H>>,
    queues: Vec<PendingQueue<C>>,
    init_failed: Vec<bool>,
    policy: DrainPolicy,
}

impl<H, C> Plugins<H, C> {
    /// The extensions, in registration order.
    pub closed spec fn model(&self) -> Seq<ExtensionModel<H>> {
        self.extensions@.map_values(|e: Plugin<H>| (e.name@, e.handle, e.capabilities))
    }

    /// The pending callbacks of each extension, in registration order.
    pub closed spec fn pending(&self) -> Seq<Seq<C>> {
        self.queues@.map_values(|q: PendingQueue<C>| q@)
    }

    /// Whether each extension's `init` was reported to have failed.
    pub closed spec fn init_failures(&self) -> Seq<bool> {
        self.init_failed@
    }

    pub closed spec fn drain_policy(&self) -> DrainPolicy {
        self.policy
    }

    pub open spec fn caps(&self) -> Seq<Capabilities> {
        self.model().map_values(|e: ExtensionModel<H>| e.2)
    }

    pub open spec fn names(&self) -> Seq<Seq<char>> {
        self.model().map_values(|e: ExtensionModel<H>| e.0)
    }

    /// One queue per extension, and no work queued for an extension that was
    /// never handed a submission channel.
    pub open spec fn wf(&self) -> bool {
        &&& self.pending().len() == self.model().len()
        &&& self.init_failures().len() == self.model().len()
        &&& forall|i: int|
            0 <= i < self.model().len() && !(#[trigger] self.model()[i]).2.register_callback_channel
                ==> self.pending()[i].len() == 0
    }

    /// An empty registry that drains with `policy`.
    pub fn empty(policy: DrainPolicy) -> (r: Self)
        ensures
            r.wf(),
            r.model() == Seq::<ExtensionModel<H>>::empty(),
            r.pending() == Seq::<Seq<C>>::empty(),
            r.init_failures() == Seq::<bool>::empty(),
            r.drain_policy() == policy,
    {
        let r = Plugins { extensions: Vec::new(), queues: Vec::new(), init_failed: Vec::new(), policy };
        assert(r.model() =~= Seq::<ExtensionModel<H>>::empty());
        assert(r.pending() =~= Seq::<Seq<C>>::empty());
        r
    }

    /// Appends a loaded extension with an empty queue; returns its index.
    pub fn register(&mut self, name: String, handle: H, capabilities: Capabilities) -> (r: usize)
        requires
            old(self).wf(),
        ensures
            final(self).wf(),
            r == old(self).model().len(),
            final(self).model() == old(self).model().push((name@, handle, capabilities)),
            final(self).pending() == old(self).pending().push(Seq::<C>::empty()),
            final(self).init_failures() == old(self).init_failures().push(false),
            final(self).drain_policy() == old(self).drain_policy(),
    {
        let r = self.extensions.len();
        let ghost name_v = name@;
        self.extensions.push(Plugin { name, handle, capabilities });
        self.queues.push(PendingQueue::new());
        self.init_failed.push(false);
        assert(self.model() =~= old(self).model().push((name_v, handle, capabilities)));
        assert(self.pending() =~= old(self).pending().push(Seq::<C>::empty()));
        r
    }

    /// Builds the registry from the outcome of loading each configured
    /// extension: those that loaded are kept in order, the others reported.
    pub fn new(attempts: Vec<LoadAttempt<H>>, policy: DrainPolicy) -> (r: (
        Self,
        Vec<LoadFailure>,
    ))
        ensures
            r.0.wf(),
            r.0.model() == loaded_of(attempts@),
            r.0.pending().len() == r.0.model().len(),
            forall|i: int| 0 <= i < r.0.pending().len() ==> (#[trigger] r.0.pending()[i]).len() == 0,
            forall|i: int| 0 <= i < r.0.init_failures().len() ==> !(#[trigger] r.0.init_failures()[i]),
            r.0.drain_policy() == policy,
            failures_model(r.1@) == failed_of(attempts@),
    {
        let mut reg = Plugins::empty(policy);
        let mut failures: Vec<LoadFailure> = Vec::new();
        let mut rest = attempts;
        proof {
            assert(reg.model() + loaded_of(rest@) =~= loaded_of(attempts@));
            assert(failures_model(failures@) + failed_of(rest@) =~= failed_of(attempts@));
        }
        while rest.len() > 0
            invariant
                reg.wf(),
                reg.model() + loaded_of(rest@) == loaded_of(attempts@),
                failures_model(failures@) + failed_of(rest@) == failed_of(attempts@),
                reg.pending().len() == reg.model().len(),
                forall|i: int| 0 <= i < reg.pending().len() ==> (#[trigger] reg.pending()[i]).len() == 0,
                forall|i: int| 0 <= i < reg.init_failures().len() ==> !(#[trigger] reg.init_failures()[i]),
                reg.drain_policy() == policy,
            decreases rest.len(),
        {
            let ghost before = rest@;
            let a = rest.remove(0);
            assert(before.drop_first() =~= rest@);
            match a {
                LoadAttempt::Loaded { name, handle, capabilities } => {
                    let ghost m = reg.model();
                    let ghost item = (name@, handle, capabilities);
                    reg.register(name, handle, capabilities);
                    assert(m.push(item) + loaded_of(rest@) =~= m + (seq![item] + loaded_of(rest@)));
                },
                LoadAttempt::Failed { name, reason } => {
                    let ghost fm = failures_model(failures@);
                    let ghost item = (name@, reason@);
                    failures.push(LoadFailure { name, reason });
                    assert(failures_model(failures@) =~= fm.push(item));
                    assert(fm.push(item) + failed_of(rest@) =~= fm + (seq![item] + failed_of(rest@)));
                },
            }
        }
        assert(loaded_of(rest@) =~= Seq::<ExtensionModel<H>>::empty());
        assert(failed_of(rest@) =~= Seq::<(Seq<char>, Seq<char>)>::empty());
        assert(reg.model() + loaded_of(rest@) =~= reg.model());
        assert(failures_model(failures@) + failed_of(rest@) =~= failures_model(failures@));
        (reg, failures)
    }

    /// The number of loaded extensions.
    pub fn len(&self) -> (r: usize)
        requires
            self.wf(),
        ensures
            r == self.model().len(),
    {
        self.extensions.len()
    }

    /// Hands extension `index`'s queue a callback; the registry becomes its
    /// sole owner.
    pub fn submit(&mut self, index: usize, callback: C) -> (r: Result<(), SubmitError>)
        requires
            old(self).wf(),
        ensures
            final(self).wf(),
            final(self).model() == old(self).model(),
            final(self).drain_policy() == old(self).drain_policy(),
            final(self).init_failures() == old(self).init_failures(),
            r == Err::<(), SubmitError>(SubmitError::UnknownExtension) <==> index
                >= old(self).model().len(),
            r == Err::<(), SubmitError>(SubmitError::NoChannel) <==> index < old(self).model().len()
                && !old(self).caps()[index as int].register_callback_channel,
            r is Ok ==> final(self).pending() == submit_spec(old(self).pending(), index as int, callback),
            r is Err ==> final(self).pending() == old(self).pending(),
    {
        if index >= self.extensions.len() {
            return Err(SubmitError::UnknownExtension);
        }
        if !self.extensions[index].capabilities.register_callback_channel {
            return Err(SubmitError::NoChannel);
        }
        self.queues[index].push(callback);
        assert(self.pending() =~= submit_spec(old(self).pending(), index as int, callback));
        Ok(())
    }

    /// Removes and returns at most one pending callback: from the first
    /// extension, in registration order, whose queue holds work, and within
    /// that queue as the drain policy says. Never waits.
    pub fn next_callback(&mut self) -> (r: Option<C>)
        requires
            old(self).wf(),
        ensures
            final(self).wf(),
            final(self).model() == old(self).model(),
            final(self).drain_policy() == old(self).drain_policy(),
            final(self).init_failures() == old(self).init_failures(),
            (final(self).pending(), r) == drain_spec(old(self).pending(), old(self).drain_policy()),
    {
        let n = self.queues.len();
        let mut i: usize = 0;
        while i < n
            invariant
                n == self.queues@.len(),
                *self == *old(self),
                old(self).wf(),
                i <= n,
                first_pending(self.pending(), 0) == first_pending(self.pending(), i as int),
            decreases n - i,
        {
            if self.queues[i].len() > 0 {
                let policy = self.policy;
                let r = self.queues[i].take(policy);
                assert(self.pending() =~= drain_spec(old(self).pending(), old(self).policy).0);
                assert forall|j: int| 0 <= j < self.pending().len() implies self.pending()[j].len()
                    <= old(self).pending()[j].len() by {
                    if j != i {
                        assert(self.pending()[j] == old(self).pending()[j]);
                    }
                }
                assert(self.model() == old(self).model());
                assert forall|j: int|
                    0 <= j < self.model().len() && !(#[trigger] self.model()[j]).2.register_callback_channel
                    implies self.pending()[j].len() == 0 by {
                    assert(!old(self).model()[j].2.register_callback_channel);
                }
                return r;
            }
            i = i + 1;
        }
        None
    }

    /// The extensions that offer entry point `e`, in registration order: the
    /// ones the host calls when it invokes `e` on every extension.
    pub fn plan_for(&self, e: EntryPoint) -> (r: Vec<usize>)
        requires
            self.wf(),
        ensures
            is_call_plan(r@, self.caps(), e),
    {
        let mut plan: Vec<usize> = Vec::new();
        let n = self.extensions.len();
        let mut i: usize = 0;
        while i < n
            invariant
                n == self.model().len(),
                n == self.caps().len(),
                i <= n,
                forall|k: int|
                    0 <= k < plan@.len() ==> plan@[k] < i && offers(
                        self.caps()[plan@[k] as int],
                        e,
                    ),
                forall|k1: int, k2: int| 0 <= k1 < k2 < plan@.len() ==> plan@[k1] < plan@[k2],
                forall|j: int| 0 <= j < i && offers(self.caps()[j], e) ==> plan@.contains(j as usize),
            decreases n - i,
        {
            let ghost before = plan@;
            assert(self.caps()[i as int] == self.extensions@[i as int].capabilities);
            if self.extensions[i].capabilities.offers(e) {
                plan.push(i);
                assert(plan@[before.len() as int] == i);
                assert forall|j: int|
                    0 <= j < i + 1 && offers(self.caps()[j], e) implies plan@.contains(j as usize) by {
                    if j < i {
                        let k = choose|k: int| 0 <= k < before.len() && before[k] == j as usize;
                        assert(plan@[k] == j as usize);
                    }
                }
            }
            i = i + 1;
        }
        plan
    }

    /// The extensions whose `deinit` the host calls at shutdown, in
    /// registration order. The host calls each of them once, whatever an
    /// earlier one did.
    pub fn deinit_hook(&self) -> (r: Vec<usize>)
        requires
            self.wf(),
        ensures
            is_call_plan(r@, self.caps(), EntryPoint::Deinit),
    {
        self.plan_for(EntryPoint::Deinit)
    }

    /// The host's command table: `lists[i]` is what extension `i` declared;
    /// the lists of the extensions that offer `list_commands` are
    /// concatenated in registration order, and the others add nothing.
    pub fn get_commands<T>(&self, lists: Vec<Vec<T>>) -> (r: Vec<T>)
        requires
            self.wf(),
            lists@.len() == self.model().len(),
        ensures
            r@ == offered_commands(list_views(lists@), self.caps()),
    {
        let ghost caps = self.caps();
        let n = self.extensions.len();
        let mut out: Vec<T> = Vec::new();
        let mut rest = lists;
        let mut i: usize = 0;
        assert(caps.subrange(0, n as int) =~= caps);
        assert(out@ + offered_commands(list_views(rest@), caps.subrange(0, n as int)) =~= offered_commands(
            list_views(lists@),
            caps,
        ));
        while i < n
            invariant
                n == caps.len(),
                caps == self.caps(),
                i <= n,
                rest@.len() == n - i,
                out@ + offered_commands(list_views(rest@), caps.subrange(i as int, n as int))
                    == offered_commands(list_views(lists@), caps),
            decreases n - i,
        {
            let ghost before = rest@;
            let ghost done = out@;
            let mut l = rest.remove(0);
            let ghost lv = l@;
            assert(list_views(before).drop_first() =~= list_views(rest@));
            assert(list_views(before)[0] == lv);
            assert(caps.subrange(i as int, n as int).drop_first() =~= caps.subrange(i + 1, n as int));
            assert(caps.subrange(i as int, n as int)[0] == caps[i as int]);
            assert(caps[i as int] == self.extensions@[i as int].capabilities);
            if self.extensions[i].capabilities.list_commands {
                out.append(&mut l);
                assert(done + (lv + offered_commands(list_views(rest@), caps.subrange(i + 1, n as int)))
                    =~= out@ + offered_commands(list_views(rest@), caps.subrange(i + 1, n as int)));
            } else {
                assert(done + (Seq::<T>::empty() + offered_commands(
                    list_views(rest@),
                    caps.subrange(i + 1, n as int),
                )) =~= out@ + offered_commands(list_views(rest@), caps.subrange(i + 1, n as int)));
            }
            i = i + 1;
        }
        assert(out@ + offered_commands(list_views(rest@), caps.subrange(n as int, n as int)) =~= out@);
        out
    }

    /// Records that extension `index`'s `init` failed. Only that extension is
    /// marked; every other extension stays loaded exactly as it was.
    pub fn record_init_failure(&mut self, index: usize)
        requires
            old(self).wf(),
            index < old(self).model().len(),
        ensures
            final(self).wf(),
            final(self).model() == old(self).model(),
            final(self).pending() == old(self).pending(),
            final(self).drain_policy() == old(self).drain_policy(),
            final(self).init_failures() == old(self).init_failures().update(index as int, true),
    {
        self.init_failed.set(index, true);
    }

    /// Whether extension `index`'s `init` was recorded as failed.
    pub fn init_failed(&self, index: usize) -> (r: bool)
        requires
            self.wf(),
            index < self.model().len(),
        ensures
            r == self.init_failures()[index as int],
    {
        self.init_failed[index]
    }

    /// The name of extension `index`.
    pub fn name(&self, index: usize) -> (r: &String)
        requires
            self.wf(),
            index < self.model().len(),
        ensures
            r@ == self.names()[index as int],
    {
        &self.extensions[index].name
    }

    /// The module handle of extension `index`.
    pub fn handle(&self, index: usize) -> (r: &H)
        requires
            self.wf(),
            index < self.model().len(),
        ensures
            *r == self.model()[index as int].1,
    {
        &self.extensions[index].handle
    }

    /// The capabilities resolved for extension `index`.
    pub fn capabilities(&self, index: usize) -> (r: Capabilities)
        requires
            self.wf(),
            index < self.model().len(),
        ensures
            r == self.caps()[index as int],
    {
        self.extensions[index].capabilities
    }

    /// How many callbacks extension `index` has pending.
    pub fn pending_count(&self, index: usize) -> (r: usize)
        requires
            self.wf(),
            index < self.model().len(),
        ensures
            r == self.pending()[index as int].len(),
    {
        self.queues[index].len()
    }

    /// The order in which a queue delivers its callbacks.
    pub fn policy(&self) -> (r: DrainPolicy)
        ensures
            r == self.drain_policy(),
    {
        self.policy
    }
}

} // verus!
