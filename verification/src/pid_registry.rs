//! Which pids are wanted, by whom: several subscriptions to a pid share one
//! request and its reply. Times are microseconds since the epoch.
use crate::table::Table;
use crate::text;
use vstd::prelude::*;

verus! {

/// A reply that is kept for a while.
#[derive(Debug, Clone)]
pub struct CachedPIDResponse {
    pub data: String,
    /// When it came.
    pub timestamp: u64,
    /// How long it counts, in milliseconds.
    pub ttl_ms: u32,
}

impl CachedPIDResponse {
    /// Whether the reply still counts.
    pub open spec fn counts(self, now: u64) -> bool {
        now - self.timestamp < self.ttl_ms * 1000
    }

    /// Whether the reply still counts.
    pub fn is_valid(&self, now: u64) -> (r: bool)
        ensures
            r == self.counts(now),
    {
        now < self.timestamp || now - self.timestamp < self.ttl_ms as u64 * 1000
    }
}

/// The wanted pids.
#[derive(Debug)]
pub struct GlobalPIDRegistry {
    /// The subscriptions to each pid.
    pub pid_subscriptions: Table<Vec<u128>>,
    /// The last reply of each pid.
    pub pid_cache: Table<CachedPIDResponse>,
    /// The controller that a pid is asked of, where one was named.
    pub pid_controllers: Table<String>,
    /// How long a reply counts where nothing else is said.
    pub default_ttl_ms: u32,
}

/// The registry as a mathematical value.
#[verifier::ext_equal]
pub struct RegistryView {
    pub subs: Map<Seq<char>, Set<u128>>,
    pub cache: Map<Seq<char>, CachedPIDResponse>,
    pub controllers: Map<Seq<char>, Seq<char>>,
    pub ttl: u32,
}

impl View for GlobalPIDRegistry {
    type V = RegistryView;

    open spec fn view(&self) -> RegistryView {
        RegistryView {
            subs: self.pid_subscriptions@.map_values(|v: Vec<u128>| v@.to_set()),
            cache: self.pid_cache@,
            controllers: self.pid_controllers@.map_values(|c: String| c@),
            ttl: self.default_ttl_ms,
        }
    }
}

/// The subscriptions to a pid.
pub open spec fn subscribers(r: RegistryView, pid: Seq<char>) -> Set<u128> {
    if r.subs.contains_key(pid) {
        r.subs[pid]
    } else {
        Set::empty()
    }
}

/// The controller of a pid.
pub open spec fn controller(r: RegistryView, pid: Seq<char>) -> Option<Seq<char>> {
    if r.controllers.contains_key(pid) {
        Some(r.controllers[pid])
    } else {
        None
    }
}

/// The registry after a subscription wants a pid.
pub open spec fn registered(
    r: RegistryView,
    pid: Seq<char>,
    id: u128,
    target: Option<Seq<char>>,
) -> RegistryView {
    RegistryView {
        subs: r.subs.insert(pid, subscribers(r, pid).insert(id)),
        controllers: match target {
            Some(c) => r.controllers.insert(pid, c),
            None => r.controllers,
        },
        ..r
    }
}

/// The registry after a subscription no longer wants a pid: with the last one
/// the pid goes, and its reply and its controller with it.
pub open spec fn unregistered(r: RegistryView, pid: Seq<char>, id: u128) -> RegistryView {
    if !r.subs.contains_key(pid) {
        r
    } else if r.subs[pid].remove(id) =~= Set::<u128>::empty() {
        RegistryView {
            subs: r.subs.remove(pid),
            cache: r.cache.remove(pid),
            controllers: r.controllers.remove(pid),
            ..r
        }
    } else {
        RegistryView { subs: r.subs.insert(pid, r.subs[pid].remove(id)), ..r }
    }
}

/// Whether a pid is wanted by no other subscription than `id`.
pub open spec fn only_wanted_by(r: RegistryView, pid: Seq<char>, id: u128) -> bool {
    r.subs.contains_key(pid) && r.subs[pid].remove(id) =~= Set::<u128>::empty()
}

/// The registry after a subscription has ended.
pub open spec fn without_subscription(r: RegistryView, id: u128) -> RegistryView {
    RegistryView {
        subs: Map::new(
            |p: Seq<char>| r.subs.contains_key(p) && !only_wanted_by(r, p, id),
            |p: Seq<char>| r.subs[p].remove(id),
        ),
        cache: Map::new(
            |p: Seq<char>| r.cache.contains_key(p) && !only_wanted_by(r, p, id),
            |p: Seq<char>| r.cache[p],
        ),
        controllers: Map::new(
            |p: Seq<char>| r.controllers.contains_key(p) && !only_wanted_by(r, p, id),
            |p: Seq<char>| r.controllers[p],
        ),
        ..r
    }
}

/// Whether every wanted pid is wanted by someone, and only wanted pids have a
/// controller.
pub open spec fn consistent(r: RegistryView) -> bool {
    &&& forall|p: Seq<char>|
        r.subs.contains_key(p) ==> r.subs[p].finite() && !(#[trigger] r.subs[p] =~= Set::empty())
    &&& forall|p: Seq<char>|
        r.controllers.contains_key(p) ==> #[trigger] r.subs.contains_key(p)
}

fn without_id(v: Vec<u128>, id: u128) -> (r: Vec<u128>)
    requires
        v@.no_duplicates(),
    ensures
        r@.no_duplicates(),
        r@.to_set() == v@.to_set().remove(id),
{
    let mut out: Vec<u128> = Vec::new();
    let mut i: usize = 0;
    while i < v.len()
        invariant
            i <= v@.len(),
            v@.no_duplicates(),
            out@.no_duplicates(),
            forall|x: u128|
                #![trigger out@.contains(x)]
                out@.contains(x) <==> v@.take(i as int).contains(x) && x != id,
        decreases v@.len() - i,
    {
        let ghost before = out@;
        proof {
            text::lemma_take_step(v@, i as int);
            text::lemma_push_contains(before, v@[i as int]);
        }
        if v[i] != id {
            out.push(v[i]);
            assert(!before.contains(v@[i as int]));
        }
        assert forall|x: u128|
            #![trigger out@.contains(x)]
            out@.contains(x) <==> v@.take(i + 1).contains(x) && x != id by {
            assert(before.contains(x) <==> v@.take(i as int).contains(x) && x != id);
            assert(v@.take(i + 1).contains(x) <==> v@.take(i as int).contains(x) || x
                == v@[i as int]);
        }
        i += 1;
    }
    assert(v@.take(i as int) =~= v@);
    assert(out@.to_set() =~= v@.to_set().remove(id));
    out
}

fn with_id(v: Vec<u128>, id: u128) -> (r: Vec<u128>)
    requires
        v@.no_duplicates(),
    ensures
        r@.no_duplicates(),
        r@.to_set() == v@.to_set().insert(id),
        r@.len() > 0,
{
    let ghost before = v@;
    let mut i: usize = 0;
    while i < v.len()
        invariant
            i <= v@.len(),
            before == v@,
            v@.no_duplicates(),
            forall|j: int| 0 <= j < i ==> v@[j] != id,
        decreases v@.len() - i,
    {
        if v[i] == id {
            assert(before.to_set().contains(id));
            assert(before.to_set() =~= before.to_set().insert(id));
            return v;
        }
        i += 1;
    }
    let mut out = v;
    out.push(id);
    proof {
        text::lemma_push_contains(before, id);
    }
    assert(out@.to_set() =~= before.to_set().insert(id));
    out
}

impl GlobalPIDRegistry {
    /// Whether every wanted pid has subscriptions, each once, and only wanted
    /// pids have a controller.
    pub open spec fn wf(&self) -> bool {
        &&& forall|p: Seq<char>| #[trigger]
            self.pid_subscriptions@.contains_key(p) ==> self.pid_subscriptions@[p]@.no_duplicates()
                && self.pid_subscriptions@[p]@.len() > 0
        &&& forall|p: Seq<char>| #[trigger]
            self.pid_controllers@.contains_key(p) ==> self.pid_subscriptions@.contains_key(p)
    }

    /// No pid is wanted.
    pub fn new(default_ttl_ms: u32) -> (r: Self)
        ensures
            r.wf(),
            r@ == (RegistryView {
                subs: Map::empty(),
                cache: Map::empty(),
                controllers: Map::empty(),
                ttl: default_ttl_ms,
            }),
    {
        let r = GlobalPIDRegistry {
            pid_subscriptions: Table::new(),
            pid_cache: Table::new(),
            pid_controllers: Table::new(),
            default_ttl_ms,
        };
        assert(r@.subs =~= Map::empty());
        assert(r@.controllers =~= Map::empty());
        r
    }

    /// A subscription wants a pid, of a controller where one is named.
    pub fn register_pid_subscription(
        &mut self,
        pid: &str,
        subscription_id: u128,
        target_controller: Option<String>,
    )
        requires
            old(self).wf(),
        ensures
            final(self).wf(),
            final(self)@ == registered(
                old(self)@,
                pid@,
                subscription_id,
                match target_controller {
                    Some(c) => Some(c@),
                    None => None,
                },
            ),
    {
        let ghost before = self@;
        let ghost subs0 = self.pid_subscriptions@;
        let ghost ctl0 = self.pid_controllers@;
        let list = match self.pid_subscriptions.remove(pid) {
            Some(v) => v,
            None => Vec::new(),
        };
        let ghost had = list@.to_set();
        assert(had =~= subscribers(before, pid@));
        let list = with_id(list, subscription_id);
        let ghost now = list@.to_set();
        self.pid_subscriptions.insert(pid.to_owned(), list);
        assert(self.pid_subscriptions@ =~= subs0.insert(pid@, list));
        assert(self@.subs =~= before.subs.insert(pid@, now));
        if let Some(c) = target_controller {
            let ghost cv = c@;
            self.pid_controllers.insert(pid.to_owned(), c);
            assert(self@.controllers =~= before.controllers.insert(pid@, cv));
        }
    }

    /// A subscription no longer wants a pid.
    pub fn unregister_pid_subscription(&mut self, pid: &str, subscription_id: &u128)
        requires
            old(self).wf(),
        ensures
            final(self).wf(),
            final(self)@ == unregistered(old(self)@, pid@, *subscription_id),
    {
        let ghost before = self@;
        let ghost subs0 = self.pid_subscriptions@;
        match self.pid_subscriptions.remove(pid) {
            None => {
                assert(self.pid_subscriptions@ =~= subs0);
            },
            Some(v) => {
                let ghost had = v@.to_set();
                assert(had == before.subs[pid@]);
                let rest = without_id(v, *subscription_id);
                let ghost rv = rest@.to_set();
                if rest.len() == 0 {
                    assert(rv =~= Set::<u128>::empty());
                    let _ = self.pid_cache.remove(pid);
                    let _ = self.pid_controllers.remove(pid);
                    assert(self@.subs =~= before.subs.remove(pid@));
                    assert(self@.controllers =~= before.controllers.remove(pid@));
                } else {
                    assert(rv.contains(rest@[0]));
                    self.pid_subscriptions.insert(pid.to_owned(), rest);
                    assert(self.pid_subscriptions@ =~= subs0.insert(pid@, rest));
                    assert(self@.subs =~= before.subs.insert(pid@, rv));
                }
            },
        }
    }

    /// A subscription has ended: it wants nothing any more.
    pub fn unregister_subscription(&mut self, subscription_id: &u128)
        requires
            old(self).wf(),
        ensures
            final(self).wf(),
            final(self)@ == without_subscription(old(self)@, *subscription_id),
    {
        let ghost start = self@;
        let id = *subscription_id;
        let keys = self.pid_subscriptions.keys();
        let ghost all = text::views(keys@);
        let mut i: usize = 0;
        while i < keys.len()
            invariant
                i <= keys@.len(),
                all == text::views(keys@),
                all.no_duplicates(),
                all.to_set() == start.subs.dom(),
                id == *subscription_id,
                self.wf(),
                self@.ttl == start.ttl,
                forall|p: Seq<char>| #[trigger]
                    self@.subs.contains_key(p) <==> start.subs.contains_key(p) && !(all.take(
                        i as int,
                    ).contains(p) && only_wanted_by(start, p, id)),
                forall|p: Seq<char>|
                    self@.subs.contains_key(p) ==> #[trigger] self@.subs[p] == (if all.take(
                        i as int,
                    ).contains(p) {
                        start.subs[p].remove(id)
                    } else {
                        start.subs[p]
                    }),
                forall|p: Seq<char>| #[trigger]
                    self@.cache.contains_key(p) <==> start.cache.contains_key(p) && !(all.take(
                        i as int,
                    ).contains(p) && only_wanted_by(start, p, id)),
                forall|p: Seq<char>|
                    self@.cache.contains_key(p) ==> #[trigger] self@.cache[p] == start.cache[p],
                forall|p: Seq<char>| #[trigger]
                    self@.controllers.contains_key(p) <==> start.controllers.contains_key(p) && !(
                    all.take(i as int).contains(p) && only_wanted_by(start, p, id)),
                forall|p: Seq<char>|
                    self@.controllers.contains_key(p) ==> #[trigger] self@.controllers[p]
                        == start.controllers[p],
            decreases keys@.len() - i,
        {
            let ghost pv = all[i as int];
            let ghost here = all.take(i as int);
            let ghost next = all.take(i + 1);
            proof {
                assert(all.to_set().contains(pv));
                text::lemma_take_step(all, i as int);
            }
            let ghost mid = self@;
            assert(pv == keys@[i as int]@);
            assert(mid.subs.contains_key(pv));
            assert(mid.subs[pv] == start.subs[pv]);
            self.unregister_pid_subscription(keys[i].as_str(), subscription_id);
            proof {
                let after = self@;
                assert(only_wanted_by(start, pv, id) == only_wanted_by(mid, pv, id));
                assert forall|p: Seq<char>| #[trigger]
                    after.subs.contains_key(p) <==> start.subs.contains_key(p) && !(next.contains(p)
                        && only_wanted_by(start, p, id)) by {
                    assert(next.contains(p) == (here.contains(p) || p == pv));
                    if p != pv {
                        assert(after.subs.contains_key(p) == mid.subs.contains_key(p));
                    }
                }
                assert forall|p: Seq<char>| after.subs.contains_key(p) implies #[trigger] after.subs[p]
                    == (if next.contains(p) {
                    start.subs[p].remove(id)
                } else {
                    start.subs[p]
                }) by {
                    assert(next.contains(p) == (here.contains(p) || p == pv));
                    if p != pv {
                        assert(mid.subs.contains_key(p));
                        assert(after.subs[p] == mid.subs[p]);
                    }
                }
            }
            i += 1;
        }
        proof {
            assert(all.take(i as int) =~= all);
            let want = without_subscription(start, id);
            assert forall|p: Seq<char>| start.subs.contains_key(p) implies #[trigger] all.contains(
                p,
            ) by {
                assert(all.to_set().contains(p));
            }
            assert(self@.subs =~= want.subs);
            assert forall|p: Seq<char>| only_wanted_by(start, p, id) implies all.contains(p) by {
            }
            assert(self@.cache =~= want.cache);
            assert(self@.controllers =~= want.controllers);
        }
    }

    /// The subscriptions to a pid.
    pub fn get_pid_subscriptions(&self, pid: &str) -> (r: Option<&Vec<u128>>)
        requires
            self.wf(),
        ensures
            r is Some <==> self@.subs.contains_key(pid@),
            r matches Some(v) ==> v@.no_duplicates() && v@.to_set() == self@.subs[pid@],
    {
        self.pid_subscriptions.get(pid)
    }

    /// Keeps the reply of a pid.
    pub fn cache_pid_response(&mut self, pid: &str, data: String, ttl_ms: Option<u32>, now: u64)
        requires
            old(self).wf(),
        ensures
            final(self).wf(),
            final(self)@ == (RegistryView {
                cache: old(self)@.cache.insert(
                    pid@,
                    CachedPIDResponse {
                        data,
                        timestamp: now,
                        ttl_ms: match ttl_ms {
                            Some(n) => n,
                            None => old(self)@.ttl,
                        },
                    },
                ),
                ..old(self)@
            }),
    {
        let ttl: u32 = match ttl_ms {
            Some(n) => n,
            None => self.default_ttl_ms,
        };
        self.pid_cache.insert(
            pid.to_owned(),
            CachedPIDResponse { data, timestamp: now, ttl_ms: ttl },
        );
    }

    /// The kept reply of a pid, where it still counts.
    pub fn get_cached_pid_response(&self, pid: &str, now: u64) -> (r: Option<&CachedPIDResponse>)
        ensures
            r is Some <==> self@.cache.contains_key(pid@) && self@.cache[pid@].counts(now),
            r matches Some(c) ==> *c == self@.cache[pid@],
    {
        match self.pid_cache.get(pid) {
            Some(c) => if c.is_valid(now) {
                Some(c)
            } else {
                None
            },
            None => None,
        }
    }

    /// Forgets replies that no longer count.
    pub fn clear_expired_cache(&mut self, now: u64)
        requires
            old(self).wf(),
        ensures
            final(self).wf(),
            final(self)@ == (RegistryView {
                cache: Map::new(
                    |p: Seq<char>|
                        old(self)@.cache.contains_key(p) && old(self)@.cache[p].counts(now),
                    |p: Seq<char>| old(self)@.cache[p],
                ),
                ..old(self)@
            }),
    {
        let ghost start = self.pid_cache@;
        let ghost before = self@;
        let keys = self.pid_cache.keys();
        let ghost all = text::views(keys@);
        let mut i: usize = 0;
        while i < keys.len()
            invariant
                i <= keys@.len(),
                all == text::views(keys@),
                all.to_set() == start.dom(),
                self.wf(),
                self@.subs == before.subs,
                self@.controllers == before.controllers,
                self@.ttl == before.ttl,
                forall|p: Seq<char>| #[trigger]
                    self.pid_cache@.contains_key(p) <==> start.contains_key(p) && (all.take(
                        i as int,
                    ).contains(p) ==> start[p].counts(now)),
                forall|p: Seq<char>|
                    self.pid_cache@.contains_key(p) ==> #[trigger] self.pid_cache@[p] == start[p],
            decreases keys@.len() - i,
        {
            let ghost pv = all[i as int];
            proof {
                assert(all.to_set().contains(pv));
                text::lemma_take_step(all, i as int);
            }
            let stale = match self.pid_cache.get(keys[i].as_str()) {
                Some(c) => !c.is_valid(now),
                None => false,
            };
            if stale {
                let _ = self.pid_cache.remove(keys[i].as_str());
            }
            i += 1;
        }
        proof {
            assert(all.take(i as int) =~= all);
            let want = Map::new(
                |p: Seq<char>| before.cache.contains_key(p) && before.cache[p].counts(now),
                |p: Seq<char>| before.cache[p],
            );
            assert forall|p: Seq<char>| start.contains_key(p) implies #[trigger] all.contains(
                p,
            ) by {
                assert(all.to_set().contains(p));
            }
            assert(self@.cache =~= want);
        }
    }

    /// The controller of a pid.
    pub fn get_pid_controller(&self, pid: &str) -> (r: Option<&String>)
        ensures
            match r {
                Some(c) => controller(self@, pid@) == Some(c@),
                None => controller(self@, pid@) is None,
            },
    {
        self.pid_controllers.get(pid)
    }

    /// Whether a pid is wanted.
    pub fn is_pid_subscribed(&self, pid: &str) -> (r: bool)
        ensures
            r == self@.subs.contains_key(pid@),
    {
        self.pid_subscriptions.has(pid)
    }

    /// How many subscriptions want a pid.
    pub fn get_pid_subscription_count(&self, pid: &str) -> (r: usize)
        requires
            self.wf(),
        ensures
            r == subscribers(self@, pid@).len(),
    {
        match self.pid_subscriptions.get(pid) {
            Some(v) => {
                proof {
                    v@.unique_seq_to_set();
                }
                v.len()
            },
            None => 0,
        }
    }

    /// How many pids are wanted.
    pub fn unique_pid_count(&self) -> (r: usize)
        ensures
            r == self@.subs.dom().len(),
    {
        let keys = self.pid_subscriptions.keys();
        proof {
            text::views(keys@).unique_seq_to_set();
            assert(self@.subs.dom() =~= self.pid_subscriptions@.dom());
        }
        keys.len()
    }

    /// How many pairs of a pid and a subscription to it there are.
    pub fn total_subscription_count(&self) -> (r: u128)
        requires
            self.wf(),
        ensures
            r == pairs(self@.subs).len(),
    {
        let keys = self.pid_subscriptions.keys();
        let ghost all = text::views(keys@);
        let ghost subs = self@.subs;
        assert(subs.dom() =~= self.pid_subscriptions@.dom());
        let mut n: u128 = 0;
        let mut i: usize = 0;
        proof {
            assert(pairs_of(subs, all.take(0)) =~= Set::empty());
        }
        while i < keys.len()
            invariant
                i <= keys@.len(),
                all == text::views(keys@),
                all.no_duplicates(),
                all.to_set() == subs.dom(),
                subs == self@.subs,
                self.wf(),
                n <= i * 0xFFFF_FFFF_FFFF_FFFF,
                pairs_of(subs, all.take(i as int)).finite(),
                n == pairs_of(subs, all.take(i as int)).len(),
            decreases keys@.len() - i,
        {
            let ghost pv = all[i as int];
            assert(all.to_set().contains(pv));
            assert(pv == keys@[i as int]@);
            match self.pid_subscriptions.get(keys[i].as_str()) {
                Some(v) => {
                    proof {
                        v@.unique_seq_to_set();
                        assert(subs[pv] == v@.to_set());
                        lemma_pairs_step(subs, all, i as int);
                    }
                    n += v.len() as u128;
                },
                None => {
                    assert(false);
                },
            }
            i += 1;
        }
        proof {
            assert(all.take(i as int) =~= all);
            assert forall|q: (Seq<char>, u128)|
                pairs(subs).contains(q) <==> pairs_of(subs, all).contains(q) by {
                if subs.contains_key(q.0) {
                    assert(all.to_set().contains(q.0));
                }
            }
            assert(pairs(subs) =~= pairs_of(subs, all));
        }
        n
    }

    /// All wanted pids, in order.
    pub fn get_all_pids(&self) -> (r: Vec<String>)
        ensures
            strictly_ascending(text::views(r@)),
            text::views(r@).to_set() == self@.subs.dom(),
    {
        let keys = self.pid_subscriptions.keys();
        let r = text::sort_strings(&keys);
        proof {
            let k = text::views(keys@);
            let s = text::views(r@);
            lemma_sorted_keys(k);
            assert(self@.subs.dom() =~= self.pid_subscriptions@.dom());
            assert(s.to_set() =~= k.to_set());
        }
        r
    }

    /// All wanted pids with their controllers, sorted by controller, those
    /// without one first, and by pid within a controller.
    pub fn get_unique_pids(&self) -> (r: Vec<(String, Option<String>)>)
        requires
            self.wf(),
        ensures
            ({
                let v = target_views(r@);
                &&& forall|i: int|
                    0 <= i < v.len() ==> self@.subs.contains_key((#[trigger] v[i]).0) && v[i].1
                        == controller(self@, v[i].0)
                &&& forall|p: Seq<char>|
                    self@.subs.contains_key(p) ==> exists|i: int|
                        0 <= i < v.len() && (#[trigger] v[i]).0 == p
                &&& sorted_by_controller(v)
            }),
    {
        let pids = self.get_all_pids();
        let ghost all = text::views(pids@);
        let ghost me = self@;
        let mut out: Vec<(String, Option<String>)> = Vec::new();
        let mut n: usize = 0;
        while n < pids.len()
            invariant
                n <= pids@.len(),
                me == self@,
                all == text::views(pids@),
                strictly_ascending(all),
                all.to_set() == me.subs.dom(),
                listed(me, target_views(out@), all.take(n as int)),
            decreases pids@.len() - n,
        {
            let ghost settled = target_views(out@);
            let mine = self.controller_copy(pids[n].as_str());
            let at = place_of(&out, &mine);
            let ghost entry = (pids@[n as int]@, text::opt(mine));
            out.insert(at, (pids[n].clone(), mine));
            proof {
                assert(target_views(out@) =~= settled.insert(at as int, entry));
                lemma_listed_step(me, settled, all, n as int, at as int);
            }
            n += 1;
        }
        proof {
            assert(all.take(n as int) =~= all);
            let v = target_views(out@);
            assert forall|p: Seq<char>| me.subs.contains_key(p) implies exists|i: int|
                0 <= i < v.len() && (#[trigger] v[i]).0 == p by {
                assert(all.to_set().contains(p));
            }
            assert forall|i: int| 0 <= i < v.len() implies me.subs.contains_key((#[trigger] v[i]).0)
                && v[i].1 == controller(me, v[i].0) by {
                assert(all.to_set().contains(v[i].0));
            }
        }
        out
    }

    fn controller_copy(&self, pid: &str) -> (r: Option<String>)
        ensures
            text::opt(r) == controller(self@, pid@),
    {
        match self.pid_controllers.get(pid) {
            Some(c) => Some(c.clone()),
            None => None,
        }
    }

    /// Forgets all replies.
    pub fn clear_cache(&mut self)
        requires
            old(self).wf(),
        ensures
            final(self).wf(),
            final(self)@ == (RegistryView { cache: Map::empty(), ..old(self)@ }),
    {
        self.pid_cache = Table::new();
    }

    /// Changes how long replies count where nothing else is said.
    pub fn set_default_ttl(&mut self, ttl_ms: u32)
        requires
            old(self).wf(),
        ensures
            final(self).wf(),
            final(self)@ == (RegistryView { ttl: ttl_ms, ..old(self)@ }),
    {
        self.default_ttl_ms = ttl_ms;
    }
}

// ---- counting ----

/// The pairs of a pid and a subscription to it.
pub open spec fn pairs(subs: Map<Seq<char>, Set<u128>>) -> Set<(Seq<char>, u128)> {
    Set::new(|q: (Seq<char>, u128)| subs.contains_key(q.0) && subs[q.0].contains(q.1))
}

spec fn pairs_of(subs: Map<Seq<char>, Set<u128>>, keys: Seq<Seq<char>>) -> Set<(Seq<char>, u128)> {
    Set::new(|q: (Seq<char>, u128)| keys.contains(q.0) && subs[q.0].contains(q.1))
}

proof fn lemma_pairs_step(subs: Map<Seq<char>, Set<u128>>, keys: Seq<Seq<char>>, i: int)
    requires
        0 <= i < keys.len(),
        keys.no_duplicates(),
        subs[keys[i]].finite(),
        pairs_of(subs, keys.take(i)).finite(),
    ensures
        pairs_of(subs, keys.take(i + 1)).finite(),
        pairs_of(subs, keys.take(i + 1)).len() == pairs_of(subs, keys.take(i)).len()
            + subs[keys[i]].len(),
{
    let k = keys[i];
    let here = keys.take(i);
    let next = keys.take(i + 1);
    let f = |id: u128| (k, id);
    let fresh = subs[k].map(f);
    text::lemma_take_step(keys, i);
    assert forall|q: (Seq<char>, u128)| fresh.contains(q) <==> q.0 == k && subs[k].contains(
        q.1,
    ) by {
        if q.0 == k && subs[k].contains(q.1) {
            assert(f(q.1) == q);
        }
    }
    vstd::set_lib::lemma_map_size(subs[k], fresh, f);
    subs[k].lemma_map_finite(f);
    let a = pairs_of(subs, here);
    assert(a.disjoint(fresh));
    vstd::set_lib::lemma_set_disjoint_lens(a, fresh);
    assert(pairs_of(subs, next) =~= a + fresh);
}

// ---- order ----

/// Whether each text stands before the next ones.
pub open spec fn strictly_ascending(v: Seq<Seq<char>>) -> bool {
    forall|i: int, j: int| 0 <= i < j < v.len() ==> text::lex_less(#[trigger] v[i], #[trigger] v[j])
}

proof fn lemma_sorted_keys(k: Seq<Seq<char>>)
    requires
        k.no_duplicates(),
    ensures
        strictly_ascending(text::sorted_texts(k)),
        text::sorted_texts(k).to_set() =~= k.to_set(),
{
    broadcast use vstd::seq_lib::group_to_multiset_ensures;

    let s = text::sorted_texts(k);
    text::sorted_texts_are_sorted(k);
    k.lemma_multiset_has_no_duplicates();
    s.lemma_multiset_has_no_duplicates_conv();
    assert forall|i: int, j: int| 0 <= i < j < s.len() implies text::lex_less(
        #[trigger] s[i],
        #[trigger] s[j],
    ) by {
        text::lemma_lex_total(s[i], s[j]);
        assert(s[i] != s[j]);
    }
    assert forall|x: Seq<char>| s.contains(x) <==> k.contains(x) by {
        assert(s.contains(x) <==> s.to_multiset().count(x) > 0);
        assert(k.contains(x) <==> k.to_multiset().count(x) > 0);
    }
}

/// Pids with their controllers, by view.
pub open spec fn target_views(v: Seq<(String, Option<String>)>) -> Seq<
    (Seq<char>, Option<Seq<char>>),
> {
    Seq::new(v.len(), |i: int| (v[i].0@, text::opt(v[i].1)))
}

/// Whether a controller stands before another; none stands before all.
pub open spec fn target_less(a: Option<Seq<char>>, b: Option<Seq<char>>) -> bool {
    match (a, b) {
        (Some(x), Some(y)) => text::lex_less(x, y),
        (None, Some(_)) => true,
        _ => false,
    }
}

/// Whether an entry stands before another: by controller, then by pid.
pub open spec fn entry_less(
    a: (Seq<char>, Option<Seq<char>>),
    b: (Seq<char>, Option<Seq<char>>),
) -> bool {
    target_less(a.1, b.1) || (a.1 == b.1 && text::lex_less(a.0, b.0))
}

/// Whether pids are sorted by their controllers, and by pid within one.
pub open spec fn sorted_by_controller(v: Seq<(Seq<char>, Option<Seq<char>>)>) -> bool {
    forall|i: int, k: int| 0 <= i < k < v.len() ==> entry_less(#[trigger] v[i], #[trigger] v[k])
}

/// Whether `v` holds the pids of `done` with their controllers, sorted.
spec fn listed(
    me: RegistryView,
    v: Seq<(Seq<char>, Option<Seq<char>>)>,
    done: Seq<Seq<char>>,
) -> bool {
    &&& forall|i: int|
        0 <= i < v.len() ==> done.contains((#[trigger] v[i]).0) && v[i].1 == controller(me, v[i].0)
    &&& forall|p: Seq<char>| #[trigger]
        done.contains(p) ==> exists|i: int| 0 <= i < v.len() && (#[trigger] v[i]).0 == p
    &&& sorted_by_controller(v)
}

proof fn lemma_target_order(a: Option<Seq<char>>, b: Option<Seq<char>>, c: Option<Seq<char>>)
    ensures
        a == b || target_less(a, b) || target_less(b, a),
        target_less(a, b) && target_less(b, c) ==> target_less(a, c),
{
    if let (Some(x), Some(y)) = (a, b) {
        text::lemma_lex_total(x, y);
        if let Some(z) = c {
            if text::lex_less(x, y) && text::lex_less(y, z) {
                text::lemma_lex_trans(x, y, z);
            }
        }
    }
}

/// The next pid, put in front of the first entry of a later controller.
proof fn lemma_listed_step(
    me: RegistryView,
    v: Seq<(Seq<char>, Option<Seq<char>>)>,
    all: Seq<Seq<char>>,
    n: int,
    at: int,
)
    requires
        0 <= n < all.len(),
        strictly_ascending(all),
        listed(me, v, all.take(n)),
        0 <= at <= v.len(),
        forall|j: int|
            0 <= j < at ==> !target_less(controller(me, all[n]), (#[trigger] v[j]).1),
        at < v.len() ==> target_less(controller(me, all[n]), v[at].1),
    ensures
        listed(me, v.insert(at, (all[n], controller(me, all[n]))), all.take(n + 1)),
{
    let x = (all[n], controller(me, all[n]));
    let w = v.insert(at, x);
    text::lemma_take_step(all, n);
    assert forall|j: int| 0 <= j < at implies entry_less(#[trigger] v[j], x) by {
        lemma_target_order(v[j].1, x.1, x.1);
        let k = choose|k: int| 0 <= k < n && all.take(n)[k] == v[j].0;
        assert(all.take(n).contains(v[j].0));
        assert(all[k] == v[j].0);
    }
    assert forall|j: int| at <= j < v.len() implies entry_less(x, #[trigger] v[j]) by {
        if j > at {
            assert(entry_less(v[at], v[j]));
            lemma_target_order(x.1, v[at].1, v[j].1);
        }
    }
    assert forall|i: int, k: int| 0 <= i < k < w.len() implies entry_less(
        #[trigger] w[i],
        #[trigger] w[k],
    ) by {
        let a = if i < at {
            i
        } else {
            i - 1
        };
        let b = if k < at {
            k
        } else {
            k - 1
        };
        if i == at {
            assert(w[k] == v[b]);
        } else if k == at {
            assert(w[i] == v[a]);
        } else {
            assert(w[i] == v[a] && w[k] == v[b]);
        }
    }
    assert forall|i: int| 0 <= i < w.len() implies all.take(n + 1).contains((#[trigger] w[i]).0)
        && w[i].1 == controller(me, w[i].0) by {
        if i < at {
            assert(w[i] == v[i]);
        } else if i > at {
            assert(w[i] == v[i - 1]);
        }
    }
    assert forall|p: Seq<char>| #[trigger] all.take(n + 1).contains(p) implies exists|i: int|
        0 <= i < w.len() && (#[trigger] w[i]).0 == p by {
        if p == all[n] {
            assert(w[at].0 == p);
        } else {
            let i = choose|i: int| 0 <= i < v.len() && (#[trigger] v[i]).0 == p;
            if i < at {
                assert(w[i].0 == p);
            } else {
                assert(w[i + 1].0 == p);
            }
        }
    }
}

/// Whether a controller stands before another; none stands before all.
fn stands_before(a: &Option<String>, b: &Option<String>) -> (r: bool)
    ensures
        r == target_less(text::opt(*a), text::opt(*b)),
{
    match (a, b) {
        (Some(x), Some(y)) => text::text_less(x.as_str(), y.as_str()),
        (None, Some(_)) => true,
        _ => false,
    }
}

/// Where the first entry of a later controller stands, or the end.
fn place_of(v: &Vec<(String, Option<String>)>, c: &Option<String>) -> (r: usize)
    ensures
        r <= v@.len(),
        forall|j: int|
            0 <= j < r ==> !target_less(text::opt(*c), (#[trigger] target_views(v@)[j]).1),
        r < v@.len() ==> target_less(text::opt(*c), target_views(v@)[r as int].1),
{
    let mut i: usize = 0;
    while i < v.len() && !stands_before(c, &v[i].1)
        invariant
            i <= v@.len(),
            forall|j: int|
                0 <= j < i ==> !target_less(text::opt(*c), (#[trigger] target_views(v@)[j]).1),
        decreases v@.len() - i,
    {
        i += 1;
    }
    i
}

// ---- laws ----

/// A pid that several want is there once, for all of them: wanting it again
/// changes nothing.
pub proof fn wanting_twice_is_wanting_once(r: RegistryView, pid: Seq<char>, id: u128)
    ensures
        registered(registered(r, pid, id, None), pid, id, None) == registered(r, pid, id, None),
{
    let a = registered(r, pid, id, None);
    let b = registered(a, pid, id, None);
    assert(subscribers(a, pid).insert(id) =~= subscribers(a, pid));
    assert(b.subs =~= a.subs);
}

/// A subscription that wants a pid and then does not leaves the wishes of the
/// others as they were.
pub proof fn others_are_untouched(r: RegistryView, pid: Seq<char>, id: u128, other: u128, p: Seq<
    char,
>)
    requires
        other != id,
    ensures
        subscribers(registered(r, pid, id, None), p).contains(other) == subscribers(r, p).contains(
            other,
        ),
        subscribers(unregistered(r, pid, id), p).contains(other) == subscribers(r, p).contains(
            other,
        ),
        subscribers(without_subscription(r, id), p).contains(other) == subscribers(r, p).contains(
            other,
        ),
{
    let u = unregistered(r, pid, id);
    if r.subs.contains_key(p) && r.subs[p].contains(other) {
        assert(r.subs[p].remove(id).contains(other));
    }
}

/// Sorted by controller, the pids of one controller stand together, in order.
pub proof fn controllers_stand_together(
    v: Seq<(Seq<char>, Option<Seq<char>>)>,
    i: int,
    j: int,
    k: int,
)
    requires
        sorted_by_controller(v),
        0 <= i < j < k < v.len(),
        v[i].1 == v[k].1,
    ensures
        v[j].1 == v[i].1,
        text::lex_less(v[i].0, v[j].0),
        text::lex_less(v[j].0, v[k].0),
{
    assert(entry_less(v[i], v[j]) && entry_less(v[j], v[k]));
    if let (Some(x), Some(y)) = (v[i].1, v[j].1) {
        text::lemma_lex_total(x, y);
    }
}

/// A subscription that has ended wants nothing.
pub proof fn an_ended_subscription_wants_nothing(r: RegistryView, id: u128, p: Seq<char>)
    ensures
        !subscribers(without_subscription(r, id), p).contains(id),
{
}

/// Every operation keeps a pid listed exactly as long as someone wants it.
pub proof fn a_pid_is_listed_while_wanted(
    r: RegistryView,
    pid: Seq<char>,
    id: u128,
    target: Option<Seq<char>>,
)
    requires
        consistent(r),
    ensures
        consistent(registered(r, pid, id, target)),
        consistent(unregistered(r, pid, id)),
        consistent(without_subscription(r, id)),
{
    let a = registered(r, pid, id, target);
    assert forall|p: Seq<char>| a.subs.contains_key(p) implies a.subs[p].finite() && !(
    #[trigger] a.subs[p] =~= Set::empty()) by {
        if p == pid {
            assert(a.subs[p].contains(id));
        } else {
            assert(r.subs[p] == a.subs[p]);
        }
    }
    let u = unregistered(r, pid, id);
    assert forall|p: Seq<char>| u.subs.contains_key(p) implies u.subs[p].finite() && !(
    #[trigger] u.subs[p] =~= Set::empty()) by {
        assert(r.subs.contains_key(p));
        assert(!(r.subs[p] =~= Set::empty()));
    }
    let w = without_subscription(r, id);
    assert forall|p: Seq<char>| w.subs.contains_key(p) implies w.subs[p].finite() && !(
    #[trigger] w.subs[p] =~= Set::empty()) by {
        assert(r.subs.contains_key(p));
        assert(!(r.subs[p] =~= Set::empty()));
    }
}

/// A reply counts for as many thousandths of a second as it was given, from the
/// moment it came; a clock that reads earlier does not end it.
pub proof fn a_reply_counts_for_its_time(c: CachedPIDResponse, now: u64)
    ensures
        c.counts(now) <==> now < c.timestamp + 1000 * c.ttl_ms,
        c.ttl_ms > 0 && now <= c.timestamp ==> c.counts(now),
        c.ttl_ms == 0 && now >= c.timestamp ==> !c.counts(now),
{
}

/// A subscription that wants a pid is among those that want it; the controller
/// that it names is the pid's from then on, and naming none changes none. Other
/// pids are as they were.
pub proof fn a_wanted_pid_is_wanted(
    r: RegistryView,
    pid: Seq<char>,
    id: u128,
    target: Option<Seq<char>>,
    other: Seq<char>,
)
    requires
        other != pid,
    ensures
        ({
            let n = registered(r, pid, id, target);
            &&& subscribers(n, pid).contains(id)
            &&& target is Some ==> controller(n, pid) == target
            &&& target is None ==> controller(n, pid) == controller(r, pid)
            &&& subscribers(n, other) == subscribers(r, other)
            &&& controller(n, other) == controller(r, other)
            &&& n.cache == r.cache && n.ttl == r.ttl
        }),
{
}

/// With the last subscription that wants a pid its reply and its controller go;
/// while another wants it, both stay. Other pids are as they were.
pub proof fn the_last_one_out_clears_up(
    r: RegistryView,
    pid: Seq<char>,
    id: u128,
    another: u128,
    other: Seq<char>,
)
    requires
        other != pid,
        another != id,
        r.subs.contains_key(pid),
    ensures
        ({
            let n = unregistered(r, pid, id);
            let m = without_subscription(r, id);
            &&& !subscribers(n, pid).contains(id)
            &&& r.subs[pid] == set![id] ==> !n.subs.contains_key(pid) && !n.cache.contains_key(pid)
                && controller(n, pid) is None && !m.subs.contains_key(pid)
                && !m.cache.contains_key(pid) && controller(m, pid) is None
            &&& r.subs[pid].contains(another) ==> n.subs.contains_key(pid) && n.cache == r.cache
                && n.controllers == r.controllers
            &&& r.subs[pid].contains(another) ==> m.subs.contains_key(pid) && (m.cache.contains_key(
                pid,
            ) <==> r.cache.contains_key(pid)) && controller(m, pid) == controller(r, pid)
            &&& r.subs[pid].contains(another) && r.cache.contains_key(pid) ==> m.cache[pid]
                == r.cache[pid]
            &&& subscribers(n, other) == subscribers(r, other)
            &&& controller(n, other) == controller(r, other)
            &&& n.cache.contains_key(other) <==> r.cache.contains_key(other)
        }),
{
    let left = r.subs[pid].remove(id);
    if r.subs[pid] == set![id] {
        assert(left =~= Set::<u128>::empty());
    }
    if r.subs[pid].contains(another) {
        assert(left.contains(another));
    }
}

/// Entries are in one order: pids without a controller first, then by
/// controller, then by pid; of two different entries exactly one stands before
/// the other.
pub proof fn entries_have_one_order(
    a: (Seq<char>, Option<Seq<char>>),
    b: (Seq<char>, Option<Seq<char>>),
)
    ensures
        a == b || entry_less(a, b) || entry_less(b, a),
        !(entry_less(a, b) && entry_less(b, a)),
        a.1 is None && b.1 is Some ==> entry_less(a, b),
        a.1 == b.1 ==> (entry_less(a, b) <==> text::lex_less(a.0, b.0)),
        a.1 is Some && b.1 is Some && a.1 != b.1 ==> (entry_less(a, b) <==> text::lex_less(
            a.1->0,
            b.1->0,
        )),
{
    text::lemma_lex_total(a.0, b.0);
    if a.1 is Some && b.1 is Some {
        text::lemma_lex_total(a.1->0, b.1->0);
    }
}

/// A pid and a subscription are counted together exactly where that
/// subscription wants that pid.
pub proof fn wishes_are_counted_once(r: RegistryView, pid: Seq<char>, id: u128)
    ensures
        pairs(r.subs).contains((pid, id)) <==> subscribers(r, pid).contains(id),
        pairs(registered(r, pid, id, None).subs) == pairs(r.subs).insert((pid, id)),
{
    let n = registered(r, pid, id, None);
    assert(pairs(n.subs) =~= pairs(r.subs).insert((pid, id)));
}

} // verus!
