//! Pools of named resources that jobs take and give back.
//!
//! The pool is plain state: `get` either takes everything that is asked
//! for, or takes nothing and says so. Whoever shares a pool between tasks
//! wraps it in a lock and waits for a release before trying again.
use crate::git::TempWorktree;
use crate::text::{decimal, push_decimal, texts};
use vstd::string::StringExecFns;
use vstd::multiset::Multiset;
use vstd::prelude::*;

verus! {

/// Identifies a kind of resource in a pool.
#[derive(Debug, Hash)]
pub enum ResourceKey {
    /// The checkouts.
    Worktree,
    /// A resource that the user declared, by name.
    UserToken(String),
}

/// A `ResourceKey` as a mathematical value.
pub enum KeyView {
    Worktree,
    UserToken(Seq<char>),
}

impl View for ResourceKey {
    type V = KeyView;

    open spec fn view(&self) -> KeyView {
        match self {
            ResourceKey::Worktree => KeyView::Worktree,
            ResourceKey::UserToken(name) => KeyView::UserToken(name@),
        }
    }
}

impl ResourceKey {
    /// Whether both keys name the same kind of resource.
    pub fn same(&self, other: &ResourceKey) -> (b: bool)
        ensures
            b == (self@ == other@),
    {
        match (self, other) {
            (ResourceKey::Worktree, ResourceKey::Worktree) => true,
            (ResourceKey::UserToken(a), ResourceKey::UserToken(b)) => *a == *b,
            _ => false,
        }
    }
}

impl Clone for ResourceKey {
    fn clone(&self) -> (k: ResourceKey)
        ensures
            k@ == self@,
    {
        match self {
            ResourceKey::Worktree => ResourceKey::Worktree,
            ResourceKey::UserToken(name) => ResourceKey::UserToken(name.clone()),
        }
    }
}

/// A resource that can be put into a pool.
#[derive(Debug)]
pub enum Resource {
    Worktree(TempWorktree),
    UserToken(String),
}

impl Resource {
    /// The checkout that this resource is.
    pub fn as_worktree(&self) -> (w: &TempWorktree)
        requires
            self is Worktree,
        ensures
            *w == self->Worktree_0,
    {
        match self {
            Resource::Worktree(w) => w,
            _ => vstd::pervasive::unreached(),
        }
    }

    /// Whether this resource may stand in a pool under `key`: checkouts
    /// under `Worktree`, token strings under a user's key.
    pub open spec fn fits(&self, key: KeyView) -> bool {
        match key {
            KeyView::Worktree => self is Worktree,
            KeyView::UserToken(_) => self is UserToken,
        }
    }

    /// Whether this resource may stand in a pool under `key`.
    pub fn fits_key(&self, key: &ResourceKey) -> (b: bool)
        ensures
            b == self.fits(key@),
    {
        match (key, self) {
            (ResourceKey::Worktree, Resource::Worktree(_)) => true,
            (ResourceKey::UserToken(_), Resource::UserToken(_)) => true,
            _ => false,
        }
    }
}

/// A finite map from resource keys to values, in insertion order.
pub struct ResourceMap<V> {
    keys: Vec<ResourceKey>,
    vals: Vec<V>,
}

impl<V> ResourceMap<V> {
    /// The keys, in insertion order.
    pub closed spec fn spec_keys(&self) -> Seq<KeyView> {
        self.keys@.map_values(|k: ResourceKey| k@)
    }

    /// The values, each at the position of its key.
    pub closed spec fn spec_vals(&self) -> Seq<V> {
        self.vals@
    }

    /// The invariant of the map: one value for each key, and no key twice.
    pub open spec fn wf(&self) -> bool {
        &&& self.spec_keys().len() == self.spec_vals().len()
        &&& self.spec_keys().no_duplicates()
    }

    /// The map as a mathematical map.
    pub open spec fn view(&self) -> Map<KeyView, V> {
        Map::new(
            |k: KeyView| self.spec_keys().contains(k),
            |k: KeyView| self.spec_vals()[self.spec_keys().index_of(k)],
        )
    }

    /// The value at position `i` is the value of the key at position `i`.
    pub proof fn lemma_entry(&self, i: int)
        requires
            self.wf(),
            0 <= i < self.spec_keys().len(),
        ensures
            self@.dom().contains(self.spec_keys()[i]),
            self@[self.spec_keys()[i]] == self.spec_vals()[i],
    {
        let k = self.spec_keys()[i];
        let j = self.spec_keys().index_of(k);
        assert(self.spec_keys()[j] == k);
    }

    /// The map without entries.
    pub fn new() -> (m: Self)
        ensures
            m.wf(),
            m.spec_keys() == Seq::<KeyView>::empty(),
            m@ == Map::<KeyView, V>::empty(),
    {
        let m = ResourceMap { keys: Vec::new(), vals: Vec::new() };
        proof {
            assert(m.spec_keys() =~= Seq::<KeyView>::empty());
            assert(m@ =~= Map::<KeyView, V>::empty());
        }
        m
    }

    /// The number of entries.
    pub fn len(&self) -> (n: usize)
        requires
            self.wf(),
        ensures
            n == self.spec_keys().len(),
    {
        self.keys.len()
    }

    /// The position of `key`, if the map has it.
    pub fn find(&self, key: &ResourceKey) -> (r: Option<usize>)
        requires
            self.wf(),
        ensures
            match r {
                Some(i) => i < self.spec_keys().len() && self.spec_keys()[i as int] == key@,
                None => !self@.dom().contains(key@),
            },
    {
        let mut i: usize = 0;
        while i < self.keys.len()
            invariant
                i <= self.keys.len(),
                forall|j: int| 0 <= j < i ==> self.spec_keys()[j] != key@,
            decreases self.keys.len() - i,
        {
            if self.keys[i].same(key) {
                return Some(i);
            }
            i += 1;
        }
        None
    }

    /// Whether the map has `key`.
    pub fn contains_key(&self, key: &ResourceKey) -> (b: bool)
        requires
            self.wf(),
        ensures
            b == self@.dom().contains(key@),
    {
        match self.find(key) {
            Some(_) => true,
            None => false,
        }
    }

    /// The value of `key`, if the map has it.
    pub fn get(&self, key: &ResourceKey) -> (r: Option<&V>)
        requires
            self.wf(),
        ensures
            match r {
                Some(v) => self@.dom().contains(key@) && *v == self@[key@],
                None => !self@.dom().contains(key@),
            },
    {
        match self.find(key) {
            Some(i) => {
                proof {
                    self.lemma_entry(i as int);
                }
                Some(&self.vals[i])
            },
            None => None,
        }
    }

    /// The key at position `i`.
    pub fn key_at(&self, i: usize) -> (k: &ResourceKey)
        requires
            self.wf(),
            i < self.spec_keys().len(),
        ensures
            k@ == self.spec_keys()[i as int],
    {
        &self.keys[i]
    }

    /// The value at position `i`.
    pub fn value_at(&self, i: usize) -> (v: &V)
        requires
            self.wf(),
            i < self.spec_keys().len(),
        ensures
            *v == self.spec_vals()[i as int],
            *v == self@[self.spec_keys()[i as int]],
    {
        proof {
            self.lemma_entry(i as int);
        }
        &self.vals[i]
    }

    /// Puts `val` in the place of the value at position `i` and returns
    /// what stood there.
    pub fn replace_at(&mut self, i: usize, val: V) -> (prev: V)
        requires
            old(self).wf(),
            i < old(self).spec_keys().len(),
        ensures
            final(self).wf(),
            final(self).spec_keys() == old(self).spec_keys(),
            final(self).spec_vals() == old(self).spec_vals().update(i as int, val),
            prev == old(self).spec_vals()[i as int],
            final(self)@ == old(self)@.insert(old(self).spec_keys()[i as int], val),
    {
        self.vals.push(val);
        let prev = self.vals.swap_remove(i);
        proof {
            assert(self.spec_vals() =~= old(self).spec_vals().update(i as int, val));
            assert(self@ =~= old(self)@.insert(old(self).spec_keys()[i as int], val)) by {
                assert forall|k: KeyView| self@.dom().contains(k) implies #[trigger] self@[k] == old(
                    self,
                )@.insert(old(self).spec_keys()[i as int], val)[k] by {
                    let j = self.spec_keys().index_of(k);
                    assert(self.spec_keys()[j] == k);
                }
            }
        }
        prev
    }

    /// Gives `key` the value `val`. A new key goes after the others; a key
    /// that the map had keeps its position, and its former value is
    /// returned.
    pub fn insert(&mut self, key: ResourceKey, val: V) -> (prev: Option<V>)
        requires
            old(self).wf(),
        ensures
            final(self).wf(),
            final(self)@ == old(self)@.insert(key@, val),
            match prev {
                Some(v) => {
                    &&& old(self)@.dom().contains(key@)
                    &&& v == old(self)@[key@]
                    &&& final(self).spec_keys() == old(self).spec_keys()
                },
                None => {
                    &&& !old(self)@.dom().contains(key@)
                    &&& final(self).spec_keys() == old(self).spec_keys().push(key@)
                    &&& final(self).spec_vals() == old(self).spec_vals().push(val)
                },
            },
    {
        match self.find(&key) {
            Some(i) => {
                proof {
                    self.lemma_entry(i as int);
                }
                let prev = self.replace_at(i, val);
                Some(prev)
            },
            None => {
                self.keys.push(key);
                self.vals.push(val);
                proof {
                    let ks = old(self).spec_keys();
                    assert(self.spec_keys() =~= ks.push(key@));
                    assert(self.spec_keys().no_duplicates()) by {
                        assert forall|a: int, b: int|
                            0 <= a < self.spec_keys().len() && 0 <= b < self.spec_keys().len() && a
                                != b implies self.spec_keys()[a] != self.spec_keys()[b] by {
                            if a < ks.len() {
                                assert(ks.contains(self.spec_keys()[a]));
                            }
                            if b < ks.len() {
                                assert(ks.contains(self.spec_keys()[b]));
                            }
                        }
                    }
                    assert(self@ =~= old(self)@.insert(key@, val)) by {
                        assert forall|k: KeyView| self@.dom().contains(k) <==> old(self)@.insert(
                            key@,
                            val,
                        ).dom().contains(k) by {
                            if ks.contains(k) {
                                let j = ks.index_of(k);
                                assert(self.spec_keys()[j] == k);
                            }
                            if k == key@ {
                                assert(self.spec_keys()[ks.len() as int] == k);
                            }
                            if self.spec_keys().contains(k) && k != key@ {
                                let j = self.spec_keys().index_of(k);
                                assert(ks[j] == k);
                            }
                        }
                        assert forall|k: KeyView| self@.dom().contains(k) implies #[trigger] self@[k]
                            == old(self)@.insert(key@, val)[k] by {
                            let j = self.spec_keys().index_of(k);
                            assert(self.spec_keys()[j] == k);
                            if k != key@ {
                                assert(ks[j] == k);
                                let j0 = ks.index_of(k);
                                assert(ks[j0] == k);
                                assert(self.spec_keys()[j0] == k);
                            }
                        }
                    }
                }
                None
            },
        }
    }

    /// Takes the last entry out of the map.
    pub fn pop(&mut self) -> (r: Option<(ResourceKey, V)>)
        requires
            old(self).wf(),
        ensures
            final(self).wf(),
            match r {
                Some((k, v)) => {
                    &&& old(self).spec_keys().len() > 0
                    &&& k@ == old(self).spec_keys().last()
                    &&& v == old(self).spec_vals().last()
                    &&& final(self).spec_keys() == old(self).spec_keys().drop_last()
                    &&& final(self).spec_vals() == old(self).spec_vals().drop_last()
                },
                None => old(self).spec_keys().len() == 0 && final(self).spec_keys() == old(
                    self,
                ).spec_keys(),
            },
    {
        let k = self.keys.pop();
        let v = self.vals.pop();
        proof {
            if old(self).spec_keys().len() > 0 {
                assert(self.spec_keys() =~= old(self).spec_keys().drop_last());
            } else {
                assert(self.spec_keys() =~= old(self).spec_keys());
            }
        }
        match (k, v) {
            (Some(k), Some(v)) => Some((k, v)),
            _ => None,
        }
    }
}

/// What is available in a pool, or held by a lease: for each key the
/// resources, in the order in which they came in.
pub type Stock = Map<KeyView, Seq<Resource>>;

/// The stock that a map of vectors stands for.
pub open spec fn stock_of(m: Map<KeyView, Vec<Resource>>) -> Stock {
    m.map_values(|v: Vec<Resource>| v@)
}

/// Every resource of the stock fits the key that it stands under.
pub open spec fn well_kinded(stock: Stock) -> bool {
    forall|k: KeyView, i: int|
        stock.dom().contains(k) && 0 <= i < stock[k].len() ==> (#[trigger] stock[k][i]).fits(k)
}

/// Every key that is asked for is a key of the pool.
pub open spec fn known_keys<V>(pool: Stock, wants: Map<KeyView, V>) -> bool {
    forall|k: KeyView| wants.dom().contains(k) ==> pool.dom().contains(k)
}

/// The pool holds, for every key asked for, at least the count asked for.
pub open spec fn can_grant(pool: Stock, wants: Map<KeyView, usize>) -> bool {
    forall|k: KeyView|
        wants.dom().contains(k) ==> pool.dom().contains(k) && wants[k] <= pool[k].len()
}

/// What a grant hands out: for every key asked for, the last resources of
/// the pool, as many as were asked for, in their order.
pub open spec fn granted(pool: Stock, wants: Map<KeyView, usize>) -> Stock {
    Map::new(
        |k: KeyView| wants.dom().contains(k),
        |k: KeyView| pool[k].skip(pool[k].len() - wants[k]),
    )
}

/// What a grant leaves in the pool.
pub open spec fn after_grant(pool: Stock, wants: Map<KeyView, usize>) -> Stock {
    Map::new(
        |k: KeyView| pool.dom().contains(k),
        |k: KeyView|
            if wants.dom().contains(k) {
                pool[k].take(pool[k].len() - wants[k])
            } else {
                pool[k]
            },
    )
}

/// The pool after `lease` came back: its resources stand behind those
/// that were available.
pub open spec fn after_return(pool: Stock, lease: Stock) -> Stock {
    Map::new(
        |k: KeyView| pool.dom().contains(k),
        |k: KeyView|
            if lease.dom().contains(k) {
                pool[k] + lease[k]
            } else {
                pool[k]
            },
    )
}

/// The pool after one resource was added under `key`.
pub open spec fn add_one(pool: Stock, key: KeyView, resource: Resource) -> Stock {
    pool.insert(
        key,
        if pool.dom().contains(key) {
            pool[key].push(resource)
        } else {
            seq![resource]
        },
    )
}

/// The pool after the resources of `entries` were added, first to last.
pub open spec fn after_add(pool: Stock, entries: Seq<(ResourceKey, Resource)>) -> Stock
    decreases entries.len(),
{
    if entries.len() == 0 {
        pool
    } else {
        add_one(after_add(pool, entries.drop_last()), entries.last().0@, entries.last().1)
    }
}

/// Every resource of `entries` fits the key that it comes with.
pub open spec fn entries_fit(entries: Seq<(ResourceKey, Resource)>) -> bool {
    forall|i: int| 0 <= i < entries.len() ==> (#[trigger] entries[i]).1.fits(entries[i].0@)
}

/// Whether every resource of `m` fits the key that it stands under.
pub fn stock_fits(m: &ResourceMap<Vec<Resource>>) -> (b: bool)
    requires
        m.wf(),
    ensures
        b == well_kinded(stock_of(m@)),
{
    let mut i: usize = 0;
    while i < m.len()
        invariant
            m.wf(),
            i <= m.spec_keys().len(),
            forall|j: int, q: int|
                0 <= j < i && 0 <= q < m.spec_vals()[j]@.len() ==> (#[trigger] m.spec_vals()[j]@[q]).fits(
                    m.spec_keys()[j],
                ),
        decreases m.spec_keys().len() - i,
    {
        let key = m.key_at(i);
        let row = m.value_at(i);
        let mut q: usize = 0;
        while q < row.len()
            invariant
                m.wf(),
                i < m.spec_keys().len(),
                key@ == m.spec_keys()[i as int],
                *row == m.spec_vals()[i as int],
                q <= row.len(),
                forall|x: int| 0 <= x < q ==> (#[trigger] row@[x]).fits(key@),
            decreases row.len() - q,
        {
            if !row[q].fits_key(key) {
                proof {
                    m.lemma_entry(i as int);
                    let k = m.spec_keys()[i as int];
                    assert(stock_of(m@)[k][q as int] == row@[q as int]);
                }
                return false;
            }
            q += 1;
        }
        i += 1;
    }
    proof {
        assert forall|k: KeyView, x: int|
            stock_of(m@).dom().contains(k) && 0 <= x < stock_of(m@)[k].len() implies (
        #[trigger] stock_of(m@)[k][x]).fits(k) by {
            let j = m.spec_keys().index_of(k);
            assert(m.spec_keys()[j] == k);
            m.lemma_entry(j);
        }
    }
    true
}

/// Whether every resource of `entries` fits the key that it comes with.
pub fn entries_fit_keys(entries: &Vec<(ResourceKey, Resource)>) -> (b: bool)
    ensures
        b == entries_fit(entries@),
{
    let mut i: usize = 0;
    while i < entries.len()
        invariant
            i <= entries.len(),
            forall|j: int| 0 <= j < i ==> (#[trigger] entries@[j]).1.fits(entries@[j].0@),
        decreases entries.len() - i,
    {
        if !entries[i].1.fits_key(&entries[i].0) {
            return false;
        }
        i += 1;
    }
    true
}

/// The elements of `v` in reverse order.
pub fn reversed<T>(v: Vec<T>) -> (r: Vec<T>)
    ensures
        r@ == v@.reverse(),
{
    let mut v = v;
    let ghost all = v@;
    let mut r: Vec<T> = Vec::new();
    while v.len() > 0
        invariant
            v@.len() + r@.len() == all.len(),
            v@ == all.take(v@.len() as int),
            forall|i: int| 0 <= i < r@.len() ==> r@[i] == all[all.len() - 1 - i],
        decreases v.len(),
    {
        let x = v.pop();
        match x {
            Some(x) => r.push(x),
            None => {},
        }
    }
    proof {
        assert(r@ =~= all.reverse());
    }
    r
}

/// Pools of resources, one pool for each key.
pub struct Pools {
    avail: ResourceMap<Vec<Resource>>,
}

impl View for Pools {
    type V = Stock;

    /// What is available, key by key.
    closed spec fn view(&self) -> Stock {
        stock_of(self.avail@)
    }
}

/// Replacing a vector in a map of vectors replaces its row in the stock.
proof fn lemma_stock_insert(m: Map<KeyView, Vec<Resource>>, k: KeyView, v: Vec<Resource>)
    ensures
        stock_of(m.insert(k, v)) == stock_of(m).insert(k, v@),
{
    assert(stock_of(m.insert(k, v)) =~= stock_of(m).insert(k, v@));
}

impl Pools {
    /// The invariant of the pools: no key twice, and under each key only
    /// resources that fit it.
    pub closed spec fn wf(&self) -> bool {
        &&& self.avail.wf()
        &&& well_kinded(self@)
    }

    /// Pools that hold `initial`: for each key its resources.
    pub fn new(initial: ResourceMap<Vec<Resource>>) -> (pools: Pools)
        requires
            initial.wf(),
            well_kinded(stock_of(initial@)),
        ensures
            pools.wf(),
            pools@ == stock_of(initial@),
    {
        Pools { avail: initial }
    }

    /// Whether `key` is a key of the pools.
    pub fn has_key(&self, key: &ResourceKey) -> (b: bool)
        requires
            self.wf(),
        ensures
            b == self@.dom().contains(key@),
    {
        self.avail.contains_key(key)
    }

    /// Whether every key asked for is a key of the pools.
    pub fn knows_keys(&self, wants: &ResourceMap<usize>) -> (b: bool)
        requires
            self.wf(),
            wants.wf(),
        ensures
            b == known_keys(self@, wants@),
    {
        let mut i: usize = 0;
        while i < wants.len()
            invariant
                self.wf(),
                wants.wf(),
                i <= wants.spec_keys().len(),
                forall|j: int| 0 <= j < i ==> self@.dom().contains(#[trigger] wants.spec_keys()[j]),
            decreases wants.spec_keys().len() - i,
        {
            if !self.avail.contains_key(wants.key_at(i)) {
                proof {
                    let k = wants.spec_keys()[i as int];
                    wants.lemma_entry(i as int);
                    assert(wants@.dom().contains(k));
                    assert(!self.avail@.dom().contains(k));
                    assert(!self@.dom().contains(k));
                }
                return false;
            }
            i += 1;
        }
        proof {
            assert forall|k: KeyView| wants@.dom().contains(k) implies self@.dom().contains(k) by {
                let j = wants.spec_keys().index_of(k);
                assert(wants.spec_keys()[j] == k);
            }
        }
        true
    }

    /// Whether the pools hold everything that `wants` asks for.
    pub fn can_satisfy(&self, wants: &ResourceMap<usize>) -> (b: bool)
        requires
            self.wf(),
            wants.wf(),
        ensures
            b == can_grant(self@, wants@),
    {
        let mut i: usize = 0;
        while i < wants.len()
            invariant
                self.wf(),
                wants.wf(),
                i <= wants.spec_keys().len(),
                forall|j: int|
                    0 <= j < i ==> self@.dom().contains(#[trigger] wants.spec_keys()[j])
                        && wants.spec_vals()[j] <= self@[wants.spec_keys()[j]].len(),
            decreases wants.spec_keys().len() - i,
        {
            let want = *wants.value_at(i);
            let enough = match self.avail.get(wants.key_at(i)) {
                Some(row) => row.len() >= want,
                None => false,
            };
            if !enough {
                proof {
                    wants.lemma_entry(i as int);
                }
                return false;
            }
            i += 1;
        }
        proof {
            assert forall|k: KeyView| wants@.dom().contains(k) implies self@.dom().contains(k)
                && wants@[k] <= self@[k].len() by {
                let j = wants.spec_keys().index_of(k);
                assert(wants.spec_keys()[j] == k);
                wants.lemma_entry(j);
            }
        }
        true
    }

    /// Takes what `wants` asks for, all of it or nothing: for each key the
    /// last resources of its pool, as many as asked for. `None`, and the
    /// pools unchanged, when some pool holds too few.
    pub fn get(&mut self, wants: &ResourceMap<usize>) -> (r: Option<Resources>)
        requires
            old(self).wf(),
            wants.wf(),
            known_keys(old(self)@, wants@),
        ensures
            final(self).wf(),
            r is Some <==> can_grant(old(self)@, wants@),
            match r {
                Some(lease) => {
                    &&& lease.wf()
                    &&& lease@ == granted(old(self)@, wants@)
                    &&& final(self)@ == after_grant(old(self)@, wants@)
                },
                None => final(self)@ == old(self)@,
            },
    {
        if !self.can_satisfy(wants) {
            return None;
        }
        let ghost before = self@;
        let ghost names = wants.spec_keys();
        let mut held: ResourceMap<Vec<Resource>> = ResourceMap::new();
        let mut i: usize = 0;
        while i < wants.len()
            invariant
                self.wf(),
                wants.wf(),
                names == wants.spec_keys(),
                can_grant(before, wants@),
                well_kinded(before),
                i <= names.len(),
                self@.dom() == before.dom(),
                forall|k: KeyView|
                    before.dom().contains(k) ==> #[trigger] self@[k] == if names.take(
                        i as int,
                    ).contains(k) {
                        before[k].take(before[k].len() - wants@[k])
                    } else {
                        before[k]
                    },
                held.wf(),
                held.spec_keys() == names.take(i as int),
                forall|j: int|
                    0 <= j < i ==> (#[trigger] held.spec_vals()[j])@ == before[names[j]].skip(
                        before[names[j]].len() - wants@[names[j]],
                    ),
            decreases names.len() - i,
        {
            let key = wants.key_at(i);
            let want = *wants.value_at(i);
            let ghost k = names[i as int];
            let ghost mid = self@;
            proof {
                wants.lemma_entry(i as int);
                assert(!names.take(i as int).contains(k)) by {
                    if names.take(i as int).contains(k) {
                        let j = choose|j: int| 0 <= j < i && names.take(i as int)[j] == k;
                        assert(names[j] == names[i as int]);
                    }
                }
                assert(mid[k] == before[k]);
            }
            match self.avail.find(key) {
                Some(p) => {
                    proof {
                        self.avail.lemma_entry(p as int);
                    }
                    let mut row = self.avail.replace_at(p, Vec::new());
                    let at = row.len() - want;
                    let got = row.split_off(at);
                    proof {
                        lemma_stock_insert(old(self).avail@, k, row);
                    }
                    let ghost mid_map = self.avail@;
                    let _ = self.avail.replace_at(p, row);
                    let ghost held_before = held;
                    let _ = held.insert(key.clone(), got);
                    proof {
                        lemma_stock_insert(mid_map, k, row);
                        assert(self@ =~= mid.insert(k, row@));
                        assert(row@ == before[k].take(before[k].len() - want));
                        assert(got@ == before[k].skip(before[k].len() - want));
                        let done = names.take(i + 1);
                        assert(done =~= names.take(i as int).push(k));
                        assert forall|x: KeyView| before.dom().contains(x) implies #[trigger] self@[x]
                            == if done.contains(x) {
                            before[x].take(before[x].len() - wants@[x])
                        } else {
                            before[x]
                        } by {
                            if x == k {
                                assert(done[i as int] == k);
                            } else {
                                assert(self@[x] == mid[x]);
                                if names.take(i as int).contains(x) {
                                    let j = choose|j: int|
                                        0 <= j < i && names.take(i as int)[j] == x;
                                    assert(done[j] == x);
                                }
                                if done.contains(x) {
                                    let j = choose|j: int| 0 <= j < i + 1 && done[j] == x;
                                    assert(names.take(i as int)[j] == x);
                                }
                            }
                        }
                        assert(!held_before@.dom().contains(k));
                        assert forall|j: int| 0 <= j < i + 1 implies (
                        #[trigger] held.spec_vals()[j])@ == before[names[j]].skip(
                            before[names[j]].len() - wants@[names[j]],
                        ) by {
                            if j < i {
                                assert(held.spec_vals()[j] == held_before.spec_vals()[j]);
                            }
                        }
                        assert forall|x: KeyView, q: int|
                            self@.dom().contains(x) && 0 <= q < self@[x].len() implies (
                        #[trigger] self@[x][q]).fits(x) by {
                            if x == k {
                                assert(self@[x][q] == before[x][q]);
                            } else {
                                assert(self@[x] == mid[x]);
                            }
                        }
                    }
                },
                None => {
                    proof {
                        assert(false);
                    }
                },
            }
            i += 1;
        }
        let lease = Resources { held };
        proof {
            assert(names.take(i as int) =~= names);
            assert(lease@ =~= granted(before, wants@)) by {
                assert forall|x: KeyView| lease@.dom().contains(x) implies #[trigger] lease@[x]
                    == granted(before, wants@)[x] by {
                    let j = held.spec_keys().index_of(x);
                    assert(held.spec_keys()[j] == x);
                    held.lemma_entry(j);
                }
            }
            assert(self@ =~= after_grant(before, wants@));
            assert(well_kinded(lease@)) by {
                assert forall|x: KeyView, q: int|
                    lease@.dom().contains(x) && 0 <= q < lease@[x].len() implies (
                #[trigger] lease@[x][q]).fits(x) by {
                    let off = before[x].len() - wants@[x];
                    assert(lease@[x][q] == before[x][off + q]);
                }
            }
        }
        Some(lease)
    }

    /// Whether every key of `lease` is a key of the pools.
    pub fn knows_lease(&self, lease: &Resources) -> (b: bool)
        requires
            self.wf(),
            lease.wf(),
        ensures
            b == known_keys(self@, lease@),
    {
        let held = &lease.held;
        let mut i: usize = 0;
        while i < held.len()
            invariant
                self.wf(),
                *held == lease.held,
                held.wf(),
                i <= held.spec_keys().len(),
                forall|j: int| 0 <= j < i ==> self@.dom().contains(#[trigger] held.spec_keys()[j]),
            decreases held.spec_keys().len() - i,
        {
            if !self.avail.contains_key(held.key_at(i)) {
                proof {
                    let k = held.spec_keys()[i as int];
                    held.lemma_entry(i as int);
                    assert(lease@.dom().contains(k));
                    assert(!self.avail@.dom().contains(k));
                    assert(!self@.dom().contains(k));
                }
                return false;
            }
            i += 1;
        }
        proof {
            assert forall|k: KeyView| lease@.dom().contains(k) implies self@.dom().contains(k) by {
                let j = held.spec_keys().index_of(k);
                assert(held.spec_keys()[j] == k);
            }
        }
        true
    }

    /// Gives back what `lease` holds: its resources go behind those that
    /// are available under the same key.
    pub fn put(&mut self, lease: Resources)
        requires
            old(self).wf(),
            lease.wf(),
            known_keys(old(self)@, lease@),
        ensures
            final(self).wf(),
            final(self)@ == after_return(old(self)@, lease@),
    {
        let ghost before = self@;
        let ghost back = lease@;
        let mut held = lease.held;
        let ghost names = held.spec_keys();
        let ghost rows = held.spec_vals();
        proof {
            assert(names.take(names.len() as int) =~= names);
            assert(rows.take(rows.len() as int) =~= rows);
            assert forall|j: int| 0 <= j < names.len() implies back.dom().contains(
                #[trigger] names[j],
            ) && back[names[j]] == rows[j]@ by {
                held.lemma_entry(j);
            }
        }
        let mut left: usize = held.len();
        while left > 0
            invariant
                self.wf(),
                held.wf(),
                names.no_duplicates(),
                names.len() == rows.len(),
                left <= names.len(),
                held.spec_keys() == names.take(left as int),
                held.spec_vals() == rows.take(left as int),
                known_keys(before, back),
                well_kinded(before),
                well_kinded(back),
                forall|j: int|
                    0 <= j < names.len() ==> back.dom().contains(#[trigger] names[j])
                        && back[names[j]] == rows[j]@,
                self@.dom() == before.dom(),
                forall|k: KeyView|
                    before.dom().contains(k) ==> #[trigger] self@[k] == if names.skip(
                        left as int,
                    ).contains(k) {
                        before[k] + back[k]
                    } else {
                        before[k]
                    },
            decreases left,
        {
            let ghost mid = self@;
            let popped = held.pop();
            match popped {
                Some((key, mut row_back)) => {
                    let ghost k = names[left - 1];
                    proof {
                        assert(key@ == k);
                        assert(row_back == rows[left - 1]);
                        assert(back.dom().contains(k));
                        assert(!names.skip(left as int).contains(k)) by {
                            if names.skip(left as int).contains(k) {
                                let j = choose|j: int|
                                    0 <= j < names.skip(left as int).len() && names.skip(
                                        left as int,
                                    )[j] == k;
                                assert(names[left + j] == names[left - 1]);
                            }
                        }
                        assert(mid[k] == before[k]);
                        assert(before.dom().contains(k));
                        assert(self@.dom().contains(k));
                        assert(self.avail@.dom().contains(k));
                    }
                    match self.avail.find(&key) {
                        Some(p) => {
                            proof {
                                self.avail.lemma_entry(p as int);
                            }
                            let mut row = self.avail.replace_at(p, Vec::new());
                            let ghost mid_map = self.avail@;
                            row.append(&mut row_back);
                            let _ = self.avail.replace_at(p, row);
                            proof {
                                lemma_stock_insert(mid_map, k, row);
                                assert(self@ =~= mid.insert(k, row@));
                                assert(row@ == before[k] + back[k]);
                                let done = names.skip(left - 1);
                                assert forall|x: KeyView| before.dom().contains(x) implies #[trigger] self@[x]
                                    == if done.contains(x) {
                                    before[x] + back[x]
                                } else {
                                    before[x]
                                } by {
                                    if x == k {
                                        assert(done[0] == k);
                                    } else {
                                        assert(self@[x] == mid[x]);
                                        if names.skip(left as int).contains(x) {
                                            let j = choose|j: int|
                                                0 <= j < names.skip(left as int).len()
                                                    && names.skip(left as int)[j] == x;
                                            assert(done[j + 1] == x);
                                        }
                                        if done.contains(x) {
                                            let j = choose|j: int|
                                                0 <= j < done.len() && done[j] == x;
                                            assert(names.skip(left as int)[j - 1] == x);
                                        }
                                    }
                                }
                                assert forall|x: KeyView, q: int|
                                    self@.dom().contains(x) && 0 <= q < self@[x].len() implies (
                                #[trigger] self@[x][q]).fits(x) by {
                                    if x == k {
                                        if q < before[k].len() {
                                            assert(self@[x][q] == before[k][q]);
                                        } else {
                                            assert(self@[x][q] == back[k][q - before[k].len()]);
                                        }
                                    } else {
                                        assert(self@[x] == mid[x]);
                                    }
                                }
                                assert(names.take(left as int).drop_last() =~= names.take(left - 1));
                                assert(rows.take(left as int).drop_last() =~= rows.take(left - 1));
                            }
                        },
                        None => {
                            proof {
                                assert(false);
                            }
                        },
                    }
                },
                None => {
                    proof {
                        assert(false);
                    }
                },
            }
            left -= 1;
        }
        proof {
            assert(names.skip(0) =~= names);
            assert(self@ =~= after_return(before, back)) by {
                assert forall|x: KeyView| before.dom().contains(x) implies (names.contains(x)
                    <==> back.dom().contains(x)) by {
                    if back.dom().contains(x) {
                        assert(lease.held.spec_keys().contains(x));
                    }
                }
            }
        }
    }

    /// Adds resources to the pools, each behind those that are available
    /// under its key. A key that the pools did not have becomes one.
    pub fn add(&mut self, new_resources: Vec<(ResourceKey, Resource)>)
        requires
            old(self).wf(),
            entries_fit(new_resources@),
        ensures
            final(self).wf(),
            final(self)@ == after_add(old(self)@, new_resources@),
    {
        let ghost before = self@;
        let ghost entries = new_resources@;
        let n = new_resources.len();
        let mut stack = reversed(new_resources);
        let mut done: usize = 0;
        proof {
            assert(entries.take(0) =~= Seq::<(ResourceKey, Resource)>::empty());
        }
        while done < n
            invariant
                self.wf(),
                n == entries.len(),
                done <= n,
                entries_fit(entries),
                stack@.len() == n - done,
                forall|j: int| 0 <= j < stack@.len() ==> stack@[j] == entries[n - 1 - j],
                self@ == after_add(before, entries.take(done as int)),
            decreases n - done,
        {
            let ghost mid = self@;
            let top = stack.pop();
            match top {
                Some((key, resource)) => {
                    proof {
                        assert((key, resource) == entries[done as int]);
                        let next = entries.take(done + 1);
                        assert(next.last() == entries[done as int]);
                        assert(next.drop_last() =~= entries.take(done as int));
                        assert(resource.fits(key@));
                    }
                    match self.avail.find(&key) {
                        Some(p) => {
                            proof {
                                self.avail.lemma_entry(p as int);
                            }
                            let mut row = self.avail.replace_at(p, Vec::new());
                            let ghost mid_map = self.avail@;
                            row.push(resource);
                            let _ = self.avail.replace_at(p, row);
                            proof {
                                lemma_stock_insert(mid_map, key@, row);
                                assert(self@ =~= add_one(mid, key@, resource));
                            }
                        },
                        None => {
                            let ghost mid_map = self.avail@;
                            let mut row: Vec<Resource> = Vec::new();
                            row.push(resource);
                            let _ = self.avail.insert(key, row);
                            proof {
                                lemma_stock_insert(mid_map, key@, row);
                                assert(row@ =~= seq![resource]);
                                assert(self@ =~= add_one(mid, key@, resource));
                            }
                        },
                    }
                    proof {
                        assert forall|x: KeyView, q: int|
                            self@.dom().contains(x) && 0 <= q < self@[x].len() implies (
                        #[trigger] self@[x][q]).fits(x) by {
                            if x == key@ {
                                if mid.dom().contains(x) && q < mid[x].len() {
                                    assert(self@[x][q] == mid[x][q]);
                                }
                            } else {
                                assert(self@[x] == mid[x]);
                            }
                        }
                    }
                },
                None => {
                    proof {
                        assert(false);
                    }
                },
            }
            done += 1;
        }
        proof {
            assert(entries.take(n as int) =~= entries);
        }
    }

    /// Takes out every checkout that is available, without waiting, in the
    /// order in which they stood in the pool.
    pub fn try_remove_worktrees(&mut self) -> (r: Vec<TempWorktree>)
        requires
            old(self).wf(),
        ensures
            final(self).wf(),
            final(self)@ == if old(self)@.dom().contains(KeyView::Worktree) {
                old(self)@.insert(KeyView::Worktree, Seq::empty())
            } else {
                old(self)@
            },
            r@.len() == if old(self)@.dom().contains(KeyView::Worktree) {
                old(self)@[KeyView::Worktree].len()
            } else {
                0
            },
            forall|i: int|
                0 <= i < r@.len() ==> old(self)@[KeyView::Worktree][i] == Resource::Worktree(
                    #[trigger] r@[i],
                ),
    {
        let ghost before = self@;
        let key = ResourceKey::Worktree;
        match self.avail.find(&key) {
            Some(p) => {
                proof {
                    self.avail.lemma_entry(p as int);
                }
                let ghost start = self.avail@;
                let fresh: Vec<Resource> = Vec::new();
                let ghost blank = fresh;
                let row = self.avail.replace_at(p, fresh);
                let ghost all = row@;
                proof {
                    lemma_stock_insert(start, KeyView::Worktree, blank);
                    assert(blank@ =~= Seq::<Resource>::empty());
                    assert(self@ =~= before.insert(KeyView::Worktree, Seq::empty()));
                    assert(all == before[KeyView::Worktree]);
                    assert forall|x: KeyView, q: int|
                        self@.dom().contains(x) && 0 <= q < self@[x].len() implies (
                    #[trigger] self@[x][q]).fits(x) by {
                        if x != KeyView::Worktree {
                            assert(self@[x] == before[x]);
                        }
                    }
                }
                let n = row.len();
                let mut stack = reversed(row);
                let mut out: Vec<TempWorktree> = Vec::new();
                while out.len() < n
                    invariant
                        n == all.len(),
                        out@.len() <= n,
                        stack@.len() == n - out@.len(),
                        forall|j: int| 0 <= j < stack@.len() ==> stack@[j] == all[n - 1 - j],
                        forall|j: int| 0 <= j < all.len() ==> (#[trigger] all[j]) is Worktree,
                        forall|j: int|
                            0 <= j < out@.len() ==> all[j] == Resource::Worktree(#[trigger] out@[j]),
                    decreases n - out@.len(),
                {
                    let ghost at = out@.len() as int;
                    let top = stack.pop();
                    match top {
                        Some(Resource::Worktree(w)) => {
                            proof {
                                assert(all[at] == Resource::Worktree(w));
                            }
                            out.push(w);
                        },
                        Some(Resource::UserToken(_)) => {
                            proof {
                                assert(all[at] is Worktree);
                                assert(false);
                            }
                            return out;
                        },
                        None => {
                            proof {
                                assert(false);
                            }
                            return out;
                        },
                    }
                }
                out
            },
            None => Vec::new(),
        }
    }
}

/// The resources that stand under `key`, as a multiset; none if the stock
/// lacks the key.
pub open spec fn tokens_under(stock: Stock, key: KeyView) -> Multiset<Resource> {
    if stock.dom().contains(key) {
        stock[key].to_multiset()
    } else {
        Multiset::empty()
    }
}

/// The resources that `entries` bring for `key`, as a multiset.
pub open spec fn added_under(entries: Seq<(ResourceKey, Resource)>, key: KeyView) -> Multiset<
    Resource,
>
    decreases entries.len(),
{
    if entries.len() == 0 {
        Multiset::empty()
    } else if entries.last().0@ == key {
        added_under(entries.drop_last(), key).insert(entries.last().1)
    } else {
        added_under(entries.drop_last(), key)
    }
}

/// A grant removes from each pool exactly the count asked for, and hands
/// out exactly that many.
pub proof fn lemma_grant_counts(pool: Stock, wants: Map<KeyView, usize>, key: KeyView)
    requires
        can_grant(pool, wants),
        wants.dom().contains(key),
    ensures
        granted(pool, wants)[key].len() == wants[key],
        after_grant(pool, wants)[key].len() == pool[key].len() - wants[key],
        after_grant(pool, wants)[key] + granted(pool, wants)[key] == pool[key],
{
    let row = pool[key];
    let at = row.len() - wants[key];
    assert(row.take(at) + row.skip(at) =~= row);
}

/// A grant moves resources from the pool to the lease: under every key,
/// what stays and what is handed out are together what was there.
pub proof fn lemma_grant_conserves(pool: Stock, wants: Map<KeyView, usize>, key: KeyView)
    requires
        can_grant(pool, wants),
    ensures
        tokens_under(after_grant(pool, wants), key).add(
            tokens_under(granted(pool, wants), key),
        ) == tokens_under(pool, key),
{
    if wants.dom().contains(key) {
        lemma_grant_counts(pool, wants, key);
        vstd::seq_lib::lemma_multiset_commutative(
            after_grant(pool, wants)[key],
            granted(pool, wants)[key],
        );
    } else if pool.dom().contains(key) {
        assert(tokens_under(pool, key).add(Multiset::empty()) =~= tokens_under(pool, key));
    } else {
        assert(Multiset::<Resource>::empty().add(Multiset::empty()) =~= Multiset::<
            Resource,
        >::empty());
    }
}

/// Giving a lease back puts its resources, and nothing else, into the
/// pool.
pub proof fn lemma_return_conserves(pool: Stock, lease: Stock, key: KeyView)
    requires
        known_keys(pool, lease),
    ensures
        tokens_under(after_return(pool, lease), key) == tokens_under(pool, key).add(
            tokens_under(lease, key),
        ),
{
    if lease.dom().contains(key) {
        vstd::seq_lib::lemma_multiset_commutative(pool[key], lease[key]);
    } else if pool.dom().contains(key) {
        assert(tokens_under(pool, key).add(Multiset::empty()) =~= tokens_under(pool, key));
    } else {
        assert(Multiset::<Resource>::empty().add(Multiset::empty()) =~= Multiset::<
            Resource,
        >::empty());
    }
}

/// Giving back what a grant handed out restores the pool as it was.
pub proof fn lemma_return_undoes_grant(pool: Stock, wants: Map<KeyView, usize>)
    requires
        can_grant(pool, wants),
    ensures
        after_return(after_grant(pool, wants), granted(pool, wants)) == pool,
{
    let back = after_return(after_grant(pool, wants), granted(pool, wants));
    assert forall|k: KeyView| pool.dom().contains(k) implies #[trigger] back[k] == pool[k] by {
        if wants.dom().contains(k) {
            lemma_grant_counts(pool, wants, k);
        }
    }
    assert(back =~= pool);
}

/// Adding resources puts exactly them into the pool.
pub proof fn lemma_add_conserves(pool: Stock, entries: Seq<(ResourceKey, Resource)>, key: KeyView)
    ensures
        tokens_under(after_add(pool, entries), key) == tokens_under(pool, key).add(
            added_under(entries, key),
        ),
    decreases entries.len(),
{
    if entries.len() == 0 {
        assert(tokens_under(pool, key).add(Multiset::empty()) =~= tokens_under(pool, key));
    } else {
        let front = entries.drop_last();
        let mid = after_add(pool, front);
        let k = entries.last().0@;
        let r = entries.last().1;
        lemma_add_conserves(pool, front, key);
        if k == key {
            if mid.dom().contains(k) {
                vstd::seq_lib::lemma_multiset_commutative(mid[k], seq![r]);
                assert(mid[k].push(r) =~= mid[k] + seq![r]);
                assert(seq![r].to_multiset() =~= Multiset::empty().insert(r)) by {
                    vstd::seq::Seq::<Resource>::to_multiset_ensures(seq![r]);
                    vstd::seq::Seq::<Resource>::to_multiset_ensures(Seq::<Resource>::empty());
                    assert(Seq::<Resource>::empty().push(r) =~= seq![r]);
                    assert(Seq::<Resource>::empty().to_multiset() =~= Multiset::empty());
                }
            } else {
                assert(seq![r].to_multiset() =~= Multiset::empty().insert(r)) by {
                    vstd::seq::Seq::<Resource>::to_multiset_ensures(Seq::<Resource>::empty());
                    assert(Seq::<Resource>::empty().push(r) =~= seq![r]);
                    assert(Seq::<Resource>::empty().to_multiset() =~= Multiset::empty());
                }
            }
            assert(tokens_under(after_add(pool, entries), key) =~= tokens_under(pool, key).add(
                added_under(entries, key),
            ));
        } else {
            assert(tokens_under(after_add(pool, entries), key) == tokens_under(mid, key));
        }
    }
}

/// Resources taken from the pools, to be given back with `Pools::put`.
pub struct Resources {
    held: ResourceMap<Vec<Resource>>,
}

impl View for Resources {
    type V = Stock;

    /// What is held, key by key.
    closed spec fn view(&self) -> Stock {
        stock_of(self.held@)
    }
}

impl Resources {
    /// The invariant of a lease: no key twice, and under each key only
    /// resources that fit it.
    pub closed spec fn wf(&self) -> bool {
        &&& self.held.wf()
        &&& well_kinded(self@)
    }

    /// The resources held under `key`.
    pub fn resources(&self, key: &ResourceKey) -> (r: Option<&Vec<Resource>>)
        requires
            self.wf(),
        ensures
            match r {
                Some(v) => self@.dom().contains(key@) && v@ == self@[key@],
                None => !self@.dom().contains(key@),
            },
    {
        self.held.get(key)
    }

    /// The token strings held for each resource that the user declared, by
    /// the resource's name: one entry for each such resource.
    pub fn tokens(&self) -> (r: Vec<(String, Vec<String>)>)
        requires
            self.wf(),
        ensures
            forall|a: int, b: int| 0 <= a < b < r@.len() ==> r@[a].0@ != r@[b].0@,
            forall|a: int|
                0 <= a < r@.len() ==> self@.dom().contains(KeyView::UserToken((#[trigger] r@[a]).0@))
                    && texts(r@[a].1@) == token_texts(self@[KeyView::UserToken(r@[a].0@)]),
            forall|name: Seq<char>| #[trigger]
                self@.dom().contains(KeyView::UserToken(name)) ==> exists|a: int|
                    0 <= a < r@.len() && (#[trigger] r@[a]).0@ == name,
    {
        let ghost names = self.held.spec_keys();
        let mut r: Vec<(String, Vec<String>)> = Vec::new();
        let mut i: usize = 0;
        while i < self.held.len()
            invariant
                self.wf(),
                names == self.held.spec_keys(),
                i <= names.len(),
                forall|a: int, b: int| 0 <= a < b < r@.len() ==> r@[a].0@ != r@[b].0@,
                forall|a: int|
                    0 <= a < r@.len() ==> self@.dom().contains(
                        KeyView::UserToken((#[trigger] r@[a]).0@),
                    ) && texts(r@[a].1@) == token_texts(self@[KeyView::UserToken(r@[a].0@)]),
                forall|a: int|
                    0 <= a < r@.len() ==> names.take(i as int).contains(
                        KeyView::UserToken((#[trigger] r@[a]).0@),
                    ),
                forall|j: int|
                    0 <= j < i && (#[trigger] names[j]) is UserToken ==> exists|a: int|
                        0 <= a < r@.len() && (#[trigger] r@[a]).0@ == names[j]->UserToken_0,
            decreases names.len() - i,
        {
            let ghost before = r@;
            proof {
                self.held.lemma_entry(i as int);
            }
            match self.held.key_at(i) {
                ResourceKey::UserToken(name) => {
                    let row = self.held.value_at(i);
                    let ghost k = KeyView::UserToken(name@);
                    proof {
                        assert(names[i as int] == k);
                        assert(self@[k] == row@);
                    }
                    let mut out: Vec<String> = Vec::new();
                    let mut q: usize = 0;
                    while q < row.len()
                        invariant
                            q <= row.len(),
                            out@.len() == q,
                            forall|x: int| 0 <= x < row@.len() ==> (#[trigger] row@[x]) is UserToken,
                            forall|x: int| 0 <= x < q ==> out@[x]@ == token_text(row@[x]),
                        decreases row.len() - q,
                    {
                        match &row[q] {
                            Resource::UserToken(token) => {
                                out.push(token.clone());
                            },
                            Resource::Worktree(_) => {
                                proof {
                                    assert(row@[q as int] is UserToken);
                                }
                            },
                        }
                        q += 1;
                    }
                    proof {
                        assert(texts(out@) =~= token_texts(row@));
                        assert(!names.take(i as int).contains(k)) by {
                            if names.take(i as int).contains(k) {
                                let j = choose|j: int| 0 <= j < i && names.take(i as int)[j] == k;
                                assert(names[j] == names[i as int]);
                            }
                        }
                    }
                    r.push((name.clone(), out));
                    proof {
                        let at = before.len() as int;
                        assert(r@[at].0@ == name@);
                        assert forall|a: int| 0 <= a < r@.len() implies names.take(i + 1).contains(
                            KeyView::UserToken((#[trigger] r@[a]).0@),
                        ) by {
                            if a < at {
                                assert(r@[a] == before[a]);
                                let kk = KeyView::UserToken(before[a].0@);
                                let j = choose|j: int| 0 <= j < i && names.take(i as int)[j] == kk;
                                assert(names.take(i + 1)[j] == kk);
                            } else {
                                assert(names.take(i + 1)[i as int] == k);
                            }
                        }
                        assert forall|a: int, b: int| 0 <= a < b < r@.len() implies r@[a].0@
                            != r@[b].0@ by {
                            if b == at {
                                assert(r@[a] == before[a]);
                                assert(names.take(i as int).contains(
                                    KeyView::UserToken(before[a].0@),
                                ));
                            } else {
                                assert(r@[a] == before[a]);
                                assert(r@[b] == before[b]);
                            }
                        }
                        assert forall|j: int|
                            0 <= j < i + 1 && (#[trigger] names[j]) is UserToken implies exists|
                            a: int,
                        |
                            0 <= a < r@.len() && (#[trigger] r@[a]).0@ == names[j]->UserToken_0 by {
                            let nm = names[j]->UserToken_0;
                            if j < i {
                                let a = choose|a: int|
                                    0 <= a < before.len() && (#[trigger] before[a]).0@ == nm;
                                assert(r@[a] == before[a]);
                            } else {
                                assert(r@[at].0@ == nm);
                            }
                        }
                    }
                },
                ResourceKey::Worktree => {
                    proof {
                        assert forall|a: int| 0 <= a < r@.len() implies names.take(i + 1).contains(
                            KeyView::UserToken((#[trigger] r@[a]).0@),
                        ) by {
                            let kk = KeyView::UserToken(r@[a].0@);
                            let j = choose|j: int| 0 <= j < i && names.take(i as int)[j] == kk;
                            assert(names.take(i + 1)[j] == kk);
                        }
                    }
                },
            }
            i += 1;
        }
        proof {
            assert forall|name: Seq<char>| #[trigger]
                self@.dom().contains(KeyView::UserToken(name)) implies exists|a: int|
                0 <= a < r@.len() && (#[trigger] r@[a]).0@ == name by {
                let k = KeyView::UserToken(name);
                assert(names.contains(k));
                let j = choose|j: int| 0 <= j < names.len() && names[j] == k;
                assert(names[j] is UserToken);
            }
        }
        r
    }
}

/// The string of a token that the user declared.
pub open spec fn token_text(r: Resource) -> Seq<char> {
    r->UserToken_0@
}

/// The strings of a row of tokens that the user declared.
pub open spec fn token_texts(row: Seq<Resource>) -> Seq<Seq<char>> {
    row.map_values(|r: Resource| token_text(r))
}

/// The name of the environment variable that carries the `i`-th token
/// granted of the resource `name`.
pub open spec fn env_name(name: Seq<char>, i: nat) -> Seq<char> {
    "LCI_RESOURCE_"@ + name + "_"@ + decimal(i)
}

/// The environment of a job that was granted the tokens `tokens` of the
/// resource `name`: one variable for each token, numbered from 0.
pub open spec fn env_row(name: Seq<char>, tokens: Seq<Seq<char>>) -> Seq<(Seq<char>, Seq<char>)> {
    Seq::new(tokens.len(), |i: int| (env_name(name, i as nat), tokens[i]))
}

/// The environment of a job that was granted `granted`: the variables of
/// each resource in turn.
pub open spec fn env_of(granted: Seq<(String, Vec<String>)>) -> Seq<(Seq<char>, Seq<char>)>
    decreases granted.len(),
{
    if granted.len() == 0 {
        Seq::empty()
    } else {
        env_of(granted.drop_last()) + env_row(granted.last().0@, texts(granted.last().1@))
    }
}

/// The views of pairs of strings.
pub open spec fn pair_texts(v: Seq<(String, String)>) -> Seq<(Seq<char>, Seq<char>)> {
    v.map_values(|p: (String, String)| (p.0@, p.1@))
}

/// The environment variables that tell a job which tokens it was granted:
/// `LCI_RESOURCE_<name>_<i>` carries the `i`-th token of the resource
/// `name`.
pub fn env_vars(granted: &Vec<(String, Vec<String>)>) -> (env: Vec<(String, String)>)
    ensures
        pair_texts(env@) == env_of(granted@),
{
    let mut env: Vec<(String, String)> = Vec::new();
    let mut a: usize = 0;
    proof {
        assert(granted@.take(0) =~= Seq::<(String, Vec<String>)>::empty());
        assert(pair_texts(env@) =~= env_of(granted@.take(0)));
    }
    while a < granted.len()
        invariant
            a <= granted.len(),
            pair_texts(env@) == env_of(granted@.take(a as int)),
        decreases granted.len() - a,
    {
        let name = &granted[a].0;
        let toks = &granted[a].1;
        let ghost start = pair_texts(env@);
        let mut i: usize = 0;
        while i < toks.len()
            invariant
                i <= toks.len(),
                pair_texts(env@) == start + env_row(name@, texts(toks@)).take(i as int),
            decreases toks.len() - i,
        {
            let mut var = String::from_str("LCI_RESOURCE_");
            var.append(name.as_str());
            var.append("_");
            push_decimal(&mut var, i);
            let ghost before = pair_texts(env@);
            env.push((var, toks[i].clone()));
            proof {
                let row = env_row(name@, texts(toks@));
                assert(row[i as int] == (env_name(name@, i as nat), toks@[i as int]@));
                assert(row.take(i + 1) =~= row.take(i as int).push(row[i as int]));
                assert(pair_texts(env@) =~= before.push((var@, toks@[i as int]@)));
                assert(pair_texts(env@) =~= start + row.take(i + 1));
            }
            i += 1;
        }
        proof {
            let row = env_row(name@, texts(toks@));
            assert(row.take(toks.len() as int) =~= row);
            let next = granted@.take(a + 1);
            assert(next.last() == granted@[a as int]);
            assert(next.drop_last() =~= granted@.take(a as int));
        }
        a += 1;
    }
    proof {
        assert(granted@.take(a as int) =~= granted@);
    }
    env
}


/// The books of a pool: what is in it, what is out on lease, and what was
/// put into it since it was made with `initial`.
pub struct Ledger {
    pub initial: Stock,
    pub pool: Stock,
    pub leases: Seq<Stock>,
    pub added: Seq<(ResourceKey, Resource)>,
}

/// The resources that the leases hold under `key`, as a multiset.
pub open spec fn held_under(leases: Seq<Stock>, key: KeyView) -> Multiset<Resource>
    decreases leases.len(),
{
    if leases.len() == 0 {
        Multiset::empty()
    } else {
        held_under(leases.drop_last(), key).add(tokens_under(leases.last(), key))
    }
}

/// Under `key`, what is in the pool and what is out on lease are together
/// what the pool was made with and what was added since.
pub open spec fn balanced(l: Ledger, key: KeyView) -> bool {
    tokens_under(l.pool, key).add(held_under(l.leases, key)) == tokens_under(l.initial, key).add(
        added_under(l.added, key),
    )
}

/// The books of a pool that was just made with `initial`.
pub open spec fn opened(initial: Stock) -> Ledger {
    Ledger { initial, pool: initial, leases: Seq::empty(), added: Seq::empty() }
}

/// The books after a grant of `wants`.
pub open spec fn after_get(l: Ledger, wants: Map<KeyView, usize>) -> Ledger {
    Ledger {
        pool: after_grant(l.pool, wants),
        leases: l.leases.push(granted(l.pool, wants)),
        ..l
    }
}

/// The books after the lease at position `i` came back.
pub open spec fn after_put(l: Ledger, i: int) -> Ledger {
    Ledger { pool: after_return(l.pool, l.leases[i]), leases: l.leases.remove(i), ..l }
}

/// The books after `entries` were added.
pub open spec fn after_adding(l: Ledger, entries: Seq<(ResourceKey, Resource)>) -> Ledger {
    Ledger { pool: after_add(l.pool, entries), added: l.added + entries, ..l }
}

/// What is added in two goes is what is added in one.
pub proof fn lemma_added_under_concat(
    a: Seq<(ResourceKey, Resource)>,
    b: Seq<(ResourceKey, Resource)>,
    key: KeyView,
)
    ensures
        added_under(a + b, key) == added_under(a, key).add(added_under(b, key)),
    decreases b.len(),
{
    if b.len() == 0 {
        assert(a + b =~= a);
        assert(added_under(a, key).add(Multiset::empty()) =~= added_under(a, key));
    } else {
        assert((a + b).drop_last() =~= a + b.drop_last());
        assert((a + b).last() == b.last());
        lemma_added_under_concat(a, b.drop_last(), key);
        assert(added_under(a + b, key) =~= added_under(a, key).add(added_under(b, key)));
    }
}

/// The leases without one of them hold what the leases hold less what
/// that one holds.
pub proof fn lemma_held_under_remove(leases: Seq<Stock>, i: int, key: KeyView)
    requires
        0 <= i < leases.len(),
    ensures
        held_under(leases.remove(i), key).add(tokens_under(leases[i], key)) == held_under(
            leases,
            key,
        ),
    decreases leases.len(),
{
    if i == leases.len() - 1 {
        assert(leases.remove(i) =~= leases.drop_last());
    } else {
        let front = leases.drop_last();
        lemma_held_under_remove(front, i, key);
        assert(leases.remove(i).drop_last() =~= front.remove(i));
        assert(leases.remove(i).last() == leases.last());
        assert(front[i] == leases[i]);
        assert(held_under(leases.remove(i), key).add(tokens_under(leases[i], key)) =~= held_under(
            leases,
            key,
        ));
    }
}

/// The books of a pool balance when it is made, and they still balance
/// after every grant, every return of a lease and every addition: at any
/// time the tokens in the pool and those out on lease are together the
/// tokens the pool was made with and those added since.
pub proof fn lemma_books_balance(
    l: Ledger,
    wants: Map<KeyView, usize>,
    i: int,
    entries: Seq<(ResourceKey, Resource)>,
    key: KeyView,
)
    ensures
        balanced(opened(l.initial), key),
        balanced(l, key) && can_grant(l.pool, wants) ==> balanced(after_get(l, wants), key),
        balanced(l, key) && 0 <= i < l.leases.len() && known_keys(l.pool, l.leases[i]) ==> balanced(
            after_put(l, i),
            key,
        ),
        balanced(l, key) ==> balanced(after_adding(l, entries), key),
{
    assert(balanced(opened(l.initial), key)) by {
        let o = opened(l.initial);
        assert(tokens_under(o.pool, key).add(held_under(o.leases, key)) =~= tokens_under(
            o.initial,
            key,
        ).add(added_under(o.added, key)));
    }
    if balanced(l, key) && can_grant(l.pool, wants) {
        let n = after_get(l, wants);
        lemma_grant_conserves(l.pool, wants, key);
        assert(n.leases.drop_last() =~= l.leases);
        assert(n.leases.last() == granted(l.pool, wants));
        assert(tokens_under(n.pool, key).add(held_under(n.leases, key)) =~= tokens_under(
            l.pool,
            key,
        ).add(held_under(l.leases, key)));
    }
    if balanced(l, key) && 0 <= i < l.leases.len() && known_keys(l.pool, l.leases[i]) {
        let n = after_put(l, i);
        lemma_return_conserves(l.pool, l.leases[i], key);
        lemma_held_under_remove(l.leases, i, key);
        assert(tokens_under(n.pool, key).add(held_under(n.leases, key)) =~= tokens_under(
            l.pool,
            key,
        ).add(held_under(l.leases, key)));
    }
    if balanced(l, key) {
        let n = after_adding(l, entries);
        lemma_add_conserves(l.pool, entries, key);
        lemma_added_under_concat(l.added, entries, key);
        let pool = tokens_under(l.pool, key);
        let held = held_under(l.leases, key);
        let start = tokens_under(l.initial, key);
        let old_added = added_under(l.added, key);
        let new_added = added_under(entries, key);
        assert(pool.add(new_added).add(held) =~= pool.add(held).add(new_added));
        assert(start.add(old_added).add(new_added) =~= start.add(old_added.add(new_added)));
    }
}

} // verus!
